use flamingo::config::{FlamingoConfig, ProcessConfig};
use flamingo::logger::{
    init, is_expired_log, log_dir_from, parse_log_level, session_id, session_log_file, LogHistory,
    LogLevel,
};

fn run(history: &mut LogHistory, max: LogLevel, records: &[(LogLevel, &str)]) -> String {
    let mut written = String::new();
    for (level, message) in records {
        if let Some(line) = history.record(*level, max, message) {
            written.push_str(&line);
            written.push('\n');
        }
    }
    written
}

#[test]
fn test_log_to_file() {
    let mut history = LogHistory::from_content("");
    let content = run(
        &mut history,
        LogLevel::Warn,
        &[
            (LogLevel::Error, "error"),
            (LogLevel::Warn, "warn"),
            (LogLevel::Info, "info"),
            (LogLevel::Debug, "debug"),
            (LogLevel::Trace, "trace"),
            (LogLevel::Warn, "warn"),
            (LogLevel::Error, "error"),
        ],
    );
    assert_eq!(content, "[ERROR]: error\n[WARN]: warn\n[ERROR]: error\n");
}

#[test]
fn test_dedup_from_file() {
    let existing = "[WARN]: warn\n";
    let mut history = LogHistory::from_content(existing);
    let written = run(
        &mut history,
        LogLevel::Warn,
        &[
            (LogLevel::Warn, "warn"),
            (LogLevel::Warn, "warn2"),
            (LogLevel::Error, "error"),
            (LogLevel::Error, "error"),
        ],
    );
    let content = format!("{existing}{written}");
    assert_eq!(
        content,
        "[WARN]: warn\n[WARN]: warn2\n[ERROR]: error\n[ERROR]: error\n"
    );
}

#[test]
fn test_cleanup() {
    let day = 60 * 60 * 24;
    assert!(!is_expired_log("not-a-log.txt", true, day * 365), "Non-log file should not be deleted");
    assert!(!is_expired_log("recent.log", true, 0), "Recent log file should not be deleted");
    assert!(!is_expired_log("somedir.log", false, day * 365), "Directory should not be deleted");
    assert!(is_expired_log("old.log", true, day * 365), "Old log file should be deleted");
}

#[test]
fn expiry_edges() {
    let day = 60 * 60 * 24;
    assert!(!is_expired_log("a.log", true, day));
    assert!(is_expired_log("a.log", true, day + 1));
    assert!(!is_expired_log(".log", true, day + 1));
    assert!(is_expired_log("..log", true, day + 1));
    assert!(!is_expired_log("a.log.txt", true, day + 1));
    assert!(is_expired_log("a.txt.log", true, day + 1));
    assert!(!is_expired_log("log", true, day + 1));
    assert!(!is_expired_log("a.LOG", true, day + 1));
}

#[test]
fn levels_parse_ignoring_case() {
    assert_eq!(parse_log_level("trace"), LogLevel::Trace);
    assert_eq!(parse_log_level("DeBuG"), LogLevel::Debug);
    assert_eq!(parse_log_level("INFO"), LogLevel::Info);
    assert_eq!(parse_log_level("warn"), LogLevel::Warn);
    assert_eq!(parse_log_level("Error"), LogLevel::Error);
    assert_eq!(parse_log_level("verbose"), LogLevel::Warn);
    assert_eq!(parse_log_level(""), LogLevel::Warn);
}

#[test]
fn init_returns_configured_level() {
    let config = ProcessConfig {
        min_log_level: "debug".to_string(),
        ..Default::default()
    };
    assert_eq!(init(&config), LogLevel::Debug);
    assert_eq!(FlamingoConfig::default().setup_logger(), LogLevel::Warn);
}

#[test]
fn disabled_levels_are_not_recorded() {
    let mut history = LogHistory::from_content("");
    assert_eq!(history.record(LogLevel::Info, LogLevel::Warn, "x"), None);
    assert_eq!(
        history.record(LogLevel::Info, LogLevel::Trace, "x"),
        Some("[INFO]: x".to_string())
    );
    assert_eq!(history.record(LogLevel::Info, LogLevel::Trace, "x"), None);
    assert_eq!(
        history.record(LogLevel::Debug, LogLevel::Trace, "x"),
        Some("[DEBUG]: x".to_string())
    );
}

#[test]
fn history_reads_crlf_lines() {
    let mut history = LogHistory::from_content("[WARN]: a\r\n[WARN]: b");
    assert_eq!(history.record(LogLevel::Warn, LogLevel::Warn, "a"), None);
    assert_eq!(history.record(LogLevel::Warn, LogLevel::Warn, "b"), None);
    assert!(history.record(LogLevel::Warn, LogLevel::Warn, "c").is_some());
}

#[test]
fn session_naming() {
    assert_eq!(session_id(Some("abc"), 42), "abc");
    assert_eq!(session_id(Some(""), 42), "42");
    assert_eq!(session_id(None, 7), "7");
    let config = ProcessConfig::default();
    assert_eq!(session_log_file(&config, "/tmp/logs", "9"), "/tmp/logs/session_9.log");
    let config = ProcessConfig {
        session_key: Some("k".to_string()),
        log_dir: Some("/var/log/f".to_string()),
        ..Default::default()
    };
    assert_eq!(session_log_file(&config, "/tmp/logs", "9"), "/var/log/f/session_k.log");
    assert_eq!(log_dir_from(Some("/home/u"), Some("/c"), "/tmp"), "/home/u/.cache/flamingo");
    assert_eq!(log_dir_from(None, Some("/c"), "/tmp"), "/c/flamingo");
    assert_eq!(log_dir_from(None, None, "/tmp"), "/tmp/flamingo");
    assert_eq!(log_dir_from(None, None, "/tmp/"), "/tmp/flamingo");
    assert_eq!(log_dir_from(None, None, ""), "flamingo");
    assert_eq!(session_log_file(&ProcessConfig::default(), "", "9"), "session_9.log");
}
