use flamingo::config::{
    default_symbol, FlamingoConfig, GitConfig, PathConfig, ProcessConfig, Side, TruncateStrategy,
};
use flamingo::context::FlamingoContext;
use flamingo::git::GitError;

fn config(truncate: TruncateStrategy) -> FlamingoConfig {
    FlamingoConfig {
        path: PathConfig {
            truncate,
            shorten_home: false,
        },
        ..Default::default()
    }
}

#[test]
fn path_only() {
    let c = config(TruncateStrategy::Tail { size: 1 });
    let out = flamingo::context::format(&c, FlamingoContext::path(), "/a/b", Some(Ok("main".to_string())));
    assert_eq!(out, "b");
}

#[test]
fn git_only() {
    let c = config(TruncateStrategy::Full);
    let out = flamingo::context::format(&c, FlamingoContext::git(), "/a/b", Some(Ok("main".to_string())));
    assert_eq!(out, "main");
}

#[test]
fn git_error_shows_no_git_segment() {
    let c = config(TruncateStrategy::Full);
    let both = FlamingoContext::path().union(FlamingoContext::git());
    let out = flamingo::context::format(&c, both, "/a/b", Some(Err(GitError::NotARepository)));
    assert_eq!(out, "/a/b");
    let out = flamingo::context::format(&c, both, "/a/b", None);
    assert_eq!(out, "/a/b");
}

#[test]
fn context_bits() {
    let both = FlamingoContext::path().union(FlamingoContext::git());
    assert!(both.contains(FlamingoContext::path()));
    assert!(both.contains(FlamingoContext::git()));
    assert!(!FlamingoContext::path().contains(FlamingoContext::git()));
    assert_eq!(both.bits, 0b11);
}

#[test]
fn defaults() {
    let c = FlamingoConfig::default();
    assert!(c.path.shorten_home);
    assert!(matches!(c.path.truncate, TruncateStrategy::Full));
    let g = GitConfig::default();
    assert_eq!(g.format, "$state $branch ($stash:$dirty:$ahead:$behind)");
    assert_eq!(g.max_branch_chars, None);
    assert_eq!(g.symbols.ahead, "\u{2191}");
    assert_eq!(g.symbols.behind, "\u{2193}");
    assert_eq!(g.symbols.dirty, "*");
    assert_eq!(g.symbols.stash, "$");
    assert_eq!(g.symbols.detached_head, "DETACHED");
    let p = ProcessConfig::default();
    assert_eq!(p.num_threads, 8);
    assert_eq!(p.min_log_level, "warn");
    assert_eq!(p.session_key, None);
    assert_eq!(p.log_dir, None);
    assert_eq!(default_symbol(), "\u{2026}");
    assert_eq!(flamingo::config::default_side(), Side::Right);
    assert_eq!(flamingo::config::default_min(), 1);
}
