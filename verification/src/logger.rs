//! Log levels, duplicate suppression of logged lines, and expiry of old log files.
use vstd::prelude::*;
use crate::config::ProcessConfig;
use crate::parse::lines;
use crate::text::{append_chars, chars_of, string_of, views};
use crate::parse::{decimal, decimal_of, lines_of};
use crate::path::{home_dir, join_path, spec_path_join};

verus! {

broadcast use vstd::string::group_string_axioms;

/// Severity of a log message, from the most to the least severe.
#[derive(Debug, PartialEq, Eq, Structural, Clone, Copy)]
pub enum LogLevel {
    Error,
    Warn,
    Info,
    Debug,
    Trace,
}

/// 1 for `Error` up to 5 for `Trace`; a level is enabled when its rank is at
/// most that of the maximum level.
pub open spec fn rank(l: LogLevel) -> nat {
    match l {
        LogLevel::Error => 1,
        LogLevel::Warn => 2,
        LogLevel::Info => 3,
        LogLevel::Debug => 4,
        LogLevel::Trace => 5,
    }
}

/// The levels are strictly ordered by severity, `Error` first and `Trace`
/// last, so distinct levels never rank alike.
pub proof fn lemma_levels_strictly_ordered(a: LogLevel, b: LogLevel)
    ensures
        rank(LogLevel::Error) < rank(LogLevel::Warn),
        rank(LogLevel::Warn) < rank(LogLevel::Info),
        rank(LogLevel::Info) < rank(LogLevel::Debug),
        rank(LogLevel::Debug) < rank(LogLevel::Trace),
        rank(a) == rank(b) ==> a == b,
        rank(LogLevel::Error) <= rank(a) <= rank(LogLevel::Trace),
{
}

/// A message less severe than the maximum level is never written, whatever
/// was logged before; a message at least as severe that is new (or an error)
/// always is.
pub proof fn lemma_level_filter(seen: Set<Seq<char>>, level: LogLevel, max: LogLevel, message: Seq<char>)
    ensures
        rank(max) < rank(level) ==> !is_emitted(seen, level, max, message),
        rank(level) <= rank(max) && (level == LogLevel::Error || !seen.contains(log_line(level, message)))
            ==> is_emitted(seen, level, max, message),
        level == LogLevel::Debug && max == LogLevel::Info ==> !is_emitted(seen, level, max, message),
        level == LogLevel::Trace && max != LogLevel::Trace ==> !is_emitted(seen, level, max, message),
        level == LogLevel::Error ==> is_emitted(seen, level, max, message),
{
}

pub fn level_rank(l: LogLevel) -> (r: u8)
    ensures
        r == rank(l),
{
    match l {
        LogLevel::Error => 1,
        LogLevel::Warn => 2,
        LogLevel::Info => 3,
        LogLevel::Debug => 4,
        LogLevel::Trace => 5,
    }
}

/// The name a level is written with.
pub open spec fn level_name(l: LogLevel) -> Seq<char> {
    match l {
        LogLevel::Error => "ERROR"@,
        LogLevel::Warn => "WARN"@,
        LogLevel::Info => "INFO"@,
        LogLevel::Debug => "DEBUG"@,
        LogLevel::Trace => "TRACE"@,
    }
}

impl LogLevel {
    pub fn name(&self) -> (r: &'static str)
        ensures
            r@ == level_name(*self),
    {
        match self {
            LogLevel::Error => "ERROR",
            LogLevel::Warn => "WARN",
            LogLevel::Info => "INFO",
            LogLevel::Debug => "DEBUG",
            LogLevel::Trace => "TRACE",
        }
    }
}

/// `c` with an ASCII upper-case letter made lower-case.
pub open spec fn ascii_lower(c: char) -> char {
    if 'A' <= c <= 'Z' {
        ((c as u32) + 32) as char
    } else {
        c
    }
}

/// `s` with ASCII upper-case letters made lower-case (`str::to_ascii_lowercase`).
pub open spec fn ascii_lowercase(s: Seq<char>) -> Seq<char> {
    Seq::new(s.len(), |i: int| ascii_lower(s[i]))
}

fn lowercase_chars(s: &[char]) -> (r: Vec<char>)
    ensures
        r@ == ascii_lowercase(s@),
{
    let mut r: Vec<char> = Vec::new();
    let mut i: usize = 0;
    while i < s.len()
        invariant
            i <= s.len(),
            r@ =~= Seq::new(i as nat, |k: int| ascii_lower(s@[k])),
        decreases s.len() - i,
    {
        let c = s[i];
        let l = if 'A' <= c && c <= 'Z' {
            let b = (c as u32) as u8;
            let l = (b + 32) as char;
            assert(l == ascii_lower(c));
            l
        } else {
            c
        };
        r.push(l);
        i = i + 1;
    }
    r
}

fn same_chars(a: &[char], b: &[char]) -> (r: bool)
    ensures
        r == (a@ == b@),
{
    if a.len() != b.len() {
        return false;
    }
    let mut i: usize = 0;
    while i < a.len()
        invariant
            a.len() == b.len(),
            i <= a.len(),
            forall|k: int| 0 <= k < i ==> a@[k] == b@[k],
        decreases a.len() - i,
    {
        if a[i] != b[i] {
            return false;
        }
        i = i + 1;
    }
    assert(a@ =~= b@);
    true
}

/// The level a configured name stands for, ignoring ASCII case; an unknown
/// name stands for `Warn`.
pub open spec fn spec_parse_log_level(s: Seq<char>) -> LogLevel {
    let l = ascii_lowercase(s);
    if l == "trace"@ {
        LogLevel::Trace
    } else if l == "debug"@ {
        LogLevel::Debug
    } else if l == "info"@ {
        LogLevel::Info
    } else if l == "warn"@ {
        LogLevel::Warn
    } else if l == "error"@ {
        LogLevel::Error
    } else {
        LogLevel::Warn
    }
}

/// The level a configured name stands for.
pub fn parse_log_level(s: &str) -> (r: LogLevel)
    ensures
        r == spec_parse_log_level(s@),
{
    let l = lowercase_chars(&chars_of(s));
    if same_chars(&l, &chars_of("trace")) {
        LogLevel::Trace
    } else if same_chars(&l, &chars_of("debug")) {
        LogLevel::Debug
    } else if same_chars(&l, &chars_of("info")) {
        LogLevel::Info
    } else if same_chars(&l, &chars_of("warn")) {
        LogLevel::Warn
    } else if same_chars(&l, &chars_of("error")) {
        LogLevel::Error
    } else {
        LogLevel::Warn
    }
}

/// Trusted: calls `log::set_max_level` with the filter of the same name as
/// `level`; it sets a process-wide value and returns nothing.
#[verifier::external_body]
fn set_max_level(level: LogLevel) {
    log::set_max_level(
        match level {
            LogLevel::Error => log::LevelFilter::Error,
            LogLevel::Warn => log::LevelFilter::Warn,
            LogLevel::Info => log::LevelFilter::Info,
            LogLevel::Debug => log::LevelFilter::Debug,
            LogLevel::Trace => log::LevelFilter::Trace,
        },
    );
}

/// Sets the process-wide maximum log level from the configuration and returns
/// it; installing the logger itself is left to the caller.
pub fn init(config: &ProcessConfig) -> (r: LogLevel)
    ensures
        r == spec_parse_log_level(config.min_log_level@),
{
    let level = parse_log_level(config.min_log_level.as_str());
    set_max_level(level);
    level
}

/// The line a message is logged as: `[LEVEL]: message`.
pub open spec fn log_line(level: LogLevel, message: Seq<char>) -> Seq<char> {
    "["@ + level_name(level) + "]: "@ + message
}

/// Whether a message is written (to the log file and to stderr): its level is
/// enabled, and unless it is an error, the same line was not logged before.
pub open spec fn is_emitted(seen: Set<Seq<char>>, level: LogLevel, max: LogLevel, message: Seq<char>) -> bool {
    rank(level) <= rank(max) && (level == LogLevel::Error || !seen.contains(log_line(level, message)))
}

/// The views of a sequence of strings.
pub open spec fn string_views(v: Seq<String>) -> Seq<Seq<char>> {
    v.map_values(|s: String| s@)
}

/// The lines already logged in this session.
#[derive(Debug)]
pub struct LogHistory {
    lines: Vec<String>,
}

impl LogHistory {
    pub closed spec fn seen(&self) -> Set<Seq<char>> {
        string_views(self.lines@).to_set()
    }

    /// The history held in the content of a log file: one entry per line.
    pub fn from_content(content: &str) -> (r: Self)
        ensures
            r.seen() == lines(content@).to_set(),
    {
        let ls = lines_of(&chars_of(content));
        let mut out: Vec<String> = Vec::new();
        let mut i: usize = 0;
        while i < ls.len()
            invariant
                i <= ls.len(),
                string_views(out@) =~= views(ls@).take(i as int),
            decreases ls.len() - i,
        {
            let line = string_of(&ls[i]);
            assert(views(ls@)[i as int] == ls@[i as int]@);
            let ghost before = string_views(out@);
            out.push(line);
            assert(string_views(out@) =~= before.push(ls@[i as int]@));
            i = i + 1;
            assert(string_views(out@) =~= views(ls@).take(i as int));
        }
        assert(views(ls@).take(i as int) =~= views(ls@));
        LogHistory { lines: out }
    }

    fn contains_line(&self, line: &String) -> (r: bool)
        ensures
            r == self.seen().contains(line@),
    {
        let mut i: usize = 0;
        while i < self.lines.len()
            invariant
                i <= self.lines.len(),
                forall|k: int| 0 <= k < i ==> self.lines@[k]@ != line@,
            decreases self.lines.len() - i,
        {
            if self.lines[i] == *line {
                assert(string_views(self.lines@)[i as int] == line@);
                return true;
            }
            i = i + 1;
        }
        assert(!string_views(self.lines@).contains(line@));
        false
    }

    /// Decides whether a message is logged; when it is, returns its line and
    /// adds the line to the history.
    pub fn record(&mut self, level: LogLevel, max: LogLevel, message: &str) -> (r: Option<String>)
        ensures
            r is Some == is_emitted(old(self).seen(), level, max, message@),
            r matches Some(line) ==> line@ == log_line(level, message@),
            r is Some ==> final(self).seen() == old(self).seen().insert(log_line(level, message@)),
            r is None ==> final(self).seen() == old(self).seen(),
    {
        if level_rank(level) > level_rank(max) {
            return None;
        }
        let mut l = chars_of("[");
        append_chars(&mut l, &chars_of(level.name()));
        append_chars(&mut l, &chars_of("]: "));
        append_chars(&mut l, &chars_of(message));
        let line = string_of(&l);
        let duplicate = level_rank(level) > 1 && self.contains_line(&line);
        if duplicate {
            return None;
        }
        let ghost before = self.lines@;
        self.lines.push(line.clone());
        proof {
            assert(string_views(self.lines@) =~= string_views(before).push(line@));
            string_views(before).lemma_push_to_set_commute(line@);
        }
        Some(line)
    }
}

/// A non-error line is written once: recording the same message at the same
/// level again is skipped.
pub proof fn lemma_logged_once(seen: Set<Seq<char>>, level: LogLevel, max: LogLevel, message: Seq<char>)
    requires
        level != LogLevel::Error,
        is_emitted(seen, level, max, message),
    ensures
        !is_emitted(seen.insert(log_line(level, message)), level, max, message),
{
}

/// Errors at an enabled level are always written.
pub proof fn lemma_errors_always_logged(seen: Set<Seq<char>>, max: LogLevel, message: Seq<char>)
    ensures
        is_emitted(seen, LogLevel::Error, max, message),
{
}

/// Index of the last `.` in `s`, or -1.
pub open spec fn last_dot(s: Seq<char>) -> int
    decreases s.len(),
{
    if s.len() == 0 {
        -1
    } else if s.last() == '.' {
        s.len() - 1
    } else {
        last_dot(s.drop_last())
    }
}

/// The extension of a file name (`Path::extension`): what follows the last
/// `.`, unless that `.` starts the name; `..` has none.
pub open spec fn extension(name: Seq<char>) -> Option<Seq<char>> {
    if name == seq!['.', '.'] || last_dot(name) <= 0 {
        None
    } else {
        Some(name.skip(last_dot(name) + 1))
    }
}

/// A log file that was not modified for more than a day.
pub open spec fn spec_is_expired_log(name: Seq<char>, is_file: bool, age_secs: u64) -> bool {
    extension(name) == Some(seq!['l', 'o', 'g']) && is_file && age_secs > 86400
}

proof fn lemma_last_dot_bounds(s: Seq<char>)
    ensures
        -1 <= last_dot(s) < s.len(),
        last_dot(s) >= 0 ==> s[last_dot(s)] == '.',
        forall|k: int| last_dot(s) < k < s.len() ==> s[k] != '.',
    decreases s.len(),
{
    if s.len() > 0 && s.last() != '.' {
        lemma_last_dot_bounds(s.drop_last());
        assert forall|k: int| last_dot(s) < k < s.len() implies s[k] != '.' by {
            if k < s.len() - 1 {
                assert(s.drop_last()[k] == s[k]);
            }
        }
    }
}

/// Whether a directory entry is a log file old enough to be deleted:
/// named `*.log`, a regular file, and unmodified for more than 24 hours.
pub fn is_expired_log(file_name: &str, is_file: bool, age_secs: u64) -> (r: bool)
    ensures
        r == spec_is_expired_log(file_name@, is_file, age_secs),
{
    let name = chars_of(file_name);
    let n = name.len();
    proof {
        lemma_last_dot_bounds(name@);
    }
    let mut i: usize = n;
    assert(name@.take(n as int) =~= name@);
    while i > 0 && name[i - 1] != '.'
        invariant
            i <= n == name@.len(),
            last_dot(name@) == last_dot(name@.take(i as int)),
        decreases i,
    {
        assert(name@.take(i as int).drop_last() =~= name@.take(i - 1));
        i = i - 1;
    }
    proof {
        if i > 0 {
            assert(name@.take(i as int).last() == '.');
        }
        assert(last_dot(name@) == i - 1);
    }
    let is_dotdot = n == 2 && name[0] == '.' && name[1] == '.';
    assert(is_dotdot == (name@ == seq!['.', '.'])) by {
        if name@ == seq!['.', '.'] {
            assert(name@[0] == '.' && name@[1] == '.');
        }
        if is_dotdot {
            assert(name@ =~= seq!['.', '.']);
        }
    }
    if is_dotdot || i <= 1 {
        return false;
    }
    let start = i;
    let ext_ok = n - start == 3 && name[start] == 'l' && name[start + 1] == 'o' && name[start + 2] == 'g';
    assert(ext_ok == (name@.skip(start as int) == seq!['l', 'o', 'g'])) by {
        if ext_ok {
            assert(name@.skip(start as int) =~= seq!['l', 'o', 'g']);
        }
        if name@.skip(start as int) == seq!['l', 'o', 'g'] {
            assert(name@.skip(start as int).len() == 3);
            assert(name@.skip(start as int)[0] == name@[start as int]);
            assert(name@.skip(start as int)[1] == name@[start + 1]);
            assert(name@.skip(start as int)[2] == name@[start + 2]);
        }
    }
    ext_ok && is_file && age_secs > 86400
}

/// Level names are read without regard to ASCII case.
pub proof fn lemma_parse_log_level_ignores_case(s: Seq<char>)
    ensures
        spec_parse_log_level(ascii_lowercase(s)) == spec_parse_log_level(s),
{
    assert forall|c: char| ascii_lower(ascii_lower(c)) == ascii_lower(c) by {
        if 'A' <= c <= 'Z' {
            assert(!('A' <= ascii_lower(c) <= 'Z'));
        }
    }
    assert(ascii_lowercase(ascii_lowercase(s)) =~= ascii_lowercase(s));
}

/// Trusted: calls `dirs::cache_dir`, which reads `$XDG_CACHE_HOME` or the
/// home directory; nothing is stated of its result.
#[verifier::external_body]
fn cache_dir() -> (r: Option<String>) {
    match dirs::cache_dir() {
        Some(p) => Some(p.to_string_lossy().into_owned()),
        None => None,
    }
}

/// Where log files go: `flamingo` in `<home>/.cache`, else in the cache
/// directory, else in the temporary directory.
pub open spec fn spec_log_dir(home: Option<Seq<char>>, cache: Option<Seq<char>>, temp: Seq<char>) -> Seq<char> {
    let base = match home {
        Some(h) => spec_path_join(h, ".cache"@),
        None => match cache {
            Some(c) => c,
            None => temp,
        },
    };
    spec_path_join(base, "flamingo"@)
}

/// The log directory for the home directory and cache directory found, with
/// `temp_dir` as the last resort.
pub fn log_dir_from(home: Option<&str>, cache: Option<&str>, temp_dir: &str) -> (r: String)
    ensures
        r@ == spec_log_dir(crate::path::str_opt_view(home), crate::path::str_opt_view(cache), temp_dir@),
{
    let base = match home {
        Some(h) => join_path(h, ".cache"),
        None => match cache {
            Some(c) => c.to_string(),
            None => temp_dir.to_string(),
        },
    };
    join_path(base.as_str(), "flamingo")
}

/// The default log directory, with the home and cache directories that `dirs` finds.
pub fn default_log_dir(temp_dir: &str) -> (r: String)
    ensures
        exists|home: Option<Seq<char>>, cache: Option<Seq<char>>|
            r@ == #[trigger] spec_log_dir(home, cache, temp_dir@),
{
    let home = home_dir();
    let r = match &home {
        Some(h) => log_dir_from(Some(h.as_str()), None, temp_dir),
        None => {
            let cache = cache_dir();
            let r = match &cache {
                Some(c) => log_dir_from(None, Some(c.as_str()), temp_dir),
                None => log_dir_from(None, None, temp_dir),
            };
            let ghost c = match cache {
                Some(c) => Some(c@),
                None => None::<Seq<char>>,
            };
            assert(r@ == spec_log_dir(None, c, temp_dir@));
            r
        },
    };
    proof {
        if home is Some {
            assert(r@ == spec_log_dir(Some(home->0@), None, temp_dir@));
        }
    }
    r
}

/// The session a log file belongs to: the session key from the environment
/// when it is set and not empty, else the parent process id.
pub open spec fn spec_session_id(env_key: Option<Seq<char>>, parent_id: u32) -> Seq<char> {
    match env_key {
        Some(k) => if k.len() > 0 { k } else { decimal(parent_id as nat) },
        None => decimal(parent_id as nat),
    }
}

/// The session identifier for grouping log files.
pub fn session_id(env_key: Option<&str>, parent_id: u32) -> (r: String)
    ensures
        r@ == spec_session_id(crate::path::str_opt_view(env_key), parent_id),
{
    match env_key {
        Some(k) => {
            if !k.is_empty() {
                return k.to_string();
            }
        },
        None => {},
    }
    string_of(&decimal_of(parent_id as usize))
}

/// The session's log file: `session_<id>.log` in the configured log directory
/// (else `default_dir`), with the configured session key (else `session`).
pub open spec fn spec_session_log_file(config: ProcessConfig, default_dir: Seq<char>, session: Seq<char>) -> Seq<char> {
    let dir = match config.log_dir {
        Some(d) => d@,
        None => default_dir,
    };
    let id = match config.session_key {
        Some(k) => k@,
        None => session,
    };
    spec_path_join(dir, "session_"@ + id + ".log"@)
}

/// The path of the session's log file.
pub fn session_log_file(config: &ProcessConfig, default_dir: &str, session: &str) -> (r: String)
    ensures
        r@ == spec_session_log_file(*config, default_dir@, session@),
{
    let dir = match &config.log_dir {
        Some(d) => d.as_str(),
        None => default_dir,
    };
    let id = match &config.session_key {
        Some(k) => k.as_str(),
        None => session,
    };
    let mut name = chars_of("session_");
    append_chars(&mut name, &chars_of(id));
    append_chars(&mut name, &chars_of(".log"));
    let name = string_of(&name);
    join_path(dir, name.as_str())
}

} // verus!
