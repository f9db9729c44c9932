//! Configuration types of the prompt and their default values.
use vstd::prelude::*;

verus! {

broadcast use vstd::string::group_string_axioms;

/// How the git segment is shown.
#[derive(Debug)]
pub struct GitConfig {
    /// Upper bound on the characters shown of the branch name
    pub max_branch_chars: Option<usize>,
    /// Format template; placeholders: $branch, $dirty, $ahead, $behind, $state, $remote, $stash
    pub format: String,
    /// Symbol definitions
    pub symbols: GitSymbols,
}

/// Symbols used in the git segment.
#[derive(Debug)]
pub struct GitSymbols {
    pub remote: String,
    pub ahead: String,
    pub behind: String,
    pub clean: String,
    pub dirty: String,
    pub stash: String,
    pub merging: String,
    pub rebasing: String,
    pub cherry_picking: String,
    pub reverting: String,
    pub bisecting: String,
    pub detached_head: String,
}

/// How the working directory is shown.
#[derive(Debug)]
pub struct PathConfig {
    /// Defines how the path should be formatted
    pub truncate: TruncateStrategy,
    /// If true, replaces $HOME with "~"
    pub shorten_home: bool,
}

/// The ways a path can be shortened.
#[derive(Debug)]
pub enum TruncateStrategy {
    /// Show the entire path
    Full,
    /// Shorten the leading directories to `dir_chars` characters, keeping the
    /// last `tail_size` components whole: `~/path/to/my/files -> ~/p/t/m/files`
    Smart { tail_size: usize, dir_chars: usize },
    /// Only show the last `size` components: `~/path/to/my/files -> my/files`
    Tail { size: usize },
    /// Fit the path under `max` characters, replacing what was dropped with `symbol`.
    /// `Left` keeps the tail of the path, `Right` keeps its head and its last component.
    Length { max: usize, start_side: Side, symbol: String },
    /// `short` for paths of at most `threshold` characters, `long` for longer ones
    Adaptive { threshold: usize, short: Box<TruncateStrategy>, long: Box<TruncateStrategy> },
}

/// The side at which `TruncateStrategy::Length` starts dropping components.
#[derive(Debug, PartialEq, Eq, Structural, Clone, Copy)]
pub enum Side {
    Left,
    Right,
}

/// Process-wide settings.
#[derive(Debug)]
pub struct ProcessConfig {
    /// Number of threads for parallel operations
    pub num_threads: usize,
    /// Session key override
    pub session_key: Option<String>,
    /// Log level: trace, debug, info, warn, error
    pub min_log_level: String,
    /// Log directory override
    pub log_dir: Option<String>,
}

/// The whole configuration.
#[derive(Debug)]
pub struct FlamingoConfig {
    pub path: PathConfig,
    pub git: GitConfig,
    pub process: ProcessConfig,
}

pub fn default_git_format() -> (r: String)
    ensures
        r@ == "$state $branch ($stash:$dirty:$ahead:$behind)"@,
{
    "$state $branch ($stash:$dirty:$ahead:$behind)".to_string()
}

pub fn default_remote_symbol() -> (r: String)
    ensures
        r@ == ""@,
{
    "".to_string()
}

pub fn default_ahead_symbol() -> (r: String)
    ensures
        r@ == "\u{2191}"@,
{
    "\u{2191}".to_string()
}

pub fn default_behind_symbol() -> (r: String)
    ensures
        r@ == "\u{2193}"@,
{
    "\u{2193}".to_string()
}

pub fn default_clean_symbol() -> (r: String)
    ensures
        r@ == ""@,
{
    "".to_string()
}

pub fn default_dirty_symbol() -> (r: String)
    ensures
        r@ == "*"@,
{
    "*".to_string()
}

pub fn default_stash_symbol() -> (r: String)
    ensures
        r@ == "$"@,
{
    "$".to_string()
}

pub fn default_merging() -> (r: String)
    ensures
        r@ == "MERGE"@,
{
    "MERGE".to_string()
}

pub fn default_rebasing() -> (r: String)
    ensures
        r@ == "REBASE"@,
{
    "REBASE".to_string()
}

pub fn default_cherry_picking() -> (r: String)
    ensures
        r@ == "CHERRY-PICK"@,
{
    "CHERRY-PICK".to_string()
}

pub fn default_reverting() -> (r: String)
    ensures
        r@ == "REVERT"@,
{
    "REVERT".to_string()
}

pub fn default_bisecting() -> (r: String)
    ensures
        r@ == "BISECT"@,
{
    "BISECT".to_string()
}

pub fn default_detached() -> (r: String)
    ensures
        r@ == "DETACHED"@,
{
    "DETACHED".to_string()
}

pub fn default_side() -> (r: Side)
    ensures
        r == Side::Right,
{
    Side::Right
}

pub fn default_min() -> (r: usize)
    ensures
        r == 1,
{
    1
}

pub fn default_symbol() -> (r: String)
    ensures
        r@ == "\u{2026}"@,
{
    "\u{2026}".to_string()
}

pub fn default_log_level() -> (r: String)
    ensures
        r@ == "warn"@,
{
    "warn".to_string()
}

pub fn default_thread_count() -> (r: usize)
    ensures
        r == 8,
{
    8
}

impl GitSymbols {
    /// Whether every symbol has its default value.
    pub open spec fn is_default(self) -> bool {
        &&& self.remote@ == ""@
        &&& self.ahead@ == "\u{2191}"@
        &&& self.behind@ == "\u{2193}"@
        &&& self.clean@ == ""@
        &&& self.dirty@ == "*"@
        &&& self.stash@ == "$"@
        &&& self.merging@ == "MERGE"@
        &&& self.rebasing@ == "REBASE"@
        &&& self.cherry_picking@ == "CHERRY-PICK"@
        &&& self.reverting@ == "REVERT"@
        &&& self.bisecting@ == "BISECT"@
        &&& self.detached_head@ == "DETACHED"@
    }
}

impl Default for GitSymbols {
    fn default() -> (r: Self)
        ensures
            r.is_default(),
    {
        GitSymbols {
            remote: default_remote_symbol(),
            ahead: default_ahead_symbol(),
            behind: default_behind_symbol(),
            clean: default_clean_symbol(),
            dirty: default_dirty_symbol(),
            stash: default_stash_symbol(),
            merging: default_merging(),
            rebasing: default_rebasing(),
            cherry_picking: default_cherry_picking(),
            reverting: default_reverting(),
            bisecting: default_bisecting(),
            detached_head: default_detached(),
        }
    }
}

impl Default for GitConfig {
    fn default() -> (r: Self)
        ensures
            r.max_branch_chars is None,
            r.format@ == "$state $branch ($stash:$dirty:$ahead:$behind)"@,
            r.symbols.is_default(),
    {
        GitConfig {
            max_branch_chars: None,
            format: default_git_format(),
            symbols: GitSymbols::default(),
        }
    }
}

impl Default for PathConfig {
    fn default() -> (r: Self)
        ensures
            r.truncate is Full,
            r.shorten_home,
    {
        PathConfig { truncate: TruncateStrategy::Full, shorten_home: true }
    }
}

impl Default for ProcessConfig {
    fn default() -> (r: Self)
        ensures
            r.num_threads == 8,
            r.session_key is None,
            r.min_log_level@ == "warn"@,
            r.log_dir is None,
    {
        ProcessConfig {
            num_threads: default_thread_count(),
            session_key: None,
            min_log_level: default_log_level(),
            log_dir: None,
        }
    }
}

impl Default for FlamingoConfig {
    fn default() -> (r: Self)
        ensures
            r.path.truncate is Full,
            r.path.shorten_home,
            r.git.max_branch_chars is None,
            r.git.format@ == "$state $branch ($stash:$dirty:$ahead:$behind)"@,
            r.git.symbols.is_default(),
            r.process.num_threads == 8,
            r.process.session_key is None,
            r.process.min_log_level@ == "warn"@,
            r.process.log_dir is None,
    {
        FlamingoConfig {
            path: PathConfig::default(),
            git: GitConfig::default(),
            process: ProcessConfig::default(),
        }
    }
}

impl FlamingoConfig {
    /// Sets the process-wide maximum log level from the process settings and
    /// returns it.
    pub fn setup_logger(&self) -> (r: crate::logger::LogLevel)
        ensures
            r == crate::logger::spec_parse_log_level(self.process.min_log_level@),
    {
        crate::logger::init(&self.process)
    }
}

} // verus!
