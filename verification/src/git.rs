//! The git segment: what the git queries answered, the decisions taken on
//! those answers, and the rendering of the result.
use vstd::prelude::*;
use crate::config::{GitConfig, GitSymbols};
use crate::parse::{
    decimal, decimal_of, lines, lines_of, parse_usize, replace_all, replace_chars,
    spec_parse_usize, spec_utf8_lossy, trim, trim_chars, utf8_lossy, words, words_of,
};
use crate::text::{append_chars, chars_of, string_of, views};

verus! {

broadcast use vstd::string::group_string_axioms;

/// Why no git segment could be produced.
#[derive(Debug)]
pub enum GitError {
    NotARepository,
    CommandFailed(String),
    ParseError(String),
}

/// The view of a `GitError`.
pub enum GitFailure {
    NotARepository,
    CommandFailed(Seq<char>),
    ParseError(Seq<char>),
}

impl GitError {
    pub open spec fn failure(&self) -> GitFailure {
        match self {
            GitError::NotARepository => GitFailure::NotARepository,
            GitError::CommandFailed(m) => GitFailure::CommandFailed(m@),
            GitError::ParseError(m) => GitFailure::ParseError(m@),
        }
    }

    /// The message shown for this error.
    pub fn message(&self) -> (r: String)
        ensures
            r@ == match self.failure() {
                GitFailure::NotARepository => "Not a git repository"@,
                GitFailure::CommandFailed(m) => "Git command failed: "@ + m,
                GitFailure::ParseError(m) => "Failed to parse git output: "@ + m,
            },
    {
        match self {
            GitError::NotARepository => "Not a git repository".to_string(),
            GitError::CommandFailed(m) => {
                let mut r = chars_of("Git command failed: ");
                let mc = chars_of(m.as_str());
                append_chars(&mut r, &mc);
                string_of(&r)
            },
            GitError::ParseError(m) => {
                let mut r = chars_of("Failed to parse git output: ");
                let mc = chars_of(m.as_str());
                append_chars(&mut r, &mc);
                string_of(&r)
            },
        }
    }
}

/// An operation in progress in the repository.
#[derive(Debug, PartialEq, Eq, Structural, Clone, Copy)]
pub enum GitState {
    Clean,
    Merging,
    Rebasing,
    CherryPicking,
    Reverting,
    Bisecting,
}

/// The text that `$state` stands for.
pub open spec fn state_text(s: GitState) -> Seq<char> {
    match s {
        GitState::Clean => ""@,
        GitState::Merging => "MERGING"@,
        GitState::Rebasing => "REBASING"@,
        GitState::CherryPicking => "CHERRY-PICKING"@,
        GitState::Reverting => "REVERTING"@,
        GitState::Bisecting => "BISECTING"@,
    }
}

impl GitState {
    pub fn as_str(&self) -> (r: &'static str)
        ensures
            r@ == state_text(*self),
    {
        match self {
            GitState::Clean => "",
            GitState::Merging => "MERGING",
            GitState::Rebasing => "REBASING",
            GitState::CherryPicking => "CHERRY-PICKING",
            GitState::Reverting => "REVERTING",
            GitState::Bisecting => "BISECTING",
        }
    }
}

/// What is shown of a repository.
#[derive(Debug)]
pub struct GitInfo {
    pub branch: String,
    pub ahead: usize,
    pub behind: usize,
    pub is_dirty: bool,
    pub stash_count: usize,
    pub remote: Option<String>,
    pub state: GitState,
}

/// The configured symbol of an operation in progress (nothing when clean).
pub open spec fn state_symbol(symbols: GitSymbols, s: GitState) -> Seq<char> {
    match s {
        GitState::Clean => Seq::empty(),
        GitState::Merging => symbols.merging@,
        GitState::Rebasing => symbols.rebasing@,
        GitState::CherryPicking => symbols.cherry_picking@,
        GitState::Reverting => symbols.reverting@,
        GitState::Bisecting => symbols.bisecting@,
    }
}

/// The branch name cut to at most `max_branch_chars` characters when that is set.
pub open spec fn shown_branch(branch: Seq<char>, max_branch_chars: Option<usize>) -> Seq<char> {
    match max_branch_chars {
        Some(n) => if branch.len() > n { branch.take(n as int) } else { branch },
        None => branch,
    }
}

/// The format template with its placeholders filled in, one after the other:
/// `$branch` (cut to `max_branch_chars`), `$dirty`, `$ahead`, `$behind`,
/// `$state` (the configured symbol of the state), `$remote`, `$stash` (the
/// configured stash symbol and the count).
pub open spec fn spec_render(
    config: GitConfig,
    branch: Seq<char>,
    ahead: nat,
    behind: nat,
    is_dirty: bool,
    stash_count: nat,
    remote: Option<Seq<char>>,
    state: GitState,
) -> Seq<char> {
    let r1 = replace_all(config.format@, "$branch"@, shown_branch(branch, config.max_branch_chars));
    let r2 = replace_all(r1, "$dirty"@, if is_dirty { config.symbols.dirty@ } else { Seq::empty() });
    let r3 = replace_all(
        r2,
        "$ahead"@,
        if ahead > 0 { config.symbols.ahead@ + decimal(ahead) } else { Seq::empty() },
    );
    let r4 = replace_all(
        r3,
        "$behind"@,
        if behind > 0 { config.symbols.behind@ + decimal(behind) } else { Seq::empty() },
    );
    let r5 = replace_all(r4, "$state"@, state_symbol(config.symbols, state));
    let r6 = replace_all(
        r5,
        "$remote"@,
        match remote {
            Some(name) => name,
            None => Seq::empty(),
        },
    );
    replace_all(
        r6,
        "$stash"@,
        if stash_count > 0 { config.symbols.stash@ + decimal(stash_count) } else { Seq::empty() },
    )
}

/// The name of the remote, if any.
pub open spec fn remote_name(info: GitInfo) -> Option<Seq<char>> {
    match info.remote {
        Some(r) => Some(r@),
        None => None,
    }
}

pub open spec fn spec_format_git_info(info: GitInfo, config: GitConfig) -> Seq<char> {
    spec_render(
        config,
        info.branch@,
        info.ahead as nat,
        info.behind as nat,
        info.is_dirty,
        info.stash_count as nat,
        remote_name(info),
        info.state,
    )
}

fn replace_in(text: &Vec<char>, pat: &str, rep: &Vec<char>) -> (r: Vec<char>)
    ensures
        r@ == replace_all(text@, pat@, rep@),
{
    let p = chars_of(pat);
    replace_chars(text, &p, rep)
}

fn counter_text(symbol: &Vec<char>, n: usize) -> (r: Vec<char>)
    ensures
        r@ == if n > 0 { symbol@ + decimal(n as nat) } else { Seq::empty() },
{
    if n > 0 {
        let mut r = symbol.clone();
        assert(r@ =~= symbol@);
        let d = decimal_of(n);
        append_chars(&mut r, &d);
        r
    } else {
        Vec::new()
    }
}

fn state_symbol_of(symbols: &GitSymbols, s: GitState) -> (r: Vec<char>)
    ensures
        r@ == state_symbol(*symbols, s),
{
    match s {
        GitState::Clean => Vec::new(),
        GitState::Merging => chars_of(symbols.merging.as_str()),
        GitState::Rebasing => chars_of(symbols.rebasing.as_str()),
        GitState::CherryPicking => chars_of(symbols.cherry_picking.as_str()),
        GitState::Reverting => chars_of(symbols.reverting.as_str()),
        GitState::Bisecting => chars_of(symbols.bisecting.as_str()),
    }
}

fn shown_branch_of(branch: &String, max_branch_chars: Option<usize>) -> (r: Vec<char>)
    ensures
        r@ == shown_branch(branch@, max_branch_chars),
{
    let b = chars_of(branch.as_str());
    match max_branch_chars {
        Some(n) => {
            if b.len() > n {
                let mut r: Vec<char> = Vec::new();
                let mut i: usize = 0;
                while i < n
                    invariant
                        i <= n < b.len(),
                        r@ == b@.take(i as int),
                    decreases n - i,
                {
                    r.push(b[i]);
                    i = i + 1;
                    assert(r@ =~= b@.take(i as int));
                }
                r
            } else {
                b
            }
        },
        None => b,
    }
}

/// Fills in the placeholders of the configured format.
pub fn format_git_info(git_info: &GitInfo, config: &GitConfig) -> (r: String)
    ensures
        r@ == spec_format_git_info(*git_info, *config),
        config.format@ == "$ahead"@ && !config.symbols.ahead@.contains('$') ==> (r@.len() == 0 <==> git_info.ahead == 0),
{
    proof {
        if config.format@ == "$ahead"@ && !config.symbols.ahead@.contains('$') {
            lemma_ahead_indicator(
                *config,
                git_info.branch@,
                git_info.ahead as nat,
                git_info.behind as nat,
                git_info.is_dirty,
                git_info.stash_count as nat,
                remote_name(*git_info),
                git_info.state,
            );
        }
    }
    proof {
        reveal_strlit("$branch");
        reveal_strlit("$dirty");
        reveal_strlit("$ahead");
        reveal_strlit("$behind");
        reveal_strlit("$state");
        reveal_strlit("$remote");
        reveal_strlit("$stash");
    }
    let text = chars_of(config.format.as_str());
    let branch = shown_branch_of(&git_info.branch, config.max_branch_chars);
    let text = replace_in(&text, "$branch", &branch);
    let dirty = if git_info.is_dirty { chars_of(config.symbols.dirty.as_str()) } else { Vec::new() };
    let text = replace_in(&text, "$dirty", &dirty);
    let ahead = counter_text(&chars_of(config.symbols.ahead.as_str()), git_info.ahead);
    let text = replace_in(&text, "$ahead", &ahead);
    let behind = counter_text(&chars_of(config.symbols.behind.as_str()), git_info.behind);
    let text = replace_in(&text, "$behind", &behind);
    let state = state_symbol_of(&config.symbols, git_info.state);
    let text = replace_in(&text, "$state", &state);
    let remote = match &git_info.remote {
        Some(name) => chars_of(name.as_str()),
        None => Vec::new(),
    };
    let text = replace_in(&text, "$remote", &remote);
    let stash = counter_text(&chars_of(config.symbols.stash.as_str()), git_info.stash_count);
    let text = replace_in(&text, "$stash", &stash);
    string_of(&text)
}

/// What a finished git command reported.
#[derive(Debug)]
pub struct CommandOutput {
    pub success: bool,
    pub stdout: Vec<u8>,
}

/// The questions asked about a repository, in the order they are asked.
#[derive(Debug, PartialEq, Eq, Structural, Clone, Copy)]
pub enum GitQuery {
    /// `git rev-parse --is-inside-work-tree`
    InsideWorkTree,
    /// `git branch --show-current`
    CurrentBranch,
    /// `git rev-parse --short HEAD`
    ShortHead,
    /// `git rev-list --left-right --count HEAD...@{upstream}`
    AheadBehind,
    /// `git status --porcelain`
    Status,
    /// `git stash list`
    StashList,
    /// `git remote`
    Remotes,
    /// which of the in-progress markers exist in `.git`
    StateMarkers,
}

/// Which in-progress markers exist in the `.git` directory.
#[derive(Debug, Clone, Copy)]
pub struct StateMarkers {
    pub merge_head: bool,
    pub rebase_head: bool,
    pub rebase_apply: bool,
    pub rebase_merge: bool,
    pub cherry_pick_head: bool,
    pub revert_head: bool,
    pub bisect_log: bool,
}

/// The answers received so far; a command that could not be run is an `Err`
/// with the reason.
#[derive(Debug)]
pub struct GitReadings {
    pub inside_work_tree: Option<Result<CommandOutput, String>>,
    pub current_branch: Option<Result<CommandOutput, String>>,
    pub short_head: Option<Result<CommandOutput, String>>,
    pub ahead_behind: Option<Result<CommandOutput, String>>,
    pub status: Option<Result<CommandOutput, String>>,
    pub stash_list: Option<Result<CommandOutput, String>>,
    pub remotes: Option<Result<CommandOutput, String>>,
    pub state_markers: Option<StateMarkers>,
}

/// What to do next.
#[derive(Debug)]
pub enum GitAction {
    /// Answer this query and record the answer.
    Run(GitQuery),
    /// The segment, or why there is none.
    Done(Result<String, GitError>),
}

/// The view of a `GitAction`.
pub enum GitStep {
    Run(GitQuery),
    Done(Result<Seq<char>, GitFailure>),
}

impl GitAction {
    pub open spec fn step(&self) -> GitStep {
        match self {
            GitAction::Run(q) => GitStep::Run(*q),
            GitAction::Done(Ok(s)) => GitStep::Done(Ok(s@)),
            GitAction::Done(Err(e)) => GitStep::Done(Err(e.failure())),
        }
    }
}

/// The standard output of a command, decoded.
pub open spec fn output_text(o: CommandOutput) -> Seq<char> {
    spec_utf8_lossy(o.stdout@)
}

pub open spec fn parsed_count(p: Option<usize>) -> nat {
    match p {
        Some(n) => n as nat,
        None => 0,
    }
}

/// Commits ahead of and behind the upstream: the two counts of the output, or
/// zero where there is no upstream, the output is not two words, or a word is
/// not a number.
pub open spec fn parsed_ahead_behind(o: CommandOutput) -> (nat, nat) {
    if !o.success {
        (0, 0)
    } else {
        let parts = words(trim(output_text(o)));
        if parts.len() != 2 {
            (0, 0)
        } else {
            (parsed_count(spec_parse_usize(parts[0])), parsed_count(spec_parse_usize(parts[1])))
        }
    }
}

/// The working directory has uncommitted changes.
pub open spec fn parsed_dirty(o: CommandOutput) -> bool {
    o.success && o.stdout@.len() > 0
}

/// The number of stash entries: one per output line.
pub open spec fn parsed_stash_count(o: CommandOutput) -> nat {
    if o.success {
        lines(output_text(o)).len()
    } else {
        0
    }
}

/// The first remote listed.
pub open spec fn parsed_remote(o: CommandOutput) -> Option<Seq<char>> {
    if o.success && lines(output_text(o)).len() > 0 {
        Some(lines(output_text(o))[0])
    } else {
        None
    }
}

/// The operation in progress, the first found of: merge, rebase, cherry-pick,
/// revert, bisect.
pub open spec fn state_from_markers(m: StateMarkers) -> GitState {
    if m.merge_head {
        GitState::Merging
    } else if m.rebase_head || m.rebase_apply || m.rebase_merge {
        GitState::Rebasing
    } else if m.cherry_pick_head {
        GitState::CherryPicking
    } else if m.revert_head {
        GitState::Reverting
    } else if m.bisect_log {
        GitState::Bisecting
    } else {
        GitState::Clean
    }
}

/// The decisions after the branch is known: each remaining query is asked in
/// turn, a command that could not be run ends with `CommandFailed`, and the
/// answers are rendered once all are in.
pub open spec fn spec_git_after_branch(config: GitConfig, r: GitReadings, branch: Seq<char>) -> GitStep {
    match r.ahead_behind {
        None => GitStep::Run(GitQuery::AheadBehind),
        Some(Err(m)) => GitStep::Done(Err(GitFailure::CommandFailed(m@))),
        Some(Ok(ab)) => match r.status {
            None => GitStep::Run(GitQuery::Status),
            Some(Err(m)) => GitStep::Done(Err(GitFailure::CommandFailed(m@))),
            Some(Ok(st)) => match r.stash_list {
                None => GitStep::Run(GitQuery::StashList),
                Some(Err(m)) => GitStep::Done(Err(GitFailure::CommandFailed(m@))),
                Some(Ok(sl)) => match r.remotes {
                    None => GitStep::Run(GitQuery::Remotes),
                    Some(Err(m)) => GitStep::Done(Err(GitFailure::CommandFailed(m@))),
                    Some(Ok(rm)) => match r.state_markers {
                        None => GitStep::Run(GitQuery::StateMarkers),
                        Some(mk) => GitStep::Done(
                            Ok(
                                spec_render(
                                    config,
                                    branch,
                                    parsed_ahead_behind(ab).0,
                                    parsed_ahead_behind(ab).1,
                                    parsed_dirty(st),
                                    parsed_stash_count(sl),
                                    parsed_remote(rm),
                                    state_from_markers(mk),
                                ),
                            ),
                        ),
                    },
                },
            },
        },
    }
}

/// The next step of producing the git segment from the answers in `r`: the
/// first query still needed and not yet answered, or the outcome. Outside a
/// work tree, or with no branch and no commit, the outcome is `NotARepository`;
/// with no current branch the short commit hash is shown as `HEAD@<hash>`.
pub open spec fn spec_git(config: GitConfig, r: GitReadings) -> GitStep {
    match r.inside_work_tree {
        None => GitStep::Run(GitQuery::InsideWorkTree),
        Some(Err(m)) => GitStep::Done(Err(GitFailure::CommandFailed(m@))),
        Some(Ok(o)) => if !o.success {
            GitStep::Done(Err(GitFailure::NotARepository))
        } else {
            match r.current_branch {
                None => GitStep::Run(GitQuery::CurrentBranch),
                Some(Err(m)) => GitStep::Done(Err(GitFailure::CommandFailed(m@))),
                Some(Ok(b)) => if !b.success {
                    GitStep::Done(Err(GitFailure::NotARepository))
                } else if trim(output_text(b)).len() > 0 {
                    spec_git_after_branch(config, r, trim(output_text(b)))
                } else {
                    match r.short_head {
                        None => GitStep::Run(GitQuery::ShortHead),
                        Some(Err(m)) => GitStep::Done(Err(GitFailure::CommandFailed(m@))),
                        Some(Ok(h)) => if !h.success {
                            GitStep::Done(Err(GitFailure::NotARepository))
                        } else {
                            spec_git_after_branch(config, r, "HEAD@"@ + trim(output_text(h)))
                        },
                    }
                },
            }
        },
    }
}

fn output_chars(o: &CommandOutput) -> (r: Vec<char>)
    ensures
        r@ == output_text(*o),
{
    let s = utf8_lossy(o.stdout.as_slice());
    chars_of(s.as_str())
}

fn count_or_zero(p: Option<usize>) -> (n: usize)
    ensures
        n == parsed_count(p),
{
    match p {
        Some(n) => n,
        None => 0,
    }
}

/// Commits ahead of and behind the upstream (`git rev-list --left-right --count`).
pub fn ahead_behind_of(o: &CommandOutput) -> (r: (usize, usize))
    ensures
        r.0 == parsed_ahead_behind(*o).0,
        r.1 == parsed_ahead_behind(*o).1,
{
    if !o.success {
        return (0, 0);
    }
    let text = output_chars(o);
    let t = trim_chars(&text);
    let parts = words_of(&t);
    if parts.len() != 2 {
        return (0, 0);
    }
    assert(views(parts@)[0] == parts@[0]@);
    assert(views(parts@)[1] == parts@[1]@);
    (count_or_zero(parse_usize(&parts[0])), count_or_zero(parse_usize(&parts[1])))
}

/// Whether `git status --porcelain` listed anything.
pub fn dirty_of(o: &CommandOutput) -> (r: bool)
    ensures
        r == parsed_dirty(*o),
        r <==> (o.success && o.stdout@.len() > 0),
{
    o.success && o.stdout.len() > 0
}

/// The number of stash entries (`git stash list`).
pub fn stash_count_of(o: &CommandOutput) -> (r: usize)
    ensures
        r == parsed_stash_count(*o),
{
    if !o.success {
        return 0;
    }
    let text = output_chars(o);
    let ls = lines_of(&text);
    ls.len()
}

/// The first remote (`git remote`).
pub fn remote_of(o: &CommandOutput) -> (r: Option<String>)
    ensures
        match r {
            Some(name) => parsed_remote(*o) == Some(name@),
            None => parsed_remote(*o) is None,
        },
{
    if !o.success {
        return None;
    }
    let text = output_chars(o);
    let ls = lines_of(&text);
    if ls.len() > 0 {
        assert(views(ls@)[0] == ls@[0]@);
        Some(string_of(&ls[0]))
    } else {
        None
    }
}

/// The operation in progress according to the markers.
pub fn state_of(m: &StateMarkers) -> (r: GitState)
    ensures
        r == state_from_markers(*m),
{
    if m.merge_head {
        GitState::Merging
    } else if m.rebase_head || m.rebase_apply || m.rebase_merge {
        GitState::Rebasing
    } else if m.cherry_pick_head {
        GitState::CherryPicking
    } else if m.revert_head {
        GitState::Reverting
    } else if m.bisect_log {
        GitState::Bisecting
    } else {
        GitState::Clean
    }
}

fn failed(m: &String) -> (r: GitAction)
    ensures
        r.step() == GitStep::Done(Err(GitFailure::CommandFailed(m@))),
{
    GitAction::Done(Err(GitError::CommandFailed(m.clone())))
}

fn git_after_branch(config: &GitConfig, r: &GitReadings, branch: String) -> (a: GitAction)
    ensures
        a.step() == spec_git_after_branch(*config, *r, branch@),
{
    let ab = match &r.ahead_behind {
        None => { return GitAction::Run(GitQuery::AheadBehind); },
        Some(Err(m)) => { return failed(m); },
        Some(Ok(o)) => ahead_behind_of(o),
    };
    let is_dirty = match &r.status {
        None => { return GitAction::Run(GitQuery::Status); },
        Some(Err(m)) => { return failed(m); },
        Some(Ok(o)) => dirty_of(o),
    };
    let stash_count = match &r.stash_list {
        None => { return GitAction::Run(GitQuery::StashList); },
        Some(Err(m)) => { return failed(m); },
        Some(Ok(o)) => stash_count_of(o),
    };
    let remote = match &r.remotes {
        None => { return GitAction::Run(GitQuery::Remotes); },
        Some(Err(m)) => { return failed(m); },
        Some(Ok(o)) => remote_of(o),
    };
    let state = match &r.state_markers {
        None => { return GitAction::Run(GitQuery::StateMarkers); },
        Some(m) => state_of(m),
    };
    let info = GitInfo { branch, ahead: ab.0, behind: ab.1, is_dirty, stash_count, remote, state };
    let text = format_git_info(&info, config);
    GitAction::Done(Ok(text))
}

/// The next step of producing the git segment from the answers received so
/// far (see `spec_git`): the caller runs the query asked for, records its
/// answer in `readings`, and asks again until the segment is done.
pub fn git(config: &GitConfig, readings: &GitReadings) -> (a: GitAction)
    ensures
        a.step() == spec_git(*config, *readings),
{
    match &readings.inside_work_tree {
        None => GitAction::Run(GitQuery::InsideWorkTree),
        Some(Err(m)) => failed(m),
        Some(Ok(o)) => {
            if !o.success {
                return GitAction::Done(Err(GitError::NotARepository));
            }
            match &readings.current_branch {
                None => GitAction::Run(GitQuery::CurrentBranch),
                Some(Err(m)) => failed(m),
                Some(Ok(b)) => {
                    if !b.success {
                        return GitAction::Done(Err(GitError::NotARepository));
                    }
                    let branch = trim_chars(&output_chars(b));
                    if branch.len() > 0 {
                        return git_after_branch(config, readings, string_of(&branch));
                    }
                    match &readings.short_head {
                        None => GitAction::Run(GitQuery::ShortHead),
                        Some(Err(m)) => failed(m),
                        Some(Ok(h)) => {
                            if !h.success {
                                return GitAction::Done(Err(GitError::NotARepository));
                            }
                            let mut name = chars_of("HEAD@");
                            let commit = trim_chars(&output_chars(h));
                            append_chars(&mut name, &commit);
                            git_after_branch(config, readings, string_of(&name))
                        },
                    }
                },
            }
        },
    }
}

impl GitReadings {
    /// Whether the answer to `q` has been recorded.
    pub open spec fn answered(self, q: GitQuery) -> bool {
        match q {
            GitQuery::InsideWorkTree => self.inside_work_tree is Some,
            GitQuery::CurrentBranch => self.current_branch is Some,
            GitQuery::ShortHead => self.short_head is Some,
            GitQuery::AheadBehind => self.ahead_behind is Some,
            GitQuery::Status => self.status is Some,
            GitQuery::StashList => self.stash_list is Some,
            GitQuery::Remotes => self.remotes is Some,
            GitQuery::StateMarkers => self.state_markers is Some,
        }
    }

    /// How many queries have been answered.
    pub open spec fn answered_count(self) -> nat {
        (if self.inside_work_tree is Some { 1nat } else { 0 }) + (if self.current_branch is Some {
            1nat
        } else {
            0
        }) + (if self.short_head is Some { 1nat } else { 0 }) + (if self.ahead_behind is Some {
            1nat
        } else {
            0
        }) + (if self.status is Some { 1nat } else { 0 }) + (if self.stash_list is Some {
            1nat
        } else {
            0
        }) + (if self.remotes is Some { 1nat } else { 0 }) + (if self.state_markers is Some {
            1nat
        } else {
            0
        })
    }

    /// These readings with the answer of a command recorded for `q`.
    pub open spec fn with_output(self, q: GitQuery, answer: Result<CommandOutput, String>) -> GitReadings {
        match q {
            GitQuery::InsideWorkTree => GitReadings { inside_work_tree: Some(answer), ..self },
            GitQuery::CurrentBranch => GitReadings { current_branch: Some(answer), ..self },
            GitQuery::ShortHead => GitReadings { short_head: Some(answer), ..self },
            GitQuery::AheadBehind => GitReadings { ahead_behind: Some(answer), ..self },
            GitQuery::Status => GitReadings { status: Some(answer), ..self },
            GitQuery::StashList => GitReadings { stash_list: Some(answer), ..self },
            GitQuery::Remotes => GitReadings { remotes: Some(answer), ..self },
            GitQuery::StateMarkers => self,
        }
    }

    /// No query answered yet.
    pub fn new() -> (r: Self)
        ensures
            r.answered_count() == 0,
    {
        GitReadings {
            inside_work_tree: None,
            current_branch: None,
            short_head: None,
            ahead_behind: None,
            status: None,
            stash_list: None,
            remotes: None,
            state_markers: None,
        }
    }

    /// Records what the command for `query` reported (or why it could not run).
    pub fn record_output(&mut self, query: GitQuery, answer: Result<CommandOutput, String>)
        ensures
            *final(self) == old(self).with_output(query, answer),
    {
        match query {
            GitQuery::InsideWorkTree => { self.inside_work_tree = Some(answer); },
            GitQuery::CurrentBranch => { self.current_branch = Some(answer); },
            GitQuery::ShortHead => { self.short_head = Some(answer); },
            GitQuery::AheadBehind => { self.ahead_behind = Some(answer); },
            GitQuery::Status => { self.status = Some(answer); },
            GitQuery::StashList => { self.stash_list = Some(answer); },
            GitQuery::Remotes => { self.remotes = Some(answer); },
            GitQuery::StateMarkers => {},
        }
    }

    /// Records which in-progress markers exist.
    pub fn record_markers(&mut self, markers: StateMarkers)
        ensures
            *final(self) == (GitReadings { state_markers: Some(markers), ..*old(self) }),
    {
        self.state_markers = Some(markers);
    }
}

/// Only unanswered queries are asked for.
pub proof fn lemma_git_asks_unanswered(config: GitConfig, r: GitReadings)
    ensures
        spec_git(config, r) matches GitStep::Run(q) ==> !r.answered(q),
{
}

/// Recording the answer asked for adds one answer; since there are eight
/// queries, at most eight rounds pass before the segment is done.
pub proof fn lemma_git_progress(config: GitConfig, r: GitReadings, answer: Result<CommandOutput, String>, markers: StateMarkers)
    ensures
        r.answered_count() <= 8,
        spec_git(config, r) matches GitStep::Run(q) ==> {
            &&& q != GitQuery::StateMarkers ==> r.with_output(q, answer).answered_count() == r.answered_count() + 1
            &&& q == GitQuery::StateMarkers ==> (GitReadings { state_markers: Some(markers), ..r }).answered_count() == r.answered_count() + 1
        },
{
}

/// Outside a work tree the outcome is `NotARepository`, whatever else was answered.
pub proof fn lemma_git_outside_work_tree(config: GitConfig, r: GitReadings)
    requires
        r.inside_work_tree matches Some(Ok(o)) && !o.success,
    ensures
        spec_git(config, r) == GitStep::Done(Err(GitFailure::NotARepository)),
{
}

/// The working tree is reported dirty exactly when `git status --porcelain`
/// succeeded and printed something.
pub proof fn lemma_dirty_exactly_when_listed(o: CommandOutput)
    ensures
        parsed_dirty(o) <==> (o.success && o.stdout@.len() > 0),
{
}

/// A placeholder `pat` that is not at the start of `s`, in a text `s` whose only
/// `$` is its first character, leaves `s` as it is.
proof fn lemma_replace_other_placeholder(s: Seq<char>, pat: Seq<char>, rep: Seq<char>)
    requires
        s.len() > 0,
        pat.len() > 0,
        pat[0] == '$',
        !s.drop_first().contains('$'),
        !(pat.len() <= s.len() && s.take(pat.len() as int) == pat),
    ensures
        replace_all(s, pat, rep) == s,
{
    crate::parse::lemma_replace_absent(s.drop_first(), pat, rep);
    assert(seq![s[0]] + s.drop_first() =~= s);
}

/// Text without `$` holds no placeholder: every replacement leaves it as it is.
proof fn lemma_no_placeholder(s: Seq<char>, pat: Seq<char>, rep: Seq<char>)
    requires
        pat.len() > 0,
        pat[0] == '$',
        !s.contains('$'),
    ensures
        replace_all(s, pat, rep) == s,
{
    crate::parse::lemma_replace_absent(s, pat, rep);
}

/// A counter's text (its symbol and the count, or nothing for zero) holds no
/// `$` when its symbol holds none.
proof fn lemma_counter_has_no_placeholder(symbol: Seq<char>, n: nat)
    requires
        !symbol.contains('$'),
    ensures
        !(if n > 0 { symbol + decimal(n) } else { Seq::<char>::empty() }).contains('$'),
{
    if n > 0 {
        crate::parse::lemma_decimal_digits(n);
        let d = decimal(n);
        let t = symbol + d;
        if t.contains('$') {
            let i = choose|i: int| 0 <= i < t.len() && t[i] == '$';
            if i >= symbol.len() {
                assert(d[i - symbol.len()] == t[i]);
            } else {
                assert(symbol[i] == t[i]);
            }
        }
    } else {
        assert(!Seq::<char>::empty().contains('$'));
    }
}

/// With the format `$ahead`, the ahead indicator is shown exactly when
/// the branch is ahead of its upstream: the format renders to nothing when it
/// is not, and to the ahead symbol followed by the count when it is.
pub proof fn lemma_ahead_indicator(
    config: GitConfig,
    branch: Seq<char>,
    ahead: nat,
    behind: nat,
    is_dirty: bool,
    stash_count: nat,
    remote: Option<Seq<char>>,
    state: GitState,
)
    requires
        config.format@ == "$ahead"@,
        !config.symbols.ahead@.contains('$'),
    ensures
        ahead == 0 ==> spec_render(config, branch, ahead, behind, is_dirty, stash_count, remote, state) == Seq::<char>::empty(),
        ahead > 0 ==> spec_render(config, branch, ahead, behind, is_dirty, stash_count, remote, state) == config.symbols.ahead@ + decimal(ahead),
        spec_render(config, branch, ahead, behind, is_dirty, stash_count, remote, state).len() == 0 <==> ahead == 0,
{
    reveal_strlit("$branch");
    reveal_strlit("$dirty");
    reveal_strlit("$ahead");
    reveal_strlit("$behind");
    reveal_strlit("$state");
    reveal_strlit("$remote");
    reveal_strlit("$stash");
    let f = config.format@;
    assert(f =~= seq!['$', 'a', 'h', 'e', 'a', 'd']);
    assert(f.drop_first() =~= seq!['a', 'h', 'e', 'a', 'd']);
    lemma_replace_other_placeholder(f, "$branch"@, shown_branch(branch, config.max_branch_chars));
    assert(f.take(6) != "$dirty"@) by { assert(f.take(6)[1] != "$dirty"@[1]); }
    lemma_replace_other_placeholder(f, "$dirty"@, if is_dirty { config.symbols.dirty@ } else { Seq::<char>::empty() });
    let t = if ahead > 0 { config.symbols.ahead@ + decimal(ahead) } else { Seq::<char>::empty() };
    assert(f.take(6) == "$ahead"@);
    assert(f.skip(6) =~= Seq::<char>::empty());
    assert(replace_all(Seq::<char>::empty(), "$ahead"@, t) == Seq::<char>::empty());
    assert(t + Seq::<char>::empty() =~= t);
    assert(replace_all(f, "$ahead"@, t) == t);
    lemma_counter_has_no_placeholder(config.symbols.ahead@, ahead);
    lemma_no_placeholder(t, "$behind"@, if behind > 0 { config.symbols.behind@ + decimal(behind) } else { Seq::<char>::empty() });
    lemma_no_placeholder(t, "$state"@, state_symbol(config.symbols, state));
    lemma_no_placeholder(t, "$remote"@, match remote { Some(name) => name, None => Seq::<char>::empty() });
    lemma_no_placeholder(t, "$stash"@, if stash_count > 0 { config.symbols.stash@ + decimal(stash_count) } else { Seq::<char>::empty() });

    if ahead > 0 {
        crate::parse::lemma_decimal_digits(ahead);
    }
}

/// With the format `$behind`, the behind indicator is shown exactly when
/// the branch is behind its upstream: nothing when it is not, the behind symbol
/// followed by the count when it is.
pub proof fn lemma_behind_indicator(
    config: GitConfig,
    branch: Seq<char>,
    ahead: nat,
    behind: nat,
    is_dirty: bool,
    stash_count: nat,
    remote: Option<Seq<char>>,
    state: GitState,
)
    requires
        config.format@ == "$behind"@,
        !config.symbols.behind@.contains('$'),
    ensures
        behind == 0 ==> spec_render(config, branch, ahead, behind, is_dirty, stash_count, remote, state) == Seq::<char>::empty(),
        behind > 0 ==> spec_render(config, branch, ahead, behind, is_dirty, stash_count, remote, state) == config.symbols.behind@ + decimal(behind),
        spec_render(config, branch, ahead, behind, is_dirty, stash_count, remote, state).len() == 0 <==> behind == 0,
{
    reveal_strlit("$branch");
    reveal_strlit("$dirty");
    reveal_strlit("$ahead");
    reveal_strlit("$behind");
    reveal_strlit("$state");
    reveal_strlit("$remote");
    reveal_strlit("$stash");
    let f = config.format@;
    assert(f =~= seq!['$', 'b', 'e', 'h', 'i', 'n', 'd']);
    assert(f.drop_first() =~= seq!['b', 'e', 'h', 'i', 'n', 'd']);
    assert(f.take(7) != "$branch"@) by { assert(f.take(7)[2] != "$branch"@[2]); }
    lemma_replace_other_placeholder(f, "$branch"@, shown_branch(branch, config.max_branch_chars));
    assert(f.take(6) != "$dirty"@) by { assert(f.take(6)[1] != "$dirty"@[1]); }
    lemma_replace_other_placeholder(f, "$dirty"@, if is_dirty { config.symbols.dirty@ } else { Seq::<char>::empty() });
    assert(f.take(6) != "$ahead"@) by { assert(f.take(6)[1] != "$ahead"@[1]); }
    lemma_replace_other_placeholder(f, "$ahead"@, if ahead > 0 { config.symbols.ahead@ + decimal(ahead) } else { Seq::<char>::empty() });
    let t = if behind > 0 { config.symbols.behind@ + decimal(behind) } else { Seq::<char>::empty() };
    assert(f.take(7) == "$behind"@);
    assert(f.skip(7) =~= Seq::<char>::empty());
    assert(replace_all(Seq::<char>::empty(), "$behind"@, t) == Seq::<char>::empty());
    assert(t + Seq::<char>::empty() =~= t);
    assert(replace_all(f, "$behind"@, t) == t);
    lemma_counter_has_no_placeholder(config.symbols.behind@, behind);
    lemma_no_placeholder(t, "$state"@, state_symbol(config.symbols, state));
    lemma_no_placeholder(t, "$remote"@, match remote { Some(name) => name, None => Seq::<char>::empty() });
    lemma_no_placeholder(t, "$stash"@, if stash_count > 0 { config.symbols.stash@ + decimal(stash_count) } else { Seq::<char>::empty() });

    if behind > 0 {
        crate::parse::lemma_decimal_digits(behind);
    }
}

/// With the format `$stash`, the stash indicator is shown exactly when
/// there are stash entries: nothing when there are none, the stash symbol
/// followed by the count when there are.
pub proof fn lemma_stash_indicator(
    config: GitConfig,
    branch: Seq<char>,
    ahead: nat,
    behind: nat,
    is_dirty: bool,
    stash_count: nat,
    remote: Option<Seq<char>>,
    state: GitState,
)
    requires
        config.format@ == "$stash"@,
        !config.symbols.stash@.contains('$'),
    ensures
        stash_count == 0 ==> spec_render(config, branch, ahead, behind, is_dirty, stash_count, remote, state) == Seq::<char>::empty(),
        stash_count > 0 ==> spec_render(config, branch, ahead, behind, is_dirty, stash_count, remote, state) == config.symbols.stash@ + decimal(stash_count),
        spec_render(config, branch, ahead, behind, is_dirty, stash_count, remote, state).len() == 0 <==> stash_count == 0,
{
    reveal_strlit("$branch");
    reveal_strlit("$dirty");
    reveal_strlit("$ahead");
    reveal_strlit("$behind");
    reveal_strlit("$state");
    reveal_strlit("$remote");
    reveal_strlit("$stash");
    let f = config.format@;
    assert(f =~= seq!['$', 's', 't', 'a', 's', 'h']);
    assert(f.drop_first() =~= seq!['s', 't', 'a', 's', 'h']);
    lemma_replace_other_placeholder(f, "$branch"@, shown_branch(branch, config.max_branch_chars));
    assert(f.take(6) != "$dirty"@) by { assert(f.take(6)[1] != "$dirty"@[1]); }
    lemma_replace_other_placeholder(f, "$dirty"@, if is_dirty { config.symbols.dirty@ } else { Seq::<char>::empty() });
    assert(f.take(6) != "$ahead"@) by { assert(f.take(6)[1] != "$ahead"@[1]); }
    lemma_replace_other_placeholder(f, "$ahead"@, if ahead > 0 { config.symbols.ahead@ + decimal(ahead) } else { Seq::<char>::empty() });
    lemma_replace_other_placeholder(f, "$behind"@, if behind > 0 { config.symbols.behind@ + decimal(behind) } else { Seq::<char>::empty() });
    assert(f.take(6) != "$state"@) by { assert(f.take(6)[4] != "$state"@[4]); }
    lemma_replace_other_placeholder(f, "$state"@, state_symbol(config.symbols, state));
    lemma_replace_other_placeholder(f, "$remote"@, match remote { Some(name) => name, None => Seq::<char>::empty() });
    let t = if stash_count > 0 { config.symbols.stash@ + decimal(stash_count) } else { Seq::<char>::empty() };
    assert(f.take(6) == "$stash"@);
    assert(f.skip(6) =~= Seq::<char>::empty());
    assert(replace_all(Seq::<char>::empty(), "$stash"@, t) == Seq::<char>::empty());
    assert(t + Seq::<char>::empty() =~= t);
    assert(replace_all(f, "$stash"@, t) == t);
    lemma_counter_has_no_placeholder(config.symbols.stash@, stash_count);

    if stash_count > 0 {
        crate::parse::lemma_decimal_digits(stash_count);
    }
}

/// With the format `$dirty`, a clean tree renders to nothing and a dirty one to
/// the dirty symbol.
pub proof fn lemma_dirty_indicator(
    config: GitConfig,
    branch: Seq<char>,
    ahead: nat,
    behind: nat,
    is_dirty: bool,
    stash_count: nat,
    remote: Option<Seq<char>>,
    state: GitState,
)
    requires
        config.format@ == "$dirty"@,
        !config.symbols.dirty@.contains('$'),
    ensures
        !is_dirty ==> spec_render(config, branch, ahead, behind, is_dirty, stash_count, remote, state) == Seq::<char>::empty(),
        is_dirty ==> spec_render(config, branch, ahead, behind, is_dirty, stash_count, remote, state) == config.symbols.dirty@,
{
    reveal_strlit("$branch");
    reveal_strlit("$dirty");
    reveal_strlit("$ahead");
    reveal_strlit("$behind");
    reveal_strlit("$state");
    reveal_strlit("$remote");
    reveal_strlit("$stash");
    let f = config.format@;
    assert(f =~= seq!['$', 'd', 'i', 'r', 't', 'y']);
    assert(f.drop_first() =~= seq!['d', 'i', 'r', 't', 'y']);
    lemma_replace_other_placeholder(f, "$branch"@, shown_branch(branch, config.max_branch_chars));
    let t = if is_dirty { config.symbols.dirty@ } else { Seq::<char>::empty() };
    assert(f.take(6) == "$dirty"@);
    assert(f.skip(6) =~= Seq::<char>::empty());
    assert(replace_all(Seq::<char>::empty(), "$dirty"@, t) == Seq::<char>::empty());
    assert(t + Seq::<char>::empty() =~= t);
    assert(replace_all(f, "$dirty"@, t) == t);
    lemma_no_placeholder(t, "$ahead"@, if ahead > 0 { config.symbols.ahead@ + decimal(ahead) } else { Seq::<char>::empty() });
    lemma_no_placeholder(t, "$behind"@, if behind > 0 { config.symbols.behind@ + decimal(behind) } else { Seq::<char>::empty() });
    lemma_no_placeholder(t, "$state"@, state_symbol(config.symbols, state));
    lemma_no_placeholder(t, "$remote"@, match remote { Some(name) => name, None => Seq::<char>::empty() });
    lemma_no_placeholder(t, "$stash"@, if stash_count > 0 { config.symbols.stash@ + decimal(stash_count) } else { Seq::<char>::empty() });
}

/// With the format `$state`, a repository with no operation in progress
/// renders to nothing, and one with an operation in progress to that
/// operation's symbol.
pub proof fn lemma_state_indicator(
    config: GitConfig,
    branch: Seq<char>,
    ahead: nat,
    behind: nat,
    is_dirty: bool,
    stash_count: nat,
    remote: Option<Seq<char>>,
    state: GitState,
)
    requires
        config.format@ == "$state"@,
        !state_symbol(config.symbols, state).contains('$'),
    ensures
        state == GitState::Clean ==> spec_render(config, branch, ahead, behind, is_dirty, stash_count, remote, state) == Seq::<char>::empty(),
        state == GitState::Merging ==> spec_render(config, branch, ahead, behind, is_dirty, stash_count, remote, state) == config.symbols.merging@,
        state == GitState::Rebasing ==> spec_render(config, branch, ahead, behind, is_dirty, stash_count, remote, state) == config.symbols.rebasing@,
        state == GitState::CherryPicking ==> spec_render(config, branch, ahead, behind, is_dirty, stash_count, remote, state) == config.symbols.cherry_picking@,
        state == GitState::Reverting ==> spec_render(config, branch, ahead, behind, is_dirty, stash_count, remote, state) == config.symbols.reverting@,
        state == GitState::Bisecting ==> spec_render(config, branch, ahead, behind, is_dirty, stash_count, remote, state) == config.symbols.bisecting@,
{
    reveal_strlit("$branch");
    reveal_strlit("$dirty");
    reveal_strlit("$ahead");
    reveal_strlit("$behind");
    reveal_strlit("$state");
    reveal_strlit("$remote");
    reveal_strlit("$stash");
    let f = config.format@;
    assert(f =~= seq!['$', 's', 't', 'a', 't', 'e']);
    assert(f.drop_first() =~= seq!['s', 't', 'a', 't', 'e']);
    lemma_replace_other_placeholder(f, "$branch"@, shown_branch(branch, config.max_branch_chars));
    assert(f.take(6) != "$dirty"@) by { assert(f.take(6)[1] != "$dirty"@[1]); }
    lemma_replace_other_placeholder(f, "$dirty"@, if is_dirty { config.symbols.dirty@ } else { Seq::<char>::empty() });
    assert(f.take(6) != "$ahead"@) by { assert(f.take(6)[1] != "$ahead"@[1]); }
    lemma_replace_other_placeholder(f, "$ahead"@, if ahead > 0 { config.symbols.ahead@ + decimal(ahead) } else { Seq::<char>::empty() });
    lemma_replace_other_placeholder(f, "$behind"@, if behind > 0 { config.symbols.behind@ + decimal(behind) } else { Seq::<char>::empty() });
    let t = state_symbol(config.symbols, state);
    assert(f.take(6) == "$state"@);
    assert(f.skip(6) =~= Seq::<char>::empty());
    assert(replace_all(Seq::<char>::empty(), "$state"@, t) == Seq::<char>::empty());
    assert(t + Seq::<char>::empty() =~= t);
    assert(replace_all(f, "$state"@, t) == t);
    lemma_no_placeholder(t, "$remote"@, match remote { Some(name) => name, None => Seq::<char>::empty() });
    lemma_no_placeholder(t, "$stash"@, if stash_count > 0 { config.symbols.stash@ + decimal(stash_count) } else { Seq::<char>::empty() });
}

/// With the format `$branch`, the branch name is shown, cut to its first
/// `max_branch_chars` characters when it is longer.
pub proof fn lemma_branch_indicator(
    config: GitConfig,
    branch: Seq<char>,
    ahead: nat,
    behind: nat,
    is_dirty: bool,
    stash_count: nat,
    remote: Option<Seq<char>>,
    state: GitState,
)
    requires
        config.format@ == "$branch"@,
        !branch.contains('$'),
    ensures
        spec_render(config, branch, ahead, behind, is_dirty, stash_count, remote, state) == shown_branch(branch, config.max_branch_chars),
        spec_render(config, branch, ahead, behind, is_dirty, stash_count, remote, state).len() <= branch.len(),
        spec_render(config, branch, ahead, behind, is_dirty, stash_count, remote, state) == branch.take(spec_render(config, branch, ahead, behind, is_dirty, stash_count, remote, state).len() as int),
        config.max_branch_chars matches Some(n) ==> spec_render(config, branch, ahead, behind, is_dirty, stash_count, remote, state).len() == (if branch.len() > n { n as nat } else { branch.len() }),
        config.max_branch_chars is None ==> spec_render(config, branch, ahead, behind, is_dirty, stash_count, remote, state) == branch,
{
    reveal_strlit("$branch");
    reveal_strlit("$dirty");
    reveal_strlit("$ahead");
    reveal_strlit("$behind");
    reveal_strlit("$state");
    reveal_strlit("$remote");
    reveal_strlit("$stash");
    assert(!shown_branch(branch, config.max_branch_chars).contains('$')) by {
        let sb = shown_branch(branch, config.max_branch_chars);
        if sb.contains('$') {
            let i = choose|i: int| 0 <= i < sb.len() && sb[i] == '$';
            assert(branch[i] == sb[i]);
        }
    }
    assert(branch.take(branch.len() as int) =~= branch);
    let f = config.format@;
    assert(f =~= seq!['$', 'b', 'r', 'a', 'n', 'c', 'h']);
    assert(f.drop_first() =~= seq!['b', 'r', 'a', 'n', 'c', 'h']);
    let t = shown_branch(branch, config.max_branch_chars);
    assert(f.take(7) == "$branch"@);
    assert(f.skip(7) =~= Seq::<char>::empty());
    assert(replace_all(Seq::<char>::empty(), "$branch"@, t) == Seq::<char>::empty());
    assert(t + Seq::<char>::empty() =~= t);
    assert(replace_all(f, "$branch"@, t) == t);
    lemma_no_placeholder(t, "$dirty"@, if is_dirty { config.symbols.dirty@ } else { Seq::<char>::empty() });
    lemma_no_placeholder(t, "$ahead"@, if ahead > 0 { config.symbols.ahead@ + decimal(ahead) } else { Seq::<char>::empty() });
    lemma_no_placeholder(t, "$behind"@, if behind > 0 { config.symbols.behind@ + decimal(behind) } else { Seq::<char>::empty() });
    lemma_no_placeholder(t, "$state"@, state_symbol(config.symbols, state));
    lemma_no_placeholder(t, "$remote"@, match remote { Some(name) => name, None => Seq::<char>::empty() });
    lemma_no_placeholder(t, "$stash"@, if stash_count > 0 { config.symbols.stash@ + decimal(stash_count) } else { Seq::<char>::empty() });
}

/// With the format `$remote`, the remote's name is shown, or nothing when
/// there is no remote.
pub proof fn lemma_remote_indicator(
    config: GitConfig,
    branch: Seq<char>,
    ahead: nat,
    behind: nat,
    is_dirty: bool,
    stash_count: nat,
    remote: Option<Seq<char>>,
    state: GitState,
)
    requires
        config.format@ == "$remote"@,
        remote matches Some(name) ==> !name.contains('$'),
    ensures
        remote is None ==> spec_render(config, branch, ahead, behind, is_dirty, stash_count, remote, state) == Seq::<char>::empty(),
        remote matches Some(name) ==> spec_render(config, branch, ahead, behind, is_dirty, stash_count, remote, state) == name,
{
    reveal_strlit("$branch");
    reveal_strlit("$dirty");
    reveal_strlit("$ahead");
    reveal_strlit("$behind");
    reveal_strlit("$state");
    reveal_strlit("$remote");
    reveal_strlit("$stash");
    let f = config.format@;
    assert(f =~= seq!['$', 'r', 'e', 'm', 'o', 't', 'e']);
    assert(f.drop_first() =~= seq!['r', 'e', 'm', 'o', 't', 'e']);
    assert(f.take(7) != "$branch"@) by { assert(f.take(7)[1] != "$branch"@[1]); }
    lemma_replace_other_placeholder(f, "$branch"@, shown_branch(branch, config.max_branch_chars));
    assert(f.take(6) != "$dirty"@) by { assert(f.take(6)[1] != "$dirty"@[1]); }
    lemma_replace_other_placeholder(f, "$dirty"@, if is_dirty { config.symbols.dirty@ } else { Seq::<char>::empty() });
    assert(f.take(6) != "$ahead"@) by { assert(f.take(6)[1] != "$ahead"@[1]); }
    lemma_replace_other_placeholder(f, "$ahead"@, if ahead > 0 { config.symbols.ahead@ + decimal(ahead) } else { Seq::<char>::empty() });
    assert(f.take(7) != "$behind"@) by { assert(f.take(7)[1] != "$behind"@[1]); }
    lemma_replace_other_placeholder(f, "$behind"@, if behind > 0 { config.symbols.behind@ + decimal(behind) } else { Seq::<char>::empty() });
    assert(f.take(6) != "$state"@) by { assert(f.take(6)[1] != "$state"@[1]); }
    lemma_replace_other_placeholder(f, "$state"@, state_symbol(config.symbols, state));
    let t = match remote { Some(name) => name, None => Seq::<char>::empty() };
    assert(f.take(7) == "$remote"@);
    assert(f.skip(7) =~= Seq::<char>::empty());
    assert(replace_all(Seq::<char>::empty(), "$remote"@, t) == Seq::<char>::empty());
    assert(t + Seq::<char>::empty() =~= t);
    assert(replace_all(f, "$remote"@, t) == t);
    lemma_no_placeholder(t, "$stash"@, if stash_count > 0 { config.symbols.stash@ + decimal(stash_count) } else { Seq::<char>::empty() });
}

/// A format without `$` is shown as it is, whatever the repository holds.
pub proof fn lemma_render_plain_format(
    config: GitConfig,
    branch: Seq<char>,
    ahead: nat,
    behind: nat,
    is_dirty: bool,
    stash_count: nat,
    remote: Option<Seq<char>>,
    state: GitState,
)
    requires
        !config.format@.contains('$'),
    ensures
        spec_render(config, branch, ahead, behind, is_dirty, stash_count, remote, state) == config.format@,
{
    reveal_strlit("$branch");
    reveal_strlit("$dirty");
    reveal_strlit("$ahead");
    reveal_strlit("$behind");
    reveal_strlit("$state");
    reveal_strlit("$remote");
    reveal_strlit("$stash");
    let f = config.format@;
    crate::parse::lemma_replace_absent(f, "$branch"@, shown_branch(branch, config.max_branch_chars));
    crate::parse::lemma_replace_absent(f, "$dirty"@, if is_dirty { config.symbols.dirty@ } else { Seq::empty() });
    crate::parse::lemma_replace_absent(f, "$ahead"@, if ahead > 0 { config.symbols.ahead@ + decimal(ahead) } else { Seq::empty() });
    crate::parse::lemma_replace_absent(f, "$behind"@, if behind > 0 { config.symbols.behind@ + decimal(behind) } else { Seq::empty() });
    crate::parse::lemma_replace_absent(f, "$state"@, state_symbol(config.symbols, state));
    crate::parse::lemma_replace_absent(f, "$remote"@, match remote { Some(name) => name, None => Seq::empty() });
    crate::parse::lemma_replace_absent(f, "$stash"@, if stash_count > 0 { config.symbols.stash@ + decimal(stash_count) } else { Seq::empty() });
}

} // verus!
