//! The prompt line: which segments are shown, joined by spaces.
use vstd::prelude::*;
use crate::config::FlamingoConfig;
use crate::git::GitError;
use crate::path::{path, spec_format_path};
use crate::text::{chars_of, join, join_chars, string_of, views};

verus! {

/// The segments to show, as bits: 1 for the path, 2 for git.
#[derive(Debug, Clone, Copy, PartialEq, Eq, Structural)]
pub struct FlamingoContext {
    pub bits: u32,
}

impl FlamingoContext {
    /// The path segment.
    pub fn path() -> (r: FlamingoContext)
        ensures
            r.bits == 1,
    {
        FlamingoContext { bits: 0b01 }
    }

    /// The git segment.
    pub fn git() -> (r: FlamingoContext)
        ensures
            r.bits == 2,
    {
        FlamingoContext { bits: 0b10 }
    }

    /// Whether every segment of `other` is in `self`.
    pub fn contains(&self, other: FlamingoContext) -> (r: bool)
        ensures
            r == (self.bits & other.bits == other.bits),
    {
        self.bits & other.bits == other.bits
    }

    /// The segments of both.
    pub fn union(self, other: FlamingoContext) -> (r: FlamingoContext)
        ensures
            r.bits == self.bits | other.bits,
    {
        FlamingoContext { bits: self.bits | other.bits }
    }
}

pub open spec fn shows_path(c: FlamingoContext) -> bool {
    c.bits & 1 == 1
}

pub open spec fn shows_git(c: FlamingoContext) -> bool {
    c.bits & 2 == 2
}

/// The segments of the prompt, in order: the path when shown, then the git
/// segment when shown and produced.
pub open spec fn spec_segments(
    path_text: Seq<char>,
    context: FlamingoContext,
    git: Option<Result<Seq<char>, ()>>,
) -> Seq<Seq<char>> {
    let first = if shows_path(context) { seq![path_text] } else { Seq::empty() };
    let second = match git {
        Some(Ok(g)) => if shows_git(context) { seq![g] } else { Seq::empty() },
        _ => Seq::empty(),
    };
    first + second
}

pub open spec fn git_view(g: Option<Result<String, GitError>>) -> Option<Result<Seq<char>, ()>> {
    match g {
        Some(Ok(s)) => Some(Ok(s@)),
        Some(Err(_)) => Some(Err(())),
        None => None,
    }
}

/// The prompt line for the working directory `cwd`: the path segment when the
/// context shows it, then the git segment when the context shows it and `git`
/// holds one (a git error shows nothing), joined by a space.
pub fn format(
    config: &FlamingoConfig,
    context: FlamingoContext,
    cwd: &str,
    git: Option<Result<String, GitError>>,
) -> (r: String)
    ensures
        exists|home: Option<Seq<char>>|
            r@ == join(
                spec_segments(#[trigger] spec_format_path(config.path, cwd@, home), context, git_view(git)),
                seq![' '],
            ),
{
    let mut parts: Vec<Vec<char>> = Vec::new();
    let p = path(&config.path, cwd);
    if context.contains(FlamingoContext::path()) {
        parts.push(chars_of(p.as_str()));
    }
    assert(views(parts@) =~= (if shows_path(context) { seq![p@] } else { Seq::<Seq<char>>::empty() })) by {
        assert(context.bits & 1 == 1 <==> context.bits & 1u32 == 1u32);
    }
    let ghost first = views(parts@);
    if context.contains(FlamingoContext::git()) {
        match git {
            Some(Ok(s)) => {
                parts.push(chars_of(s.as_str()));
                assert(views(parts@) =~= first.push(s@));
            },
            _ => {},
        }
    }
    assert(views(parts@) =~= spec_segments(p@, context, git_view(git)));
    let line = join_chars(&parts, ' ');
    string_of(&line)
}

/// The union of two contexts contains each of them.
pub proof fn lemma_union_contains(a: FlamingoContext, b: FlamingoContext)
    ensures
        (a.bits | b.bits) & a.bits == a.bits,
        (a.bits | b.bits) & b.bits == b.bits,
{
    let x = a.bits;
    let y = b.bits;
    assert((x | y) & x == x) by (bit_vector);
    assert((x | y) & y == y) by (bit_vector);
}

} // verus!
