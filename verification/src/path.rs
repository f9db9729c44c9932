//! Shortening of the working directory for display.
use vstd::prelude::*;
use vstd::slice::slice_to_vec;
use crate::config::{PathConfig, Side, TruncateStrategy};
use crate::text::{
    append_chars, byte_len, byte_len_at_most, chars_of, join, join_chars,
    split_chars, split_on, string_of, views, lemma_split_on_nonempty, lemma_split_join,
};

verus! {

/// A piece between separators that names a component (`.` and empty pieces do not).
pub open spec fn is_normal_piece(p: Seq<char>) -> bool {
    p.len() > 0 && p != seq!['.']
}

pub open spec fn normal_piece() -> spec_fn(Seq<char>) -> bool {
    |p: Seq<char>| is_normal_piece(p)
}

/// The components of a Unix path as `Path::components` yields them, each as its
/// string: a leading `/` for the root, a leading `.` for a path that starts with
/// `./` or is `.`, then the pieces between separators with repeated separators,
/// `.` pieces and a trailing separator normalized away.
pub open spec fn components(s: Seq<char>) -> Seq<Seq<char>> {
    let pieces = split_on(s, '/');
    let lead = if s.len() > 0 && s[0] == '/' {
        seq![seq!['/']]
    } else if pieces[0] == seq!['.'] {
        seq![seq!['.']]
    } else {
        Seq::<Seq<char>>::empty()
    };
    lead + pieces.filter(normal_piece())
}

/// The components of the path `s` (see `components`).
pub fn components_of(s: &[char]) -> (r: Vec<Vec<char>>)
    ensures
        views(r@) == components(s@),
{
    let pieces = split_chars(s, '/');
    let ghost ps = views(pieces@);
    proof {
        lemma_split_on_nonempty(s@, '/');
    }
    let mut out: Vec<Vec<char>> = Vec::new();
    if s.len() > 0 && s[0] == '/' {
        let mut root: Vec<char> = Vec::new();
        root.push('/');
        out.push(root);
        assert(views(out@) =~= seq![seq!['/']]);
    } else if pieces[0].len() == 1 && pieces[0][0] == '.' {
        let mut cur: Vec<char> = Vec::new();
        cur.push('.');
        out.push(cur);
        assert(ps[0] =~= seq!['.']);
        assert(views(out@) =~= seq![seq!['.']]);
    } else {
        assert(ps[0] != seq!['.']);
    }
    let ghost lead = views(out@);
    assert(views(out@) =~= lead + ps.take(0).filter(normal_piece())) by {
        reveal(Seq::filter);
    }
    let mut i: usize = 0;
    while i < pieces.len()
        invariant
            i <= pieces.len(),
            ps == views(pieces@),
            views(out@) == lead + ps.take(i as int).filter(normal_piece()),
        decreases pieces.len() - i,
    {
        proof {
            reveal(Seq::filter);
            assert(ps.take(i + 1).drop_last() =~= ps.take(i as int));
            assert(ps.take(i + 1).last() == ps[i as int]);
        }
        let p = &pieces[i];
        let keep = p.len() > 0 && !(p.len() == 1 && p[0] == '.');
        assert(keep == is_normal_piece(ps[i as int])) by {
            if p@.len() == 1 && p@[0] == '.' {
                assert(p@ =~= seq!['.']);
            }
        }
        if keep {
            let ghost before = views(out@);
            out.push(slice_to_vec(p.as_slice()));
            assert(views(out@) =~= before.push(ps[i as int]));
        }
        i = i + 1;
    }
    assert(ps.take(i as int) =~= ps);
    assert(views(out@) =~= components(s@));
    out
}

/// A leading component shortened to `dir_chars` characters (the root becomes empty).
pub open spec fn abbreviate(c: Seq<char>, dir_chars: nat) -> Seq<char> {
    if c == seq!['/'] {
        Seq::empty()
    } else if byte_len(c) <= dir_chars {
        c
    } else if dir_chars <= c.len() {
        c.take(dir_chars as int)
    } else {
        c
    }
}

/// The first `k` components abbreviated.
pub open spec fn abbreviated(comps: Seq<Seq<char>>, k: int, dir_chars: nat) -> Seq<Seq<char>> {
    Seq::new(k as nat, |i: int| abbreviate(comps[i], dir_chars))
}

/// `Smart`: a path of more than `tail_size` components is shown as its leading
/// components abbreviated (kept when their UTF-8 length is at most `dir_chars`
/// bytes, else cut to `dir_chars` characters; the root shows as empty) then its
/// last `tail_size` components, joined with `/`; a shorter path is unchanged.
pub open spec fn spec_truncate_smart(path: Seq<char>, tail_size: nat, dir_chars: nat) -> Seq<char> {
    let comps = components(path);
    if comps.len() <= tail_size {
        path
    } else {
        let k = comps.len() - tail_size;
        join(abbreviated(comps, k, dir_chars) + comps.skip(k), seq!['/'])
    }
}

/// `Tail`: a path of more than `size` components is shown as its last `size`
/// components joined with `/`; a shorter path is unchanged.
pub open spec fn spec_truncate_tail(path: Seq<char>, size: nat) -> Seq<char> {
    let comps = components(path);
    if comps.len() <= size {
        path
    } else {
        join(comps.skip(comps.len() - size), seq!['/'])
    }
}

fn abbreviate_component(c: &Vec<char>, dir_chars: usize) -> (r: Vec<char>)
    ensures
        r@ == abbreviate(c@, dir_chars as nat),
{
    if c.len() == 1 && c[0] == '/' {
        assert(c@ =~= seq!['/']);
        Vec::new()
    } else if byte_len_at_most(c, dir_chars) {
        assert(c@ != seq!['/']) by {
            if c@ == seq!['/'] {
                assert(c@.len() == 1 && c@[0] == '/');
            }
        }
        slice_to_vec(c.as_slice())
    } else {
        assert(c@ != seq!['/']) by {
            if c@ == seq!['/'] {
                assert(c@.len() == 1 && c@[0] == '/');
            }
        }
        if dir_chars <= c.len() {
            let mut r: Vec<char> = Vec::new();
            let mut i: usize = 0;
            while i < dir_chars
                invariant
                    i <= dir_chars <= c.len(),
                    r@ == c@.take(i as int),
                decreases dir_chars - i,
            {
                r.push(c[i]);
                i = i + 1;
                assert(r@ =~= c@.take(i as int));
            }
            r
        } else {
            slice_to_vec(c.as_slice())
        }
    }
}

/// Shortens all but the last `tail_size` components to `dir_chars` characters.
pub fn truncate_smart(path: &str, tail_size: usize, dir_chars: usize) -> (r: String)
    ensures
        r@ == spec_truncate_smart(path@, tail_size as nat, dir_chars as nat),
        components(path@).len() <= tail_size ==> r@ == path@,
{
    let chars = chars_of(path);
    let comps = components_of(&chars);
    let ghost cs = views(comps@);
    if comps.len() <= tail_size {
        return path.to_string();
    }
    let k = comps.len() - tail_size;
    let mut parts: Vec<Vec<char>> = Vec::new();
    let mut i: usize = 0;
    while i < k
        invariant
            k <= comps.len(),
            i <= k,
            cs == views(comps@),
            views(parts@) =~= abbreviated(cs, i as int, dir_chars as nat),
        decreases k - i,
    {
        let a = abbreviate_component(&comps[i], dir_chars);
        let ghost before = views(parts@);
        assert(cs[i as int] == comps@[i as int]@);
        parts.push(a);
        assert(views(parts@) =~= before.push(abbreviate(cs[i as int], dir_chars as nat)));
        i = i + 1;
    }
    let ghost head = views(parts@);
    let mut j: usize = k;
    while j < comps.len()
        invariant
            k <= j <= comps.len(),
            cs == views(comps@),
            views(parts@) =~= head + cs.subrange(k as int, j as int),
        decreases comps.len() - j,
    {
        let ghost before = views(parts@);
        assert(cs[j as int] == comps@[j as int]@);
        parts.push(slice_to_vec(comps[j].as_slice()));
        assert(views(parts@) =~= before.push(cs[j as int]));
        j = j + 1;
    }
    assert(cs.subrange(k as int, j as int) =~= cs.skip(k as int));
    let r = join_chars(&parts, '/');
    string_of(&r)
}

/// Keeps only the last `size` components.
pub fn truncate_tail(path: &str, size: usize) -> (r: String)
    ensures
        r@ == spec_truncate_tail(path@, size as nat),
        components(path@).len() <= size ==> r@ == path@,
{
    let chars = chars_of(path);
    let comps = components_of(&chars);
    let ghost cs = views(comps@);
    if comps.len() <= size {
        return path.to_string();
    }
    let k = comps.len() - size;
    let mut parts: Vec<Vec<char>> = Vec::new();
    let mut j: usize = k;
    while j < comps.len()
        invariant
            k <= j <= comps.len(),
            cs == views(comps@),
            views(parts@) =~= cs.subrange(k as int, j as int),
        decreases comps.len() - j,
    {
        let ghost before = views(parts@);
        assert(cs[j as int] == comps@[j as int]@);
        parts.push(slice_to_vec(comps[j].as_slice()));
        assert(views(parts@) =~= before.push(cs[j as int]));
        j = j + 1;
    }
    assert(cs.subrange(k as int, j as int) =~= cs.skip(k as int));
    let r = join_chars(&parts, '/');
    string_of(&r)
}

/// The suffix kept by `Length` from the left side, looking from index `i` on:
/// the longest suffix that starts with `/` and is shorter than `max`
/// characters; when there is none, the last piece if it is shorter than `max`,
/// else nothing.
pub open spec fn suffix_from_slash(path: Seq<char>, max: nat, i: int) -> Seq<char>
    decreases path.len() - i,
{
    if i < 0 || i >= path.len() {
        left_fallback(path, max)
    } else if path[i] == '/' && path.len() - i < max {
        path.skip(i)
    } else {
        suffix_from_slash(path, max, i + 1)
    }
}

/// The text kept by `Length` from the left side.
pub open spec fn keep_from_left(path: Seq<char>, max: nat) -> Seq<char> {
    suffix_from_slash(path, max, 0)
}

/// How many leading pieces `Length` keeps from the right side: pieces are taken
/// from the first on while the running length stays under `limit` (the length
/// counts a separator before every piece but the first non-empty one).
pub open spec fn kept_from_right(pieces: Seq<Seq<char>>, limit: int, acc_len: nat) -> nat
    decreases pieces.len(),
{
    if pieces.len() == 0 {
        0
    } else {
        let new_len = if acc_len == 0 {
            pieces[0].len()
        } else {
            acc_len + pieces[0].len() + 1
        };
        if new_len < limit {
            1 + kept_from_right(pieces.drop_first(), limit, new_len)
        } else {
            0
        }
    }
}

/// The leading pieces that `Length` may keep from the right side: all but the
/// last two, so that at least one component is left out.
pub open spec fn right_candidates(pieces: Seq<Seq<char>>) -> Seq<Seq<char>> {
    if pieces.len() >= 2 {
        pieces.take(pieces.len() - 2)
    } else {
        Seq::empty()
    }
}

/// `Length` (a limit in characters): a path of at most `max` characters is
/// unchanged. From the left, the symbol is followed by the suffix kept by
/// `keep_from_left`. From the right, a last piece of at least `max` characters
/// gives an empty result; otherwise the leading pieces that fit in what is
/// left of `max` after the last piece and the symbol, the symbol and the last
/// piece are joined with `/`.
pub open spec fn spec_truncate_length(path: Seq<char>, max: nat, side: Side, symbol: Seq<char>) -> Seq<char> {
    if path.len() <= max {
        path
    } else {
        match side {
            Side::Left => symbol + keep_from_left(path, max),
            Side::Right => {
                let pieces = split_on(path, '/');
                let tail = pieces.last();
                if max <= tail.len() {
                    Seq::empty()
                } else {
                    let limit = max - tail.len() - symbol.len();
                    let n = kept_from_right(right_candidates(pieces), limit, 0);
                    join(pieces.take(n as int), seq!['/']) + seq!['/'] + symbol + seq!['/'] + tail
                }
            },
        }
    }
}

fn length_left(path: &Vec<char>, pieces: &Vec<Vec<char>>, max: usize) -> (r: Vec<char>)
    requires
        views(pieces@) == split_on(path@, '/'),
        pieces.len() >= 1,
    ensures
        r@ == keep_from_left(path@, max as nat),
{
    let n = path.len();
    let mut i: usize = 0;
    while i < n
        invariant
            i <= n == path.len(),
            views(pieces@) == split_on(path@, '/'),
            pieces.len() >= 1,
            keep_from_left(path@, max as nat) == suffix_from_slash(path@, max as nat, i as int),
        decreases n - i,
    {
        if path[i] == '/' && n - i < max {
            let mut r: Vec<char> = Vec::new();
            let mut j: usize = i;
            while j < n
                invariant
                    i <= j <= n == path.len(),
                    r@ == path@.subrange(i as int, j as int),
                decreases n - j,
            {
                r.push(path[j]);
                j = j + 1;
                assert(r@ =~= path@.subrange(i as int, j as int));
            }
            assert(path@.subrange(i as int, n as int) =~= path@.skip(i as int));
            return r;
        }
        i = i + 1;
    }
    let last = pieces.len() - 1;
    assert(views(pieces@).last() == pieces@[last as int]@);
    if pieces[last].len() < max {
        slice_to_vec(pieces[last].as_slice())
    } else {
        Vec::new()
    }
}

fn length_right_count(pieces: &Vec<Vec<char>>, m: usize, limit: usize) -> (n: usize)
    requires
        limit > 0,
        m <= pieces.len(),
    ensures
        n <= m,
        n == kept_from_right(views(pieces@).take(m as int), limit as int, 0),
{
    let ghost ps = views(pieces@).take(m as int);
    let mut acc_len: usize = 0;
    let mut i: usize = 0;
    assert(ps.skip(0) =~= ps);
    while i < m
        invariant
            m <= pieces.len(),
            i <= m,
            ps == views(pieces@).take(m as int),
            acc_len == 0 || acc_len < limit,
            kept_from_right(ps, limit as int, 0) == i + kept_from_right(ps.skip(i as int), limit as int, acc_len as nat),
        decreases m - i,
    {
        proof {
            assert(ps.skip(i as int).drop_first() =~= ps.skip(i + 1));
            assert(ps.skip(i as int)[0] == ps[i as int]);
            assert(ps[i as int] == pieces@[i as int]@);
        }
        let c = pieces[i].len();
        let fits = if acc_len == 0 { c < limit } else { c < limit - acc_len - 1 };
        if !fits {
            return i;
        }
        acc_len = if acc_len == 0 { c } else { acc_len + c + 1 };
        i = i + 1;
    }
    assert(ps.skip(i as int) =~= Seq::<Seq<char>>::empty());
    i
}

proof fn lemma_kept_from_right_zero(pieces: Seq<Seq<char>>, limit: int)
    requires
        limit <= 0,
    ensures
        kept_from_right(pieces, limit, 0) == 0,
{
}

/// Fits the path under `max` characters, dropping components from one side and
/// marking the gap with `symbol`.
pub fn truncate_length(path: &str, max: usize, start_side: &Side, symbol: &str) -> (r: String)
    ensures
        r@ == spec_truncate_length(path@, max as nat, *start_side, symbol@),
{
    let chars = chars_of(path);
    if chars.len() <= max {
        return path.to_string();
    }
    let pieces = split_chars(&chars, '/');
    let ghost ps = views(pieces@);
    proof {
        lemma_split_on_nonempty(path@, '/');
    }
    match start_side {
        Side::Left => {
            let kept = length_left(&chars, &pieces, max);
            let mut out = chars_of(symbol);
            append_chars(&mut out, &kept);
            string_of(&out)
        },
        Side::Right => {
            let last = pieces.len() - 1;
            assert(ps.last() == pieces@[last as int]@);
            let tail_len = pieces[last].len();
            if max <= tail_len {
                return String::new();
            }
            let sym = chars_of(symbol);
            let m: usize = if pieces.len() >= 2 { pieces.len() - 2 } else { 0 };
            assert(right_candidates(ps) == ps.take(m as int)) by {
                if ps.len() < 2 {
                    assert(ps.take(0) =~= Seq::<Seq<char>>::empty());
                }
            }
            let n = if sym.len() >= max - tail_len {
                proof {
                    lemma_kept_from_right_zero(right_candidates(ps), max - tail_len - sym@.len());
                }
                0
            } else {
                length_right_count(&pieces, m, max - tail_len - sym.len())
            };
            let mut head: Vec<Vec<char>> = Vec::new();
            let mut j: usize = 0;
            while j < n
                invariant
                    n <= m <= pieces.len(),
                    j <= n,
                    ps == views(pieces@),
                    views(head@) =~= ps.take(j as int),
                decreases n - j,
            {
                let ghost before = views(head@);
                assert(ps[j as int] == pieces@[j as int]@);
                head.push(slice_to_vec(pieces[j].as_slice()));
                assert(views(head@) =~= before.push(ps[j as int]));
                j = j + 1;
            }
            let mut out = join_chars(&head, '/');
            out.push('/');
            append_chars(&mut out, &sym);
            out.push('/');
            append_chars(&mut out, &pieces[last]);
            string_of(&out)
        },
    }
}

/// A strategy applied where nesting is not followed: a nested `Adaptive`
/// shows the whole path.
pub open spec fn spec_truncate_nested(path: Seq<char>, strategy: TruncateStrategy) -> Seq<char> {
    match strategy {
        TruncateStrategy::Full => path,
        TruncateStrategy::Smart { tail_size, dir_chars } => spec_truncate_smart(
            path,
            tail_size as nat,
            dir_chars as nat,
        ),
        TruncateStrategy::Tail { size } => spec_truncate_tail(path, size as nat),
        TruncateStrategy::Length { max, start_side, symbol } => spec_truncate_length(
            path,
            max as nat,
            start_side,
            symbol@,
        ),
        TruncateStrategy::Adaptive { .. } => path,
    }
}

/// The path as `strategy` shows it; `Adaptive` picks `short` for paths of at
/// most `threshold` characters and `long` otherwise.
pub open spec fn spec_truncate(path: Seq<char>, strategy: TruncateStrategy) -> Seq<char> {
    match strategy {
        TruncateStrategy::Adaptive { threshold, short, long } => if path.len() <= threshold {
            spec_truncate_nested(path, *short)
        } else {
            spec_truncate_nested(path, *long)
        },
        _ => spec_truncate_nested(path, strategy),
    }
}

/// Applies a strategy nested in `Adaptive`; a further `Adaptive` is not
/// followed and the whole path is shown.
pub fn truncate_adaptive(path: &str, strategy: &TruncateStrategy) -> (r: String)
    ensures
        r@ == spec_truncate_nested(path@, *strategy),
{
    match strategy {
        TruncateStrategy::Full => path.to_string(),
        TruncateStrategy::Smart { tail_size, dir_chars } => truncate_smart(path, *tail_size, *dir_chars),
        TruncateStrategy::Tail { size } => truncate_tail(path, *size),
        TruncateStrategy::Length { max, start_side, symbol } => truncate_length(
            path,
            *max,
            start_side,
            symbol.as_str(),
        ),
        TruncateStrategy::Adaptive { .. } => path.to_string(),
    }
}

/// Applies a truncation strategy to a path.
pub fn apply_truncation_strategy(path: &str, strategy: &TruncateStrategy) -> (r: String)
    ensures
        r@ == spec_truncate(path@, *strategy),
{
    match strategy {
        TruncateStrategy::Adaptive { threshold, short, long } => {
            let chars = chars_of(path);
            if chars.len() <= *threshold {
                truncate_adaptive(path, short)
            } else {
                truncate_adaptive(path, long)
            }
        },
        _ => truncate_adaptive(path, strategy),
    }
}

/// What `Path::strip_prefix` returns for `path` and `base`, as a string.
pub uninterp spec fn spec_strip_prefix(path: Seq<char>, base: Seq<char>) -> Option<Seq<char>>;

/// `base` joined with `rel` as `Path::join` does it on Unix: an absolute `rel`
/// replaces `base`; otherwise `rel` is appended, after a separator unless
/// `base` is empty or already ends in one.
pub open spec fn spec_path_join(base: Seq<char>, rel: Seq<char>) -> Seq<char> {
    if rel.len() > 0 && rel[0] == '/' {
        rel
    } else if base.len() == 0 || base.last() == '/' {
        base + rel
    } else {
        base + seq!['/'] + rel
    }
}

/// Whether the components of `base` are the first components of `path`.
pub open spec fn starts_with_components(path: Seq<char>, base: Seq<char>) -> bool {
    let p = components(path);
    let b = components(base);
    b.len() <= p.len() && p.take(b.len() as int) == b
}

/// Trusted: calls `std::path::Path::strip_prefix`. Its documentation says that
/// it fails exactly when `base` is not a prefix of `path` by whole components
/// (`Path::starts_with`), and returns the path that joined onto `base` gives
/// `path`: its components are those of `path` after the ones of `base`. Its
/// exact text (which keeps repeated separators inside it) is named.
#[verifier::external_body]
fn strip_path_prefix(path: &str, base: &str) -> (r: Option<String>)
    ensures
        r is Some <==> starts_with_components(path@, base@),
        r matches Some(rel) ==> spec_strip_prefix(path@, base@) == Some(rel@),
        r matches Some(rel) ==> components(rel@) == components(path@).skip(components(base@).len() as int),
        r is None ==> spec_strip_prefix(path@, base@) is None,
{
    match std::path::Path::new(path).strip_prefix(base) {
        Ok(rel) => Some(rel.to_string_lossy().into_owned()),
        Err(_) => None,
    }
}

/// Trusted: calls `std::path::Path::join`. Its documentation (`PathBuf::push`)
/// says that an absolute `rel` replaces `base`, and that otherwise `rel` is
/// appended after a separator unless `base` is empty or ends in one
/// (`spec_path_join`). Both arguments are valid UTF-8, so the lossy
/// conversion back to a string changes nothing.
#[verifier::external_body]
pub(crate) fn join_path(base: &str, rel: &str) -> (r: String)
    ensures
        r@ == spec_path_join(base@, rel@),
{
    std::path::Path::new(base).join(rel).to_string_lossy().into_owned()
}

/// Trusted: calls `dirs::home_dir`, which reads `$HOME` (or the password
/// database); nothing is stated of its result.
#[verifier::external_body]
pub(crate) fn home_dir() -> (r: Option<String>) {
    match dirs::home_dir() {
        Some(p) => Some(p.to_string_lossy().into_owned()),
        None => None,
    }
}

/// The view of an optional string.
pub open spec fn str_opt_view(o: Option<&str>) -> Option<Seq<char>> {
    match o {
        Some(s) => Some(s@),
        None => None,
    }
}

/// The path with the home directory `home` replaced by `~`.
pub open spec fn spec_shorten_home(path: Seq<char>, home: Option<Seq<char>>) -> Seq<char> {
    match home {
        Some(h) => match spec_strip_prefix(path, h) {
            Some(rel) => spec_path_join(seq!['~'], rel),
            None => path,
        },
        None => path,
    }
}

/// Replaces the home directory `home` at the start of `path` with `~`;
/// a path outside `home`, or no home directory, leaves `path` unchanged, and
/// the home directory itself becomes `~/`.
pub fn shorten_home(path: &str, home: Option<&str>) -> (r: String)
    ensures
        r@ == spec_shorten_home(path@, str_opt_view(home)),
        home is None ==> r@ == path@,
        home matches Some(h) && !starts_with_components(path@, h@) ==> r@ == path@,
        home matches Some(h) ==> (starts_with_components(path@, h@) ==> spec_strip_prefix(path@, h@) is Some),
        home matches Some(h) ==> (components(path@) == components(h@) ==> r@ == seq!['~', '/']),
        match home {
            Some(h) => match spec_strip_prefix(path@, h@) {
                Some(rel) => {
                    &&& r@ == spec_path_join(seq!['~'], rel)
                    &&& (rel.len() > 0 && rel[0] != '/' ==> r@ == seq!['~', '/'] + rel)
                    &&& components(rel) == components(path@).skip(components(h@).len() as int)
                },
                None => true,
            },
            None => true,
        },
{
    match home {
        Some(h) => match strip_path_prefix(path, h) {
            Some(rel) => {
                proof {
                    reveal_strlit("~");
                }
                assert("~"@ =~= seq!['~']);
                let r = join_path("~", rel.as_str());
                assert(seq!['~'] + seq!['/'] + rel@ =~= seq!['~', '/'] + rel@);
                proof {
                    if components(path@) == components(h@) {
                        assert(components(path@).skip(components(h@).len() as int) =~= Seq::<Seq<char>>::empty());
                        lemma_no_components_is_empty(rel@);
                        assert(seq!['~'] + seq!['/'] + rel@ =~= seq!['~', '/']);
                    }
                }
                r
            },
            None => {
                proof {
                    if components(path@) == components(h@) {
                        assert(components(path@).take(components(h@).len() as int) =~= components(path@));
                    }
                }
                path.to_string()
            },
        },
        None => path.to_string(),
    }
}

/// The first piece of a path that does not start with `/` is not empty.
proof fn lemma_first_piece_nonempty(s: Seq<char>)
    requires
        s.len() > 0,
        s[0] != '/',
    ensures
        split_on(s, '/').len() >= 1,
        split_on(s, '/')[0].len() > 0,
    decreases s.len(),
{
    lemma_split_on_nonempty(s, '/');
    let prev = split_on(s.drop_last(), '/');
    if s.len() > 1 {
        assert(s.drop_last()[0] == s[0]);
        lemma_first_piece_nonempty(s.drop_last());
    } else {
        assert(s.drop_last().len() == 0);
        assert(prev == seq![Seq::<char>::empty()]);
    }
    if s.last() != '/' {
        assert(prev.last().push(s.last()).len() > 0);
    }
}

/// Only the empty path has no components.
pub proof fn lemma_no_components_is_empty(s: Seq<char>)
    requires
        components(s).len() == 0,
    ensures
        s.len() == 0,
{
    if s.len() > 0 && s[0] != '/' {
        lemma_first_piece_nonempty(s);
        let pieces = split_on(s, '/');
        if pieces[0] != seq!['.'] {
            pieces.lemma_filter_contains(normal_piece(), 0);
        }
    }
}

/// Substitutes `$HOME` with `~`, with the home directory that `dirs::home_dir` finds.
pub fn substitute_home_dir(path: &str) -> (r: String)
    ensures
        exists|home: Option<Seq<char>>| r@ == #[trigger] spec_shorten_home(path@, home),
{
    let home = home_dir();
    let r = match &home {
        Some(h) => shorten_home(path, Some(h.as_str())),
        None => shorten_home(path, None),
    };
    let ghost h = match home {
        Some(h) => Some(h@),
        None => None::<Seq<char>>,
    };
    assert(r@ == spec_shorten_home(path@, h));
    r
}

/// The working directory `cwd` as `config` shows it, with `home` as the home directory.
pub open spec fn spec_format_path(config: PathConfig, cwd: Seq<char>, home: Option<Seq<char>>) -> Seq<char> {
    let p = if config.shorten_home { spec_shorten_home(cwd, home) } else { cwd };
    spec_truncate(p, config.truncate)
}

/// The working directory `cwd` formatted according to `config`, with `home`
/// as the home directory.
pub fn format_path(config: &PathConfig, cwd: &str, home: Option<&str>) -> (r: String)
    ensures
        r@ == spec_format_path(*config, cwd@, str_opt_view(home)),
{
    if config.shorten_home {
        let p = shorten_home(cwd, home);
        apply_truncation_strategy(p.as_str(), &config.truncate)
    } else {
        apply_truncation_strategy(cwd, &config.truncate)
    }
}

/// The working directory `cwd` formatted according to `config`, with the home
/// directory that `dirs::home_dir` finds.
pub fn path(config: &PathConfig, cwd: &str) -> (r: String)
    ensures
        exists|home: Option<Seq<char>>| r@ == #[trigger] spec_format_path(*config, cwd@, home),
        !config.shorten_home ==> r@ == spec_truncate(cwd@, config.truncate),
{
    if config.shorten_home {
        let home = home_dir();
        let r = match &home {
            Some(h) => format_path(config, cwd, Some(h.as_str())),
            None => format_path(config, cwd, None),
        };
        let ghost h = match home {
            Some(h) => Some(h@),
            None => None::<Seq<char>>,
        };
        assert(r@ == spec_format_path(*config, cwd@, h));
        r
    } else {
        let r = format_path(config, cwd, None);
        assert(r@ == spec_format_path(*config, cwd@, None));
        r
    }
}

/// Whether the suffix of `path` from index `j` starts with `/` and is shorter
/// than `max` characters.
pub open spec fn short_slash_suffix_at(path: Seq<char>, max: nat, j: int) -> bool {
    0 <= j < path.len() && path[j] == '/' && path.len() - j < max
}

/// What `Length` keeps from the left side when no suffix starting with `/` is
/// short enough: the last piece if it is shorter than `max`, else nothing.
pub open spec fn left_fallback(path: Seq<char>, max: nat) -> Seq<char> {
    let last = split_on(path, '/').last();
    if last.len() < max {
        last
    } else {
        Seq::empty()
    }
}

/// What `Length` keeps from the left side, looking from index `i` on, is a
/// suffix of the path shorter than `max` characters; when some suffix from
/// `i` on starts with `/` and is that short, it is the longest such suffix
/// and starts with `/`; when none is, it is the fallback.
pub proof fn lemma_keep_from_left_suffix(path: Seq<char>, max: nat, i: int)
    requires
        0 <= i <= path.len(),
    ensures
        ({
            let k = suffix_from_slash(path, max, i);
            &&& k.len() == 0 || k.len() < max
            &&& k.len() <= path.len()
            &&& k == path.skip(path.len() - k.len())
            &&& forall|j: int| i <= j && #[trigger] short_slash_suffix_at(path, max, j) ==> k.len() >= path.len() - j
            &&& (exists|j: int| i <= j && #[trigger] short_slash_suffix_at(path, max, j)) ==> k.len() > 0 && k[0] == '/'
            &&& !(exists|j: int| i <= j && #[trigger] short_slash_suffix_at(path, max, j)) ==> k == left_fallback(path, max)
        }),
    decreases path.len() - i,
{
    if i < path.len() {
        lemma_keep_from_left_suffix(path, max, i + 1);
        if !short_slash_suffix_at(path, max, i) {
            if exists|j: int| i <= j && #[trigger] short_slash_suffix_at(path, max, j) {
                let j = choose|j: int| i <= j && #[trigger] short_slash_suffix_at(path, max, j);
                assert(i + 1 <= j);
            }
        }
    } else {
        lemma_split_on_nonempty(path, '/');
        lemma_last_piece_is_suffix(path);
    }
}

/// The text `Length` keeps from the left side is the longest suffix of the
/// path that starts with `/` and is shorter than `max` characters; when the
/// path has no such suffix, it is the last piece if that is shorter than
/// `max`, else nothing.
pub proof fn lemma_keep_from_left_longest_slash_suffix(path: Seq<char>, max: nat)
    ensures
        ({
            let k = keep_from_left(path, max);
            &&& (exists|j: int| #[trigger] short_slash_suffix_at(path, max, j)) ==> {
                &&& k.len() > 0 && k[0] == '/' && k.len() < max
                &&& k == path.skip(path.len() - k.len())
                &&& forall|j: int| #[trigger] short_slash_suffix_at(path, max, j) ==> k.len() >= path.len() - j
            }
            &&& !(exists|j: int| #[trigger] short_slash_suffix_at(path, max, j)) ==> k == left_fallback(path, max)
        }),
{
    lemma_keep_from_left_suffix(path, max, 0);
    if exists|j: int| #[trigger] short_slash_suffix_at(path, max, j) {
        let j = choose|j: int| #[trigger] short_slash_suffix_at(path, max, j);
        assert(0 <= j && short_slash_suffix_at(path, max, j));
    }
}

proof fn lemma_last_piece_is_suffix(s: Seq<char>)
    ensures
        split_on(s, '/').len() >= 1,
        split_on(s, '/').last().len() <= s.len(),
        split_on(s, '/').last() == s.skip(s.len() - split_on(s, '/').last().len()),
    decreases s.len(),
{
    lemma_split_on_nonempty(s, '/');
    if s.len() == 0 {
        assert(s.skip(0) =~= Seq::<char>::empty());
    } else {
        lemma_last_piece_is_suffix(s.drop_last());
        let prev = split_on(s.drop_last(), '/');
        if s.last() == '/' {
            assert(s.skip(s.len() as int) =~= Seq::<char>::empty());
        } else {
            let l = prev.last();
            assert(s.drop_last().skip(s.drop_last().len() - l.len()) == l);
            assert(s.skip(s.len() - (l.len() + 1)) =~= l.push(s.last()));
        }
    }
}

/// From the right, at least one component is left out: the kept leading
/// pieces are fewer than the pieces before the last one.
pub proof fn lemma_length_right_leaves_one_out(path: Seq<char>, max: nat, symbol: Seq<char>)
    requires
        path.len() > max,
        max > split_on(path, '/').last().len(),
    ensures
        split_on(path, '/').len() >= 2,
        kept_from_right(
            right_candidates(split_on(path, '/')),
            max - split_on(path, '/').last().len() - symbol.len(),
            0,
        ) < split_on(path, '/').len() - 1,
{
    lemma_last_piece_is_suffix(path);
    let pieces = split_on(path, '/');
    if pieces.len() < 2 {
        lemma_split_on_single_piece(path);
    }
    lemma_kept_from_right_bounded(right_candidates(pieces), max - pieces.last().len() - symbol.len(), 0);
}

proof fn lemma_split_on_single_piece(s: Seq<char>)
    requires
        split_on(s, '/').len() < 2,
    ensures
        split_on(s, '/').last() == s,
    decreases s.len(),
{
    lemma_split_on_nonempty(s, '/');
    if s.len() > 0 {
        lemma_split_on_nonempty(s.drop_last(), '/');
        if s.last() != '/' {
            lemma_split_on_single_piece(s.drop_last());
            assert(s.drop_last().push(s.last()) =~= s);
        }
    } else {
        assert(split_on(s, '/') =~= seq![Seq::<char>::empty()]);
        assert(s =~= Seq::<char>::empty());
    }
}

proof fn lemma_kept_from_right_bounded(pieces: Seq<Seq<char>>, limit: int, acc_len: nat)
    ensures
        kept_from_right(pieces, limit, acc_len) <= pieces.len(),
    decreases pieces.len(),
{
    if pieces.len() > 0 {
        let new_len = if acc_len == 0 { pieces[0].len() } else { acc_len + pieces[0].len() + 1 };
        lemma_kept_from_right_bounded(pieces.drop_first(), limit, new_len);
    }
}

/// A path that fits the character limit is shown unchanged by `Length`, from either side.
pub proof fn lemma_length_keeps_short_paths(path: Seq<char>, max: nat, side: Side, symbol: Seq<char>)
    requires
        path.len() <= max,
    ensures
        spec_truncate_length(path, max, side, symbol) == path,
{
}

/// A component name: a normal piece without a separator.
pub open spec fn is_name(c: Seq<char>) -> bool {
    is_normal_piece(c) && !c.contains('/')
}

proof fn lemma_split_on_pieces_have_no_sep(s: Seq<char>, sep: char)
    ensures
        forall|i: int| 0 <= i < split_on(s, sep).len() ==> !(#[trigger] split_on(s, sep)[i]).contains(sep),
    decreases s.len(),
{
    if s.len() > 0 {
        lemma_split_on_pieces_have_no_sep(s.drop_last(), sep);
        lemma_split_on_nonempty(s.drop_last(), sep);
        let prev = split_on(s.drop_last(), sep);
        if s.last() != sep {
            let l = prev.last().push(s.last());
            assert(!prev.last().contains(sep)) by {
                assert(prev[prev.len() - 1] == prev.last());
            }
            assert(!l.contains(sep)) by {
                if l.contains(sep) {
                    let k = choose|k: int| 0 <= k < l.len() && l[k] == sep;
                    if k < l.len() - 1 {
                        assert(prev.last()[k] == sep);
                    }
                }
            }
        } else {
            assert(!Seq::<char>::empty().contains(sep));
        }
    }
}

proof fn lemma_filter_names(ps: Seq<Seq<char>>)
    requires
        forall|i: int| 0 <= i < ps.len() ==> !(#[trigger] ps[i]).contains('/'),
    ensures
        forall|i: int| 0 <= i < ps.filter(normal_piece()).len() ==> is_name(#[trigger] ps.filter(normal_piece())[i]),
    decreases ps.len(),
{
    reveal(Seq::filter);
    if ps.len() > 0 {
        let init = ps.drop_last();
        assert forall|i: int| 0 <= i < init.len() implies !(#[trigger] init[i]).contains('/') by {
            assert(init[i] == ps[i]);
        }
        lemma_filter_names(init);
        assert(!ps.last().contains('/')) by {
            assert(ps[ps.len() - 1] == ps.last());
        }
        let fi = init.filter(normal_piece());
        if normal_piece()(ps.last()) {
            assert(ps.filter(normal_piece()) == fi.push(ps.last()));
            assert forall|i: int| 0 <= i < ps.filter(normal_piece()).len() implies is_name(#[trigger] ps.filter(normal_piece())[i]) by {
                if i < fi.len() {
                    assert(ps.filter(normal_piece())[i] == fi[i]);
                }
            }
        } else {
            assert(ps.filter(normal_piece()) == fi);
        }
    }
}

proof fn lemma_filter_keeps_names(ps: Seq<Seq<char>>)
    requires
        forall|i: int| 0 <= i < ps.len() ==> is_name(#[trigger] ps[i]),
    ensures
        ps.filter(normal_piece()) == ps,
    decreases ps.len(),
{
    reveal(Seq::filter);
    if ps.len() > 0 {
        let init = ps.drop_last();
        assert forall|i: int| 0 <= i < init.len() implies is_name(#[trigger] init[i]) by {
            assert(init[i] == ps[i]);
        }
        lemma_filter_keeps_names(init);
        assert(is_name(ps[ps.len() - 1]));
        assert(init.push(ps.last()) =~= ps);
    }
}

/// After the leading root or `.`, every component is a name.
proof fn lemma_components_after_lead_are_names(s: Seq<char>)
    ensures
        forall|i: int| 1 <= i < components(s).len() ==> is_name(#[trigger] components(s)[i]),
{
    let pieces = split_on(s, '/');
    lemma_split_on_pieces_have_no_sep(s, '/');
    lemma_filter_names(pieces);
    let lead = if s.len() > 0 && s[0] == '/' {
        seq![seq!['/']]
    } else if pieces[0] == seq!['.'] {
        seq![seq!['.']]
    } else {
        Seq::<Seq<char>>::empty()
    };
    let f = pieces.filter(normal_piece());
    assert forall|i: int| 1 <= i < components(s).len() implies is_name(#[trigger] components(s)[i]) by {
        assert(components(s) == lead + f);
        if lead.len() == 1 {
            assert(components(s)[i] == f[i - 1]);
        } else {
            assert(components(s)[i] == f[i]);
        }
    }
}

proof fn lemma_join_starts_with_first(parts: Seq<Seq<char>>, sep: Seq<char>)
    requires
        parts.len() > 0,
    ensures
        join(parts, sep).len() >= parts[0].len(),
        join(parts, sep).take(parts[0].len() as int) == parts[0],
    decreases parts.len(),
{
    if parts.len() > 1 {
        lemma_join_starts_with_first(parts.drop_last(), sep);
        let j = join(parts.drop_last(), sep);
        assert((j + sep + parts.last()).take(parts[0].len() as int) =~= j.take(parts[0].len() as int));
    } else {
        assert(parts[0].take(parts[0].len() as int) =~= parts[0]);
    }
}

/// Names joined with `/` have exactly those names as components.
pub proof fn lemma_components_of_joined_names(cs: Seq<Seq<char>>)
    requires
        forall|i: int| 0 <= i < cs.len() ==> is_name(#[trigger] cs[i]),
    ensures
        components(join(cs, seq!['/'])) == cs,
{
    if cs.len() == 0 {
        let e = Seq::<char>::empty();
        assert(split_on(e, '/') =~= seq![e]);
        assert(e != seq!['.']) by {
            assert(seq!['.'].len() == 1);
        }
        reveal(Seq::filter);
        assert(seq![e].drop_last() =~= Seq::<Seq<char>>::empty());
        assert(Seq::<Seq<char>>::empty().filter(normal_piece()) =~= Seq::<Seq<char>>::empty());
        assert(!normal_piece()(seq![e].last()));
        assert(seq![e].filter(normal_piece()) =~= Seq::<Seq<char>>::empty());
        assert(components(e) =~= cs);
    } else {
        let j = join(cs, seq!['/']);
        assert(is_name(cs[0]));
        lemma_join_starts_with_first(cs, seq!['/']);
        assert(j[0] == cs[0][0]) by {
            assert(j.take(cs[0].len() as int)[0] == j[0]);
        }
        assert(cs[0][0] != '/') by {
            assert(cs[0].contains(cs[0][0]));
        }
        assert forall|i: int| 0 <= i < cs.len() implies !(#[trigger] cs[i]).contains('/') by {
            assert(is_name(cs[i]));
        }
        lemma_split_join(cs, '/');
        lemma_filter_keeps_names(cs);
        assert(components(j) =~= cs);
    }
}

/// `Tail` shows exactly the last `size` components of a longer path.
pub proof fn lemma_tail_keeps_last_components(path: Seq<char>, size: nat)
    requires
        components(path).len() > size,
    ensures
        components(spec_truncate_tail(path, size)) == components(path).skip(components(path).len() - size),
{
    let cs = components(path);
    let tail = cs.skip(cs.len() - size);
    lemma_components_after_lead_are_names(path);
    assert forall|i: int| 0 <= i < tail.len() implies is_name(#[trigger] tail[i]) by {
        assert(tail[i] == cs[i + cs.len() - size]);
    }
    lemma_components_of_joined_names(tail);
}

/// `Smart` and `Tail` show a path that has no more components than they keep
/// whole exactly as it is given.
pub proof fn lemma_short_paths_shown_unchanged(path: Seq<char>, tail_size: nat, dir_chars: nat)
    requires
        components(path).len() <= tail_size,
    ensures
        spec_truncate_smart(path, tail_size, dir_chars) == path,
        spec_truncate_tail(path, tail_size) == path,
{
}

/// `Smart` on a longer path gives, piece by piece, the leading components cut
/// to at most `dir_chars` characters followed by the last `tail_size`
/// components whole.
pub proof fn lemma_smart_pieces(path: Seq<char>, tail_size: nat, dir_chars: nat)
    requires
        components(path).len() > tail_size,
    ensures
        ({
            let cs = components(path);
            let k = cs.len() - tail_size;
            let pieces = split_on(spec_truncate_smart(path, tail_size, dir_chars), '/');
            &&& pieces.len() == cs.len()
            &&& pieces.skip(k) == cs.skip(k)
            &&& forall|i: int| 0 <= i < k ==> (#[trigger] pieces[i]).len() <= dir_chars
        }),
{
    let cs = components(path);
    let k = cs.len() - tail_size;
    let head = abbreviated(cs, k, dir_chars);
    let parts = head + cs.skip(k);
    lemma_components_after_lead_are_names(path);
    assert forall|i: int| 0 <= i < parts.len() implies !(#[trigger] parts[i]).contains('/') by {
        if i < k {
            let c = cs[i];
            assert(parts[i] == abbreviate(c, dir_chars));
            if i == 0 {
                let ps = split_on(path, '/');
                lemma_split_on_pieces_have_no_sep(path, '/');
                if !(path.len() > 0 && path[0] == '/') {
                    if ps[0] == seq!['.'] {
                        assert(!seq!['.'].contains('/')) by {
                            assert(seq!['.'][0] == '.');
                        }
                    } else {
                        lemma_split_on_nonempty(path, '/');
                        let f = ps.filter(normal_piece());
                        lemma_filter_names(ps);
                        assert(cs[0] == f[0]);
                    }
                }
            }
            if c != seq!['/'] && !(byte_len(c) <= dir_chars) && dir_chars <= c.len() {
                assert(!c.contains('/')) by {
                    if i > 0 {
                        assert(is_name(cs[i]));
                    }
                }
                assert(!c.take(dir_chars as int).contains('/')) by {
                    if c.take(dir_chars as int).contains('/') {
                        let m = choose|m: int| 0 <= m < dir_chars && c.take(dir_chars as int)[m] == '/';
                        assert(c[m] == '/');
                    }
                }
            }
            if i > 0 {
                assert(is_name(cs[i]));
            }
        } else {
            assert(parts[i] == cs[i]);
            assert(is_name(cs[i]));
        }
    }
    lemma_split_join(parts, '/');
    assert(parts.skip(k) =~= cs.skip(k));
    assert forall|i: int| 0 <= i < k implies (#[trigger] parts[i]).len() <= dir_chars by {
        let c = cs[i];
        crate::text::lemma_byte_len_ge_len(c);
        assert(parts[i] == abbreviate(c, dir_chars));
    }
}

} // verus!
