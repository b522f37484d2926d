//! Route patterns and paths as `/`-separated segments, and the rule that
//! decides whether a pattern matches a path.

use vstd::prelude::*;
use vstd::string::*;

verus! {

/// `s` with every trailing `/` removed.
pub open spec fn trim_trailing_slashes(s: Seq<char>) -> Seq<char>
    decreases s.len(),
{
    if s.len() > 0 && s.last() == '/' {
        trim_trailing_slashes(s.drop_last())
    } else {
        s
    }
}

/// The normal form of a pattern or path: trailing slashes are dropped,
/// except that the root `/` stays as it is.
pub open spec fn normalized(s: Seq<char>) -> Seq<char> {
    if s == seq!['/'] {
        s
    } else {
        trim_trailing_slashes(s)
    }
}

/// The pieces of `s` between its `/` separators, in order. Like `str::split`,
/// there is always at least one piece, and empty pieces are kept.
pub open spec fn segments(s: Seq<char>) -> Seq<Seq<char>>
    decreases s.len(),
{
    if s.len() == 0 {
        seq![Seq::<char>::empty()]
    } else {
        let prev = segments(s.drop_last());
        if s.last() == '/' {
            prev.push(Seq::<char>::empty())
        } else {
            prev.update(prev.len() - 1, prev.last().push(s.last()))
        }
    }
}

/// A pattern segment starting with `:` is a parameter and takes any
/// non-empty path segment; any other pattern segment must equal the path
/// segment exactly.
pub open spec fn segment_matches(pattern: Seq<char>, segment: Seq<char>) -> bool {
    if pattern.len() > 0 && pattern[0] == ':' {
        segment.len() > 0
    } else {
        pattern == segment
    }
}

/// `route` matches `path` when both have the same number of segments (after
/// normalizing the path) and every segment pair matches.
pub open spec fn route_matches(route: Seq<char>, path: Seq<char>) -> bool {
    let rs = segments(route);
    let ps = segments(normalized(path));
    &&& rs.len() == ps.len()
    &&& forall|i: int| 0 <= i < rs.len() ==> segment_matches(#[trigger] rs[i], ps[i])
}

/// Length of the prefix of `s` that remains once trailing slashes are removed.
fn trimmed_len(s: &str) -> (n: usize)
    ensures
        n <= s@.len(),
        trim_trailing_slashes(s@) == s@.subrange(0, n as int),
{
    let mut n = s.unicode_len();
    assert(s@.subrange(0, n as int) =~= s@);
    while n > 0 && s.get_char(n - 1) == '/'
        invariant
            n <= s@.len(),
            trim_trailing_slashes(s@) == trim_trailing_slashes(s@.subrange(0, n as int)),
        decreases n,
    {
        assert(s@.subrange(0, n as int).drop_last() =~= s@.subrange(0, n - 1));
        n = n - 1;
    }
    n
}

/// Whether `s` is exactly the root path `/`.
fn is_root(s: &str) -> (r: bool)
    ensures
        r == (s@ == seq!['/']),
{
    if s.unicode_len() == 1 && s.get_char(0) == '/' {
        assert(s@ =~= seq!['/']);
        true
    } else {
        false
    }
}

/// Normalizes a route pattern: strips trailing `/`, unless the pattern is
/// the root `/`.
pub fn clean_route(route: String) -> (r: String)
    ensures
        r@ == normalized(route@),
{
    if is_root(route.as_str()) {
        return route;
    }
    let n = trimmed_len(route.as_str());
    String::from_str(route.as_str().substring_char(0, n))
}

/// Normalizes a path: strips trailing `/`, unless the path is the root `/`.
pub fn clean_path(path: &str) -> (r: &str)
    ensures
        r@ == normalized(path@),
{
    if is_root(path) {
        return path;
    }
    let n = trimmed_len(path);
    path.substring_char(0, n)
}

/// The segments of `s`, as character vectors.
fn split_segments(s: &str) -> (r: Vec<Vec<char>>)
    ensures
        r@.len() == segments(s@).len(),
        forall|j: int| 0 <= j < r@.len() ==> (#[trigger] r@[j])@ == segments(s@)[j],
{
    let len = s.unicode_len();
    let mut done: Vec<Vec<char>> = Vec::new();
    let mut cur: Vec<char> = Vec::new();
    let mut i: usize = 0;
    assert(s@.subrange(0, 0) =~= Seq::<char>::empty());
    while i < len
        invariant
            len == s@.len(),
            i <= len,
            done@.len() + 1 == segments(s@.subrange(0, i as int)).len(),
            forall|j: int|
                0 <= j < done@.len() ==> (#[trigger] done@[j])@ == segments(
                    s@.subrange(0, i as int),
                )[j],
            cur@ == segments(s@.subrange(0, i as int)).last(),
        decreases len - i,
    {
        let c = s.get_char(i);
        let ghost prev = segments(s@.subrange(0, i as int));
        assert(s@.subrange(0, i + 1).drop_last() =~= s@.subrange(0, i as int));
        assert(s@.subrange(0, i + 1).last() == c);
        if c == '/' {
            done.push(cur);
            cur = Vec::new();
            assert(cur@ =~= Seq::<char>::empty());
        } else {
            cur.push(c);
        }
        i = i + 1;
    }
    assert(s@.subrange(0, len as int) =~= s@);
    done.push(cur);
    done
}

/// Whether two character vectors hold the same characters.
fn same_chars(a: &Vec<char>, b: &Vec<char>) -> (r: bool)
    ensures
        r == (a@ == b@),
{
    if a.len() != b.len() {
        return false;
    }
    let mut i: usize = 0;
    while i < a.len()
        invariant
            a@.len() == b@.len(),
            i <= a@.len(),
            forall|j: int| 0 <= j < i ==> a@[j] == b@[j],
        decreases a@.len() - i,
    {
        if a[i] != b[i] {
            return false;
        }
        i = i + 1;
    }
    assert(a@ =~= b@);
    true
}

/// Whether one pattern segment matches one path segment.
fn segment_matches_exec(pattern: &Vec<char>, segment: &Vec<char>) -> (r: bool)
    ensures
        r == segment_matches(pattern@, segment@),
{
    if pattern.len() > 0 && pattern[0] == ':' {
        segment.len() > 0
    } else {
        same_chars(pattern, segment)
    }
}

/// Whether the route pattern `route` matches `path`. Both are normalized
/// first, so trailing slashes on either side do not count.
pub fn route_matches_path(route: &str, path: &str) -> (r: bool)
    ensures
        r == route_matches(normalized(route@), path@),
{
    let route_pieces = split_segments(clean_path(route));
    let path_pieces = split_segments(clean_path(path));
    if route_pieces.len() != path_pieces.len() {
        return false;
    }
    let mut i: usize = 0;
    while i < route_pieces.len()
        invariant
            route_pieces@.len() == path_pieces@.len(),
            route_pieces@.len() == segments(normalized(route@)).len(),
            path_pieces@.len() == segments(normalized(path@)).len(),
            forall|j: int|
                0 <= j < route_pieces@.len() ==> (#[trigger] route_pieces@[j])@ == segments(
                    normalized(route@),
                )[j],
            forall|j: int|
                0 <= j < path_pieces@.len() ==> (#[trigger] path_pieces@[j])@ == segments(
                    normalized(path@),
                )[j],
            i <= route_pieces@.len(),
            forall|j: int|
                0 <= j < i ==> segment_matches(#[trigger] segments(normalized(route@))[j], segments(normalized(path@))[j]),
        decreases route_pieces@.len() - i,
    {
        if !segment_matches_exec(&route_pieces[i], &path_pieces[i]) {
            assert(!segment_matches(segments(normalized(route@))[i as int], segments(normalized(path@))[i as int]));
            return false;
        }
        i = i + 1;
    }
    true
}

/// Depth is significant: when a pattern and a path have different numbers
/// of segments, the pattern never matches.
pub proof fn lemma_depth_mismatch(route: Seq<char>, path: Seq<char>)
    requires
        segments(route).len() != segments(normalized(path)).len(),
    ensures
        !route_matches(route, path),
{
}

/// A parameter segment takes any non-empty path segment: when every other
/// segment pair matches, the pattern matches exactly when the path segment
/// at the parameter's place is non-empty.
pub proof fn lemma_parameter_segment(route: Seq<char>, path: Seq<char>, k: int)
    requires
        segments(route).len() == segments(normalized(path)).len(),
        0 <= k < segments(route).len(),
        segments(route)[k].len() > 0,
        segments(route)[k][0] == ':',
        forall|j: int|
            0 <= j < segments(route).len() && j != k ==> segment_matches(
                #[trigger] segments(route)[j],
                segments(normalized(path))[j],
            ),
    ensures
        route_matches(route, path) == (segments(normalized(path))[k].len() > 0),
{
}

/// The root path is never stripped.
pub proof fn lemma_root_is_normal()
    ensures
        normalized(seq!['/']) == seq!['/'],
{
}

/// A trailing slash on a path does not change whether a pattern matches it,
/// as long as something other than slashes remains.
pub proof fn lemma_path_trailing_slash(route: Seq<char>, path: Seq<char>)
    requires
        trim_trailing_slashes(path).len() > 0,
    ensures
        route_matches(route, path.push('/')) == route_matches(route, path),
{
    lemma_trailing_slash_normalized(path);
}

/// A trailing slash is dropped when a pattern or path is normalized, as
/// long as something other than slashes remains.
pub proof fn lemma_trailing_slash_normalized(s: Seq<char>)
    requires
        trim_trailing_slashes(s).len() > 0,
    ensures
        normalized(s.push('/')) == normalized(s),
{
    assert(s.push('/').drop_last() =~= s);
    if s == seq!['/'] {
        assert(s.drop_last() =~= Seq::<char>::empty());
        assert(trim_trailing_slashes(s) == trim_trailing_slashes(Seq::<char>::empty()));
    }
    if s.push('/') == seq!['/'] {
        assert(s.len() == 0);
    }
}

/// A trailing slash on a pattern does not change which paths it matches,
/// as long as something other than slashes remains.
pub proof fn lemma_pattern_trailing_slash(route: Seq<char>, path: Seq<char>)
    requires
        trim_trailing_slashes(route).len() > 0,
    ensures
        route_matches(normalized(route.push('/')), path) == route_matches(normalized(route), path),
{
    lemma_trailing_slash_normalized(route);
}

} // verus!
