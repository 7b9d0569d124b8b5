//! Matches repository-relative paths against the globs used in the config file.
//!
//! Patterns follow Ruby's `File.fnmatch` with `FNM_PATHNAME | FNM_EXTGLOB |
//! FNM_DOTMATCH`: `*`, `?` and `[...]` never cross a `/`, `**/` spans any
//! number of directories, `{a,b}` is alternation, and wildcards match dotfiles.
//! On top of that, a bare directory (`vendor` or `vendor/`) and a trailing `**`
//! (`vendor/**`) match everything beneath it.

use vstd::prelude::*;

use crate::text::{chars_of, deep, push_range};

verus! {

// ---------------------------------------------------------------------------
// The meaning of a pattern, stated over character sequences.
// ---------------------------------------------------------------------------

/// The pattern segment that continues at `i` has ended.
pub open spec fn p_end(pat: Seq<char>, i: int) -> bool {
    i >= pat.len() || pat[i] == '/'
}

/// The path segment that continues at `i` has ended.
pub open spec fn s_end(path: Seq<char>, i: int) -> bool {
    i >= path.len() || path[i] == '/'
}

/// A backslash makes the character after it literal.
pub open spec fn unesc(pat: Seq<char>, i: int) -> int {
    if 0 <= i < pat.len() && pat[i] == '\\' { i + 1 } else { i }
}

/// Where the path segment containing `s` ends: the next `/`, or the end.
pub open spec fn seg_end(path: Seq<char>, s: int) -> int
    decreases path.len() - s,
{
    if s < 0 || s_end(path, s) { s } else { seg_end(path, s + 1) }
}

/// The position after a run of `*`.
pub open spec fn skip_stars(pat: Seq<char>, p: int) -> int
    decreases pat.len() - p,
{
    if 0 <= p < pat.len() && pat[p] == '*' { skip_stars(pat, p + 1) } else { p }
}

/// Where the item of a character class starting at `p` ends, and its bounds:
/// `(first, last, next)`; a single character has `first == last`.
/// `None` when the pattern ends inside the item.
pub open spec fn class_item(pat: Seq<char>, p: int) -> Option<(int, int, int)> {
    let first = if 0 <= p < pat.len() && pat[p] == '\\' { p + 1 } else { p };
    if first < 0 || first >= pat.len() || first + 1 >= pat.len() {
        None
    } else if pat[first + 1] == '-' && !(first + 2 < pat.len() && pat[first + 2] == ']') {
        let last = if first + 2 < pat.len() && pat[first + 2] == '\\' { first + 3 } else { first + 2 };
        if last >= pat.len() { None } else { Some((first, last, last + 1)) }
    } else {
        Some((first, first, first + 1))
    }
}

/// The position of the `]` that closes the class whose items start at `p`.
pub open spec fn class_end(pat: Seq<char>, p: int) -> Option<int>
    decreases pat.len() - p,
{
    if p < 0 || p >= pat.len() {
        None
    } else if pat[p] == ']' {
        Some(p)
    } else {
        match class_item(pat, p) {
            None => None,
            Some((first, last, next)) => if next <= p { None } else { class_end(pat, next) },
        }
    }
}

/// `c` is named by an item of the class from `p` on: it equals an item's
/// first or last character, or lies between them.
pub open spec fn class_has(pat: Seq<char>, p: int, c: char) -> bool
    decreases pat.len() - p,
{
    if p < 0 || p >= pat.len() || pat[p] == ']' {
        false
    } else {
        match class_item(pat, p) {
            None => false,
            Some((first, last, next)) => if next <= p {
                false
            } else {
                c == pat[first] || c == pat[last] || (pat[first] <= c && c <= pat[last]) || class_has(pat, next, c)
            },
        }
    }
}

/// Whether the class right after a `[` at `p - 1` is negated.
pub open spec fn class_negated(pat: Seq<char>, p: int) -> bool {
    0 <= p < pat.len() && (pat[p] == '!' || pat[p] == '^')
}

/// The position after the class starting at `p` (right after its `[`), whatever it matches.
pub open spec fn class_after(pat: Seq<char>, p: int) -> Option<int> {
    if p < 0 || p >= pat.len() {
        None
    } else {
        let start = if class_negated(pat, p) { p + 1 } else { p };
        match class_end(pat, start) {
            None => None,
            Some(q) => Some(q + 1),
        }
    }
}

/// The class right after a `[` matches `c`: it is closed, and `c` is in it
/// (or, negated, not in it). Gives the position after the `]`.
pub open spec fn bracket_spec(pat: Seq<char>, p: int, c: char) -> Option<int> {
    match class_after(pat, p) {
        None => None,
        Some(a) => {
            let neg = class_negated(pat, p);
            let start = if neg { p + 1 } else { p };
            if class_has(pat, start, c) != neg { Some(a) } else { None }
        },
    }
}

/// The pattern segment from `p` matches the whole path segment from `s`:
/// `*` stands for any run of characters within the segment, `?` for one,
/// `[...]` for one in the class, `\x` for `x`, and any other character for itself.
pub open spec fn seg_match(pat: Seq<char>, p: int, path: Seq<char>, s: int) -> bool
    decreases pat.len() - p, path.len() + 2,
{
    if p < 0 || s < 0 || p > pat.len() || s > path.len() {
        false
    } else if p < pat.len() && pat[p] == '*' {
        let q = skip_stars(pat, p);
        if q <= p || q > pat.len() {
            false
        } else {
            p_end(pat, unesc(pat, q)) || star_any(pat, q, path, s, seg_end(path, s))
        }
    } else if p < pat.len() && pat[p] == '?' {
        !s_end(path, s) && seg_match(pat, p + 1, path, s + 1)
    } else if p < pat.len() && pat[p] == '[' {
        !s_end(path, s) && match bracket_spec(pat, p + 1, path[s]) {
            Some(a) => a > p && a <= pat.len() && seg_match(pat, a, path, s + 1),
            None => false,
        }
    } else {
        let a = unesc(pat, p);
        if s_end(path, s) {
            p_end(pat, a)
        } else {
            !p_end(pat, a) && pat[a] == path[s] && seg_match(pat, a + 1, path, s + 1)
        }
    }
}

/// What a `*` leaves to the rest of its segment: the pattern from `q` matches
/// the path from some position in `t..=e`.
pub open spec fn star_any(pat: Seq<char>, q: int, path: Seq<char>, t: int, e: int) -> bool
    decreases pat.len() - q + 1, path.len() + 1 - t,
{
    if t < 0 || t > e || e > path.len() || q < 0 || q > pat.len() {
        false
    } else {
        seg_match(pat, q, path, t) || star_any(pat, q, path, t + 1, e)
    }
}

/// Where the pattern segment from `p` ends when it matches: its first
/// segment end along the way, whatever path it matched.
pub open spec fn seg_np(pat: Seq<char>, p: int) -> int
    decreases pat.len() - p,
{
    if p < 0 || p >= pat.len() {
        p
    } else if pat[p] == '*' {
        let q = skip_stars(pat, p);
        if q <= p || q > pat.len() { p } else { seg_np(pat, q) }
    } else if pat[p] == '?' {
        seg_np(pat, p + 1)
    } else if pat[p] == '[' {
        match class_after(pat, p + 1) {
            Some(a) => if a > p && a <= pat.len() { seg_np(pat, a) } else { p },
            None => p,
        }
    } else {
        let a = unesc(pat, p);
        if p_end(pat, a) { a } else { seg_np(pat, a + 1) }
    }
}


/// The first start from `t` on, up to `e`, from which the pattern from `q`
/// matches the rest of the path segment; `e + 1` when there is none.
pub open spec fn first_start(pat: Seq<char>, q: int, path: Seq<char>, t: int, e: int) -> int
    decreases e + 1 - t,
{
    if t > e {
        t
    } else if seg_match(pat, q, path, t) {
        t
    } else {
        first_start(pat, q, path, t + 1, e)
    }
}

/// Where the path segment from `s` stops when the pattern segment from `p`
/// matches it: at its end, except after a trailing `*`, which stops where
/// the matching reached it, each `*` before taking the first start from
/// which the rest of the pattern matches.
pub open spec fn seg_stop(pat: Seq<char>, p: int, path: Seq<char>, s: int) -> int
    decreases pat.len() - p,
{
    if p < 0 || s < 0 || p > pat.len() || s > path.len() {
        s
    } else if p < pat.len() && pat[p] == '*' {
        let q = skip_stars(pat, p);
        if q <= p || q > pat.len() || p_end(pat, unesc(pat, q)) {
            s
        } else {
            seg_stop(pat, q, path, first_start(pat, q, path, s, seg_end(path, s)))
        }
    } else if p < pat.len() && pat[p] == '?' {
        seg_stop(pat, p + 1, path, s + 1)
    } else if p < pat.len() && pat[p] == '[' {
        if s_end(path, s) {
            s
        } else {
            match bracket_spec(pat, p + 1, path[s]) {
                Some(a) => if a > p && a <= pat.len() { seg_stop(pat, a, path, s + 1) } else { s },
                None => s,
            }
        }
    } else {
        let a = unesc(pat, p);
        if s_end(path, s) || p_end(pat, a) { s } else { seg_stop(pat, a + 1, path, s + 1) }
    }
}

/// A `**/` starts at `p`.
pub open spec fn dstar_at(pat: Seq<char>, p: int) -> bool {
    0 <= p && p + 3 <= pat.len() && pat[p] == '*' && pat[p + 1] == '*' && pat[p + 2] == '/'
}

/// The position after a run of `**/`.
pub open spec fn skip_dstars(pat: Seq<char>, p: int) -> int
    decreases pat.len() - p,
{
    if dstar_at(pat, p) { skip_dstars(pat, p + 3) } else { p }
}

/// `t` is `s`, or starts a directory entry after `s`: whole directories lie between them.
pub open spec fn dir_start(path: Seq<char>, s: int, t: int) -> bool {
    t == s || (s < t <= path.len() && path[t - 1] == '/')
}

/// The pattern from `p` (at the start of a pattern segment) matches the path
/// from `s` (at the start of a path segment): segment by segment, where a
/// `**/` stands for any number of whole directories.
pub open spec fn path_match(pat: Seq<char>, p: int, path: Seq<char>, s: int) -> bool
    decreases pat.len() - p, 2int, 0int,
{
    if p < 0 || p > pat.len() || s < 0 || s > path.len() {
        false
    } else if dstar_at(pat, p) {
        let q = skip_dstars(pat, p);
        if q <= p || q > pat.len() { false } else { dirs_any(pat, q, path, s) }
    } else {
        rest_match(pat, p, path, s)
    }
}

/// After a `**/`: the pattern from `q` matches from `t` or from the start of
/// some later directory entry.
pub open spec fn dirs_any(pat: Seq<char>, q: int, path: Seq<char>, t: int) -> bool
    decreases pat.len() - q, 1int, path.len() - t,
{
    if q < 0 || q > pat.len() || t < 0 || t > path.len() {
        false
    } else {
        rest_match(pat, q, path, t) || {
            let e = seg_end(path, t);
            t <= e < path.len() && dirs_any(pat, q, path, e + 1)
        }
    }
}

/// The pattern segment from `p` matches the path segment from `s`, and what
/// follows matches what follows: both end together, or both go on.
pub open spec fn rest_match(pat: Seq<char>, p: int, path: Seq<char>, s: int) -> bool
    decreases pat.len() - p, 0int, 0int,
{
    if p < 0 || p > pat.len() || s < 0 || s > path.len() {
        false
    } else {
        seg_match(pat, p, path, s) && {
            let np = seg_np(pat, p);
            let e = seg_end(path, s);
            if np < pat.len() {
                p <= np && e < path.len() && path_match(pat, np + 1, path, e + 1)
            } else {
                e >= path.len()
            }
        }
    }
}

/// The whole path matches the whole pattern.
pub open spec fn fn_match(pat: Seq<char>, path: Seq<char>) -> bool {
    path_match(pat, 0, path, 0)
}

/// Some directory entry after `s` starts a match of the pattern from `q`.
pub open spec fn later_dir(pat: Seq<char>, q: int, path: Seq<char>, s: int) -> bool {
    exists|t: int| s < t && dir_start(path, s, t) && #[trigger] rest_match(pat, q, path, t)
}

// ---------------------------------------------------------------------------
// Facts about the definitions.
// ---------------------------------------------------------------------------

proof fn lemma_skip_stars(pat: Seq<char>, p: int)
    requires 0 <= p <= pat.len(),
    ensures
        p <= skip_stars(pat, p) <= pat.len(),
        (p < pat.len() && pat[p] == '*') ==> skip_stars(pat, p) > p,
        !(skip_stars(pat, p) < pat.len() && pat[skip_stars(pat, p)] == '*'),
    decreases pat.len() - p,
{
    if p < pat.len() && pat[p] == '*' {
        lemma_skip_stars(pat, p + 1);
    }
}

proof fn lemma_seg_end(path: Seq<char>, s: int)
    requires 0 <= s <= path.len(),
    ensures
        s <= seg_end(path, s) <= path.len(),
        s_end(path, seg_end(path, s)),
        forall|i: int| s <= i < seg_end(path, s) ==> path[i] != '/',
    decreases path.len() - s,
{
    if !s_end(path, s) {
        lemma_seg_end(path, s + 1);
    }
}

/// Every position of a segment has the same end.
proof fn lemma_seg_end_within(path: Seq<char>, s: int, x: int)
    requires 0 <= s <= x <= seg_end(path, s), s <= path.len(),
    ensures seg_end(path, x) == seg_end(path, s),
    decreases x - s,
{
    lemma_seg_end(path, s);
    if x > s {
        assert(!s_end(path, s));
        lemma_seg_end_within(path, s + 1, x);
    }
}

proof fn lemma_class_end(pat: Seq<char>, p: int)
    requires 0 <= p,
    ensures class_end(pat, p) matches Some(q) ==> p <= q < pat.len() && pat[q] == ']',
    decreases pat.len() - p,
{
    if 0 <= p < pat.len() && pat[p] != ']' {
        if let Some((first, last, next)) = class_item(pat, p) {
            if next > p {
                lemma_class_end(pat, next);
            }
        }
    }
}

proof fn lemma_class_after(pat: Seq<char>, p: int)
    requires 0 <= p,
    ensures class_after(pat, p) matches Some(a) ==> p < a <= pat.len(),
{
    if 0 <= p < pat.len() {
        let start = if class_negated(pat, p) { p + 1 } else { p };
        lemma_class_end(pat, start);
    }
}

proof fn lemma_seg_np(pat: Seq<char>, p: int)
    requires 0 <= p <= pat.len(),
    ensures p <= seg_np(pat, p) <= pat.len(),
    decreases pat.len() - p,
{
    if p < pat.len() {
        if pat[p] == '*' {
            lemma_skip_stars(pat, p);
            lemma_seg_np(pat, skip_stars(pat, p));
        } else if pat[p] == '?' {
            lemma_seg_np(pat, p + 1);
        } else if pat[p] == '[' {
            lemma_class_after(pat, p + 1);
            if let Some(a) = class_after(pat, p + 1) {
                lemma_seg_np(pat, a);
            }
        } else {
            let a = unesc(pat, p);
            if !p_end(pat, a) {
                lemma_seg_np(pat, a + 1);
            }
        }
    }
}

/// A pattern segment that still needs characters cannot match at the end of a path segment.
proof fn lemma_seg_match_at_end(pat: Seq<char>, q: int, path: Seq<char>, e: int)
    requires
        0 <= q <= pat.len(),
        0 <= e,
        s_end(path, e),
        !(q < pat.len() && pat[q] == '*'),
        !p_end(pat, unesc(pat, q)),
    ensures !seg_match(pat, q, path, e),
{
}

// ---------------------------------------------------------------------------
// The matcher.
// ---------------------------------------------------------------------------

fn is_p_end(pat: &[char], i: usize) -> (r: bool)
    ensures r == p_end(pat@, i as int),
{
    i >= pat.len() || pat[i] == '/'
}

fn is_s_end(path: &[char], i: usize) -> (r: bool)
    ensures r == s_end(path@, i as int),
{
    i >= path.len() || path[i] == '/'
}

fn unescape(pat: &[char], i: usize) -> (r: usize)
    requires i <= pat.len(),
    ensures r as int == unesc(pat@, i as int), r <= pat.len(),
{
    if i < pat.len() && pat[i] == '\\' { i + 1 } else { i }
}

/// Ruby's `bracket`: matches `c` against the class starting right after a
/// `[`, and returns the position after its `]`. `None` when `c` is not in the
/// class, or the class is not closed.
fn bracket(pattern: &[char], p0: usize, c: char) -> (r: Option<usize>)
    requires p0 <= pattern.len(),
    ensures
        r matches Some(a) ==> bracket_spec(pattern@, p0 as int, c) == Some(a as int),
        r is None ==> bracket_spec(pattern@, p0 as int, c) is None,
{
    let end = pattern.len();
    if p0 >= end {
        return None;
    }
    let negated = pattern[p0] == '!' || pattern[p0] == '^';
    let mut p = p0;
    if negated {
        p += 1;
    }
    let ghost start = p as int;
    let mut ok = false;
    while p >= end || pattern[p] != ']'
        invariant
            end == pattern.len(),
            start <= p <= end,
            start == if negated { p0 + 1 } else { p0 as int },
            negated == class_negated(pattern@, p0 as int),
            class_end(pattern@, p as int) == class_end(pattern@, start),
            (ok || class_has(pattern@, p as int, c)) == class_has(pattern@, start, c),
        decreases end - p,
    {
        let ghost old_p = p as int;
        assert(class_has(pattern@, old_p, c) == match class_item(pattern@, old_p) {
            None => false,
            Some((first, last, next)) => if next <= old_p { false } else {
                c == pattern@[first] || c == pattern@[last] || (pattern@[first] <= c && c <= pattern@[last]) || class_has(pattern@, next, c) },
        });
        assert(class_end(pattern@, old_p) == match class_item(pattern@, old_p) {
            None => None,
            Some((first, last, next)) => if next <= old_p { None } else { class_end(pattern@, next) },
        });
        let mut first = p;
        if first < end && pattern[first] == '\\' {
            first += 1;
        }
        if first >= end {
            return None;
        }
        p = first + 1;
        if p >= end {
            return None;
        }
        if pattern[p] == '-' && !(p + 1 < end && pattern[p + 1] == ']') {
            let mut last = p + 1;
            if last < end && pattern[last] == '\\' {
                last += 1;
            }
            if last >= end {
                return None;
            }
            p = last + 1;
            if ok {
                continue;
            }
            if pattern[first] == c || pattern[last] == c {
                ok = true;
                continue;
            }
            if c < pattern[first] || c > pattern[last] {
                continue;
            }
        } else {
            if ok {
                continue;
            }
            if pattern[first] == c {
                ok = true;
            }
            continue;
        }
        ok = true;
    }
    if ok == negated {
        None
    } else {
        Some(p + 1)
    }
}


fn skip_star_run(pattern: &[char], p0: usize) -> (r: usize)
    requires p0 <= pattern.len(),
    ensures r as int == skip_stars(pattern@, p0 as int),
{
    let mut p = p0;
    while p < pattern.len() && pattern[p] == '*'
        invariant
            p0 <= p <= pattern.len(),
            skip_stars(pattern@, p as int) == skip_stars(pattern@, p0 as int),
        decreases pattern.len() - p,
    {
        p += 1;
    }
    p
}


/// `star_any` is the search it reads as: some start in the range works.
pub proof fn lemma_star_any(pat: Seq<char>, q: int, path: Seq<char>, t: int, e: int)
    requires
        0 <= q <= pat.len(),
        0 <= t,
        e <= path.len(),
    ensures
        star_any(pat, q, path, t, e) == exists|u: int| t <= u <= e && #[trigger] seg_match(pat, q, path, u),
    decreases e - t + 1,
{
    if t <= e {
        lemma_star_any(pat, q, path, t + 1, e);
        assert(star_any(pat, q, path, t, e) == (seg_match(pat, q, path, t) || star_any(pat, q, path, t + 1, e)));
        if seg_match(pat, q, path, t) {
            assert(t <= t <= e && seg_match(pat, q, path, t));
        }
        if exists|u: int| t <= u <= e && #[trigger] seg_match(pat, q, path, u) {
            let u = choose|u: int| t <= u <= e && #[trigger] seg_match(pat, q, path, u);
            if u != t {
                assert(t + 1 <= u <= e && seg_match(pat, q, path, u));
            }
        }
    }
}

proof fn lemma_star_unfold(pat: Seq<char>, p: int, path: Seq<char>, s: int)
    requires
        0 <= p < pat.len(),
        pat[p] == '*',
        0 <= s <= path.len(),
    ensures
        skip_stars(pat, p) > p,
        skip_stars(pat, p) <= pat.len(),
        seg_match(pat, p, path, s) == (p_end(pat, unesc(pat, skip_stars(pat, p))) || exists|t: int|
            s <= t <= seg_end(path, s) && #[trigger] seg_match(pat, skip_stars(pat, p), path, t)),
{
    lemma_skip_stars(pat, p);
    lemma_seg_end(path, s);
    lemma_star_any(pat, skip_stars(pat, p), path, s, seg_end(path, s));
}

/// A run that has already consumed the path up to its segment end fails from
/// every later start too: starting later, it would run past the segment end.
proof fn lemma_no_later_start(pat: Seq<char>, sp: int, p: int, path: Seq<char>, ss: int, s: int, e0: int)
    requires
        ss <= s,
        s >= e0,
        forall|t: int| ss < t <= e0 && #[trigger] seg_match(pat, sp, path, t)
            ==> t + (s - ss) <= e0 && seg_match(pat, p, path, t + (s - ss)),
    ensures
        !exists|t: int| ss < t <= e0 && #[trigger] seg_match(pat, sp, path, t),
{
    if exists|t: int| ss < t <= e0 && #[trigger] seg_match(pat, sp, path, t) {
        let t = choose|t: int| ss < t <= e0 && #[trigger] seg_match(pat, sp, path, t);
        assert(t + (s - ss) <= e0);
    }
}


/// At a new `*`, an earlier `*` has nothing left to offer: retried later, it
/// would meet this one later still, where this one's search is already covered.
proof fn lemma_star_step(
    pat: Seq<char>,
    pth: Seq<char>,
    p: int,
    s: int,
    s0: int,
    e0: int,
    has_star: bool,
    sp: int,
    ss: int,
    goal: bool,
)
    requires
        0 <= p < pat.len(),
        pat[p] == '*',
        0 <= s0 <= s <= e0,
        e0 == seg_end(pth, s0),
        s0 <= pth.len(),
        !p_end(pat, unesc(pat, skip_stars(pat, p))),
        !has_star ==> goal == seg_match(pat, p, pth, s),
        has_star ==> s0 <= ss <= s,
        has_star ==> goal == (seg_match(pat, p, pth, s) || exists|t: int|
            ss < t <= e0 && #[trigger] seg_match(pat, sp, pth, t)),
        has_star ==> forall|t: int|
            ss < t <= e0 && #[trigger] seg_match(pat, sp, pth, t) ==> t + (s - ss) <= e0
                && seg_match(pat, p, pth, t + (s - ss)),
    ensures
        goal == (seg_match(pat, skip_stars(pat, p), pth, s) || exists|t: int|
            s < t <= e0 && #[trigger] seg_match(pat, skip_stars(pat, p), pth, t)),
{
    let q = skip_stars(pat, p);
    lemma_seg_end(pth, s0);
    lemma_seg_end_within(pth, s0, s);
    lemma_star_unfold(pat, p, pth, s);
    if has_star {
        if exists|t: int| ss < t <= e0 && #[trigger] seg_match(pat, sp, pth, t) {
            let t = choose|t: int| ss < t <= e0 && #[trigger] seg_match(pat, sp, pth, t);
            let uu = t + (s - ss);
            assert(seg_match(pat, p, pth, uu));
            lemma_seg_end_within(pth, s0, uu);
            lemma_star_unfold(pat, p, pth, uu);
            let t2 = choose|t2: int| uu <= t2 <= seg_end(pth, uu) && #[trigger] seg_match(pat, q, pth, t2);
            assert(s <= t2 <= seg_end(pth, s) && seg_match(pat, q, pth, t2));
        }
    }
    assert(goal == seg_match(pat, p, pth, s));
    if exists|t: int| s <= t <= e0 && #[trigger] seg_match(pat, q, pth, t) {
        let t = choose|t: int| s <= t <= e0 && #[trigger] seg_match(pat, q, pth, t);
        if t != s {
            assert(s < t <= e0 && seg_match(pat, q, pth, t));
        }
    }
    if seg_match(pat, q, pth, s) {
        assert(s <= s <= e0 && seg_match(pat, q, pth, s));
    }
    if exists|t: int| s < t <= e0 && #[trigger] seg_match(pat, q, pth, t) {
        let t = choose|t: int| s < t <= e0 && #[trigger] seg_match(pat, q, pth, t);
        assert(s <= t <= e0 && seg_match(pat, q, pth, t));
    }
}

/// Ruby's `fnmatch_helper`: matches one path segment against one pattern
/// segment, both ending at a `/` or at their end. Returns whether they
/// matched and where each one stopped.
#[verifier::rlimit(40)]
fn match_segment(pattern: &[char], p0: usize, path: &[char], s0: usize) -> (r: (bool, usize, usize))
    requires
        p0 <= pattern.len(),
        s0 <= path.len(),
    ensures
        r.0 == seg_match(pattern@, p0 as int, path@, s0 as int),
        r.0 ==> r.1 as int == seg_np(pattern@, p0 as int) && s0 <= r.2 <= seg_end(path@, s0 as int),
        r.0 ==> r.2 as int == seg_stop(pattern@, p0 as int, path@, s0 as int),
{
    let ghost pat = pattern@;
    let ghost pth = path@;
    let ghost e0 = seg_end(pth, s0 as int);
    let ghost goal = seg_match(pat, p0 as int, pth, s0 as int);
    proof {
        lemma_seg_end(pth, s0 as int);
    }
    let mut p = p0;
    let mut s = s0;
    let mut star: Option<(usize, usize)> = None;
    loop
        invariant
            pat == pattern@,
            pth == path@,
            goal == seg_match(pat, p0 as int, pth, s0 as int),
            p <= pattern.len(),
            s0 <= s <= e0,
            e0 == seg_end(pth, s0 as int),
            e0 <= path.len(),
            s_end(pth, e0),
            forall|i: int| s0 <= i < e0 ==> pth[i] != '/',
            seg_np(pat, p as int) == seg_np(pat, p0 as int),
            star is None ==> goal == seg_match(pat, p as int, pth, s as int),
            star matches Some((sp, ss)) ==> sp <= pattern.len() && s0 <= ss <= s,
            star matches Some((sp, ss)) ==> !(sp < pattern.len() && pat[sp as int] == '*'),
            star matches Some((sp, ss)) ==> seg_np(pat, sp as int) == seg_np(pat, p0 as int),
            star matches Some((sp, ss)) ==> (s == ss ==> p == sp),
            star is Some ==> goal == (seg_match(pat, p as int, pth, s as int) || exists|t: int|
                star.unwrap().1 < t <= e0 && #[trigger] seg_match(pat, star.unwrap().0 as int, pth, t)),
            star matches Some((sp, ss)) ==> forall|t: int|
                ss < t <= e0 && #[trigger] seg_match(pat, sp as int, pth, t) ==> t + (s - ss)
                    <= e0 && seg_match(pat, p as int, pth, t + (s - ss)),
            star is None ==> (goal ==> seg_stop(pat, p0 as int, pth, s0 as int) == seg_stop(pat, p as int, pth, s as int)),
            star matches Some((sp, ss)) ==> (goal ==> seg_stop(pat, p0 as int, pth, s0 as int) == seg_stop(
                pat,
                sp as int,
                pth,
                first_start(pat, sp as int, pth, ss as int, e0),
            )),
            star matches Some((sp, ss)) ==> seg_match(pat, sp as int, pth, ss as int) == seg_match(pat, p as int, pth, s as int),
            star matches Some((sp, ss)) ==> seg_stop(pat, sp as int, pth, ss as int) == seg_stop(pat, p as int, pth, s as int),
        decreases
            (match star {
                None => path.len() + 1,
                Some(x) => path.len() - x.1,
            }),
            pattern.len() - p + path.len() - s,
    {
        let ghost p_orig = p as int;
        proof {
            lemma_seg_end_within(pth, s0 as int, s as int);
        }
        if p < pattern.len() && pattern[p] == '*' {
            proof {
                lemma_skip_stars(pat, p_orig);
            }
            p = skip_star_run(pattern, p);
            let ghost q = p as int;
            assert(q == skip_stars(pat, p_orig));
            proof {
                lemma_star_unfold(pat, p_orig, pth, s as int);
            }
            assert(q > p_orig && q <= pat.len());
            assert(seg_end(pth, s as int) == e0);
            assert(seg_match(pat, p_orig, pth, s as int) == (p_end(pat, unesc(pat, q)) || exists|t: int|
                s <= t <= e0 && #[trigger] seg_match(pat, q, pth, t)));
            assert(seg_np(pat, p_orig) == seg_np(pat, q));
            let u = unescape(pattern, p);
            if is_p_end(pattern, u) {
                assert(seg_match(pat, p_orig, pth, s as int));
                assert(seg_np(pat, q) == u);
                return (true, u, s);
            }
            if is_s_end(path, s) {
                proof {
                    lemma_seg_match_at_end(pat, q, pth, s as int);
                    assert(!seg_match(pat, p_orig, pth, s as int));
                    if let Some((sp, ss)) = star {
                        lemma_no_later_start(pat, sp as int, p_orig, pth, ss as int, s as int, e0);
                    }
                }
                return (false, p, s);
            }
            proof {
                match star {
                    None => lemma_star_step(pat, pth, p_orig, s as int, s0 as int, e0, false, 0, 0, goal),
                    Some((sp, ss)) => lemma_star_step(pat, pth, p_orig, s as int, s0 as int, e0, true, sp as int, ss as int, goal),
                }
            }
            assert(goal == (seg_match(pat, p as int, pth, s as int) || exists|t: int|
                s < t <= e0 && #[trigger] seg_match(pat, p as int, pth, t)));
            star = Some((p, s));
            assert(star.unwrap().1 == s && star.unwrap().0 == p);
            assert(goal == (seg_match(pat, p as int, pth, s as int) || exists|t: int|
                star.unwrap().1 < t <= e0 && #[trigger] seg_match(pat, star.unwrap().0 as int, pth, t)));
            continue;
        }
        if p < pattern.len() && pattern[p] == '?' {
            if is_s_end(path, s) {
                assert(!seg_match(pat, p_orig, pth, s as int));
                proof {
                    if let Some((sp, ss)) = star {
                        lemma_no_later_start(pat, sp as int, p_orig, pth, ss as int, s as int, e0);
                    }
                }
                assert(!goal);
                return (false, p, s);
            }
            proof {
                if let Some((sp, ss)) = star {
                    assert forall|t: int|
                        ss < t <= e0 && #[trigger] seg_match(pat, sp as int, pth, t) implies t + (s
                            + 1 - ss) <= e0 && seg_match(pat, p_orig + 1, pth, t + (s + 1 - ss)) by {
                        let uu = t + (s - ss);
                        assert(seg_match(pat, p_orig, pth, uu));
                    }
                }
            }
            p += 1;
            s += 1;
            continue;
        }
        let mut failed = false;
        if p < pattern.len() && pattern[p] == '[' {
            if is_s_end(path, s) {
                proof {
                    if let Some((sp, ss)) = star {
                        lemma_no_later_start(pat, sp as int, p_orig, pth, ss as int, s as int, e0);
                    }
                }
                return (false, p, s);
            }
            match bracket(pattern, p + 1, path[s]) {
                Some(after) => {
                    proof {
                        lemma_class_after(pat, p_orig + 1);
                        if let Some((sp, ss)) = star {
                            assert forall|t: int|
                                ss < t <= e0 && #[trigger] seg_match(pat, sp as int, pth, t) implies t
                                    + (s + 1 - ss) <= e0 && seg_match(pat, after as int, pth, t + (s + 1 - ss)) by {
                                let uu = t + (s - ss);
                                assert(seg_match(pat, p_orig, pth, uu));
                            }
                        }
                    }
                    p = after;
                    s += 1;
                    continue;
                },
                None => {
                    failed = true;
                },
            }
        }
        if !failed {
            p = unescape(pattern, p);
            if is_s_end(path, s) {
                let m = is_p_end(pattern, p);
                proof {
                    if !m {
                        if let Some((sp, ss)) = star {
                            lemma_no_later_start(pat, sp as int, p_orig, pth, ss as int, s as int, e0);
                        }
                    }
                }
                return (m, p, s);
            }
            if !is_p_end(pattern, p) && pattern[p] == path[s] {
                proof {
                    if let Some((sp, ss)) = star {
                        assert forall|t: int|
                            ss < t <= e0 && #[trigger] seg_match(pat, sp as int, pth, t) implies t + (s
                                + 1 - ss) <= e0 && seg_match(pat, p + 1, pth, t + (s + 1 - ss)) by {
                            let uu = t + (s - ss);
                            assert(seg_match(pat, p_orig, pth, uu));
                        }
                    }
                }
                p += 1;
                s += 1;
                continue;
            }
        }
        // Let the last `*` swallow one more character, and try again.
        assert(!seg_match(pat, p_orig, pth, s as int));
        match star {
            Some((star_p, star_s)) => {
                proof {
                    if exists|t: int| star_s < t <= e0 && #[trigger] seg_match(pat, star_p as int, pth, t) {
                        let t = choose|t: int| star_s < t <= e0 && #[trigger] seg_match(pat, star_p as int, pth, t);
                        if t != star_s + 1 {
                            assert(star_s + 1 < t <= e0 && seg_match(pat, star_p as int, pth, t));
                        }
                    }
                    if seg_match(pat, star_p as int, pth, star_s + 1) {
                        assert(star_s < star_s + 1 <= e0 && seg_match(pat, star_p as int, pth, star_s + 1));
                    }
                    if exists|t: int| star_s + 1 < t <= e0 && #[trigger] seg_match(pat, star_p as int, pth, t) {
                        let t = choose|t: int| star_s + 1 < t <= e0 && #[trigger] seg_match(pat, star_p as int, pth, t);
                        assert(star_s < t <= e0 && seg_match(pat, star_p as int, pth, t));
                    }
                }
                p = star_p;
                s = star_s + 1;
                assert(goal == (seg_match(pat, p as int, pth, s as int) || exists|t: int|
                    s < t <= e0 && #[trigger] seg_match(pat, p as int, pth, t)));
                star = Some((star_p, s));
                assert(star.unwrap().1 == s && star.unwrap().0 == p);
                assert(goal == (seg_match(pat, p as int, pth, s as int) || exists|t: int|
                    star.unwrap().1 < t <= e0 && #[trigger] seg_match(pat, star.unwrap().0 as int, pth, t)));
            },
            None => {
                return (false, p, s);
            },
        }
    }
}

proof fn lemma_skip_dstars(pat: Seq<char>, p: int)
    requires 0 <= p <= pat.len(),
    ensures
        p <= skip_dstars(pat, p) <= pat.len(),
        dstar_at(pat, p) ==> skip_dstars(pat, p) > p,
        !dstar_at(pat, skip_dstars(pat, p)),
    decreases pat.len() - p,
{
    if dstar_at(pat, p) {
        lemma_skip_dstars(pat, p + 3);
    }
}

/// `dirs_any` is the search it reads as: some directory start from `t` on works.
pub proof fn lemma_dirs_any(pat: Seq<char>, q: int, path: Seq<char>, t: int)
    requires
        0 <= q <= pat.len(),
        0 <= t <= path.len(),
    ensures
        dirs_any(pat, q, path, t) == exists|u: int| dir_start(path, t, u) && #[trigger] rest_match(pat, q, path, u),
    decreases path.len() - t,
{
    lemma_seg_end(path, t);
    let e = seg_end(path, t);
    if e < path.len() {
        lemma_dirs_any(pat, q, path, e + 1);
    }
    if exists|u: int| dir_start(path, t, u) && #[trigger] rest_match(pat, q, path, u) {
        let u = choose|u: int| dir_start(path, t, u) && #[trigger] rest_match(pat, q, path, u);
        if u != t {
            assert(path[u - 1] == '/');
            assert(u - 1 >= e);
            assert(dir_start(path, e + 1, u));
        }
    }
    if rest_match(pat, q, path, t) {
        assert(dir_start(path, t, t));
    }
    if e < path.len() && dirs_any(pat, q, path, e + 1) {
        let u = choose|u: int| dir_start(path, e + 1, u) && #[trigger] rest_match(pat, q, path, u);
        assert(dir_start(path, t, u));
    }
}

/// What is left after `s` for a `**/` at `q`: the next directory entry on.
proof fn lemma_later_dir(pat: Seq<char>, q: int, path: Seq<char>, s: int)
    requires
        0 <= q <= pat.len(),
        0 <= s <= path.len(),
    ensures
        seg_end(path, s) < path.len() ==> later_dir(pat, q, path, s) == dirs_any(pat, q, path, seg_end(path, s) + 1),
        seg_end(path, s) >= path.len() ==> !later_dir(pat, q, path, s),
{
    lemma_seg_end(path, s);
    let e = seg_end(path, s);
    if e < path.len() {
        lemma_dirs_any(pat, q, path, e + 1);
        if later_dir(pat, q, path, s) {
            let t = choose|t: int| s < t && dir_start(path, s, t) && #[trigger] rest_match(pat, q, path, t);
            assert(t - 1 >= e);
            assert(dir_start(path, e + 1, t));
        }
        if dirs_any(pat, q, path, e + 1) {
            let u = choose|u: int| dir_start(path, e + 1, u) && #[trigger] rest_match(pat, q, path, u);
            assert(s < u && dir_start(path, s, u));
        }
    } else {
        if later_dir(pat, q, path, s) {
            let t = choose|t: int| s < t && dir_start(path, s, t) && #[trigger] rest_match(pat, q, path, t);
            assert(path[t - 1] == '/');
        }
    }
}

/// At a new `**/`, an earlier one has nothing left to offer: retried at a
/// later directory, it would meet this one at a later directory still.
proof fn lemma_dstar_step(
    pat: Seq<char>,
    pth: Seq<char>,
    p: int,
    s: int,
    has_star: bool,
    sq: int,
    ss: int,
    goal: bool,
)
    requires
        0 <= p <= pat.len(),
        0 <= s <= pth.len(),
        dstar_at(pat, p),
        !has_star ==> goal == path_match(pat, p, pth, s),
        has_star ==> goal == (path_match(pat, p, pth, s) || later_dir(pat, sq, pth, ss)),
        has_star ==> forall|t: int|
            ss < t && dir_start(pth, ss, t) && #[trigger] rest_match(pat, sq, pth, t) ==> exists|u: int|
                s < u && dir_start(pth, s, u) && #[trigger] path_match(pat, p, pth, u),
    ensures
        skip_dstars(pat, p) > p,
        skip_dstars(pat, p) <= pat.len(),
        !dstar_at(pat, skip_dstars(pat, p)),
        goal == (rest_match(pat, skip_dstars(pat, p), pth, s) || later_dir(pat, skip_dstars(pat, p), pth, s)),
{
    lemma_skip_dstars(pat, p);
    let q = skip_dstars(pat, p);
    lemma_dirs_any(pat, q, pth, s);
    if has_star && later_dir(pat, sq, pth, ss) {
        let t = choose|t: int| ss < t && dir_start(pth, ss, t) && #[trigger] rest_match(pat, sq, pth, t);
        let u = choose|u: int| s < u && dir_start(pth, s, u) && #[trigger] path_match(pat, p, pth, u);
        assert(dirs_any(pat, q, pth, u));
        lemma_dirs_any(pat, q, pth, u);
        let w = choose|w: int| dir_start(pth, u, w) && #[trigger] rest_match(pat, q, pth, w);
        assert(dir_start(pth, s, w));
    }
    assert(goal == dirs_any(pat, q, pth, s));
    if rest_match(pat, q, pth, s) {
        assert(dir_start(pth, s, s));
    }
    if later_dir(pat, q, pth, s) {
        let t = choose|t: int| s < t && dir_start(pth, s, t) && #[trigger] rest_match(pat, q, pth, t);
        assert(dir_start(pth, s, t));
    }
    if dirs_any(pat, q, pth, s) {
        let u = choose|u: int| dir_start(pth, s, u) && #[trigger] rest_match(pat, q, pth, u);
        if u != s {
            assert(s < u && dir_start(pth, s, u) && rest_match(pat, q, pth, u));
        }
    }
}

/// Matching one more segment keeps every retry of the last `**/` ahead of the current position.
proof fn lemma_dstar_advance(
    pat: Seq<char>,
    pth: Seq<char>,
    p: int,
    s: int,
    sq: int,
    ss: int,
)
    requires
        0 <= p <= pat.len(),
        0 <= s <= pth.len(),
        !dstar_at(pat, p),
        seg_np(pat, p) < pat.len(),
        seg_end(pth, s) < pth.len(),
        forall|t: int|
            ss < t && dir_start(pth, ss, t) && #[trigger] rest_match(pat, sq, pth, t) ==> exists|u: int|
                s < u && dir_start(pth, s, u) && #[trigger] path_match(pat, p, pth, u),
    ensures
        forall|t: int|
            ss < t && dir_start(pth, ss, t) && #[trigger] rest_match(pat, sq, pth, t) ==> exists|u: int|
                seg_end(pth, s) + 1 < u && dir_start(pth, seg_end(pth, s) + 1, u)
                    && #[trigger] path_match(pat, seg_np(pat, p) + 1, pth, u),
{
    lemma_seg_end(pth, s);
    let e = seg_end(pth, s);
    let np = seg_np(pat, p);
    assert forall|t: int|
        ss < t && dir_start(pth, ss, t) && #[trigger] rest_match(pat, sq, pth, t) implies exists|u: int|
            e + 1 < u && dir_start(pth, e + 1, u) && #[trigger] path_match(pat, np + 1, pth, u) by {
        let u = choose|u: int| s < u && dir_start(pth, s, u) && #[trigger] path_match(pat, p, pth, u);
        assert(rest_match(pat, p, pth, u));
        assert(u - 1 >= e);
        lemma_seg_end(pth, u);
        let eu = seg_end(pth, u);
        assert(path_match(pat, np + 1, pth, eu + 1));
        assert(e + 1 < eu + 1 && dir_start(pth, e + 1, eu + 1));
    }
}

fn starts_dstar(pattern: &[char], p: usize) -> (r: bool)
    ensures r == dstar_at(pattern@, p as int),
{
    p < pattern.len() && pattern.len() - p >= 3 && pattern[p] == '*' && pattern[p + 1] == '*'
        && pattern[p + 2] == '/'
}

fn skip_dstar_run(pattern: &[char], p0: usize) -> (r: usize)
    requires p0 <= pattern.len(),
    ensures r as int == skip_dstars(pattern@, p0 as int),
{
    let mut p = p0;
    while starts_dstar(pattern, p)
        invariant
            p0 <= p <= pattern.len(),
            skip_dstars(pattern@, p as int) == skip_dstars(pattern@, p0 as int),
        decreases pattern.len() - p,
    {
        p += 3;
    }
    p
}

/// The end of the path segment containing `s`.
fn segment_end(path: &[char], s0: usize) -> (r: usize)
    requires s0 <= path.len(),
    ensures r as int == seg_end(path@, s0 as int),
{
    let mut s = s0;
    while s < path.len() && path[s] != '/'
        invariant
            s0 <= s <= path.len(),
            seg_end(path@, s as int) == seg_end(path@, s0 as int),
        decreases path.len() - s,
    {
        s += 1;
    }
    s
}

/// Ruby's `fnmatch` in pathname mode: matches segment by segment, and on a
/// `**/` retries the rest of the pattern at each deeper directory.
#[verifier::rlimit(40)]
fn fnmatch(pattern: &[char], path: &[char]) -> (r: bool)
    ensures r == fn_match(pattern@, path@),
{
    let ghost pat = pattern@;
    let ghost pth = path@;
    let ghost goal = fn_match(pat, pth);
    let mut p: usize = 0;
    let mut s: usize = 0;
    let mut star_star: Option<(usize, usize)> = None;
    loop
        invariant
            pat == pattern@,
            pth == path@,
            goal == path_match(pat, 0, pth, 0),
            p <= pattern.len(),
            s <= path.len(),
            star_star is None ==> goal == path_match(pat, p as int, pth, s as int),
            star_star is Some ==> star_star.unwrap().0 <= pattern.len() && star_star.unwrap().1 <= s,
            star_star is Some ==> !dstar_at(pat, star_star.unwrap().0 as int),
            star_star is Some ==> (s == star_star.unwrap().1 ==> p == star_star.unwrap().0),
            star_star is Some ==> goal == (path_match(pat, p as int, pth, s as int) || later_dir(
                pat,
                star_star.unwrap().0 as int,
                pth,
                star_star.unwrap().1 as int,
            )),
            star_star is Some ==> forall|t: int|
                star_star.unwrap().1 < t && dir_start(pth, star_star.unwrap().1 as int, t)
                    && #[trigger] rest_match(pat, star_star.unwrap().0 as int, pth, t) ==> exists|u: int|
                    s < u && dir_start(pth, s as int, u) && #[trigger] path_match(pat, p as int, pth, u),
        decreases
            (match star_star {
                None => path.len() + 1,
                Some(x) => path.len() - x.1,
            }),
            pattern.len() - p,
    {
        if starts_dstar(pattern, p) {
            proof {
                match star_star {
                    None => lemma_dstar_step(pat, pth, p as int, s as int, false, 0, 0, goal),
                    Some((sq, ss)) => lemma_dstar_step(pat, pth, p as int, s as int, true, sq as int, ss as int, goal),
                }
            }
            p = skip_dstar_run(pattern, p);
            star_star = Some((p, s));
            assert(star_star.unwrap().1 == s && star_star.unwrap().0 == p);
            assert forall|t: int|
                star_star.unwrap().1 < t && dir_start(pth, star_star.unwrap().1 as int, t)
                    && #[trigger] rest_match(pat, star_star.unwrap().0 as int, pth, t) implies exists|u: int|
                    s < u && dir_start(pth, s as int, u) && #[trigger] path_match(pat, p as int, pth, u) by {
                assert(path_match(pat, p as int, pth, t));
            }
        }
        // Here the pattern does not start with `**/`, so matching from here is `rest_match`.
        assert(path_match(pat, p as int, pth, s as int) == rest_match(pat, p as int, pth, s as int));
        let (matched, next_p, next_s) = match_segment(pattern, p, path, s);
        if matched {
            proof {
                lemma_seg_end(pth, s as int);
                lemma_seg_end_within(pth, s as int, next_s as int);
                lemma_seg_np(pat, p as int);
            }
            let e = segment_end(path, next_s);
            if next_p < pattern.len() && e < path.len() {
                proof {
                    if star_star is Some {
                        lemma_dstar_advance(pat, pth, p as int, s as int, star_star.unwrap().0 as int, star_star.unwrap().1 as int);
                    }
                }
                p = next_p + 1;
                s = e + 1;
                continue;
            }
            if next_p >= pattern.len() && e >= path.len() {
                return true;
            }
        }
        assert(!path_match(pat, p as int, pth, s as int));
        // Let the last `**/` swallow one more directory, and try again.
        if let Some((retry_p, retry_from)) = star_star {
            proof {
                lemma_later_dir(pat, retry_p as int, pth, retry_from as int);
                lemma_seg_end(pth, retry_from as int);
            }
            let retry_end = segment_end(path, retry_from);
            if retry_end < path.len() {
                let retry_s = retry_end + 1;
                proof {
                    lemma_dirs_any(pat, retry_p as int, pth, retry_s as int);
                    lemma_later_dir(pat, retry_p as int, pth, retry_s as int);
                    lemma_seg_end(pth, retry_s as int);
                }
                p = retry_p;
                s = retry_s;
                star_star = Some((retry_p, retry_s));
                assert(star_star.unwrap().1 == s && star_star.unwrap().0 == p);
                assert forall|t: int|
                    star_star.unwrap().1 < t && dir_start(pth, star_star.unwrap().1 as int, t)
                        && #[trigger] rest_match(pat, star_star.unwrap().0 as int, pth, t) implies exists|u: int|
                        s < u && dir_start(pth, s as int, u) && #[trigger] path_match(pat, p as int, pth, u) by {
                    assert(path_match(pat, p as int, pth, t));
                }
                continue;
            }
        }
        return false;
    }
}

// ---------------------------------------------------------------------------
// Brace alternation and the directory conveniences.
// ---------------------------------------------------------------------------

/// Scans for the first unescaped `{` and its matching `}` from `i`, with
/// `lb` the `{` found so far and `nest` the depth.
pub open spec fn brace_scan(pat: Seq<char>, i: int, lb: Option<int>, nest: int) -> (Option<int>, Option<int>)
    decreases pat.len() - i,
{
    if i < 0 || i >= pat.len() {
        (lb, None)
    } else if pat[i] == '{' {
        brace_scan(pat, i + 1, if nest == 0 { Some(i) } else { lb }, nest + 1)
    } else if pat[i] == '}' && lb is Some {
        if nest - 1 == 0 { (lb, Some(i)) } else { brace_scan(pat, i + 1, lb, nest - 1) }
    } else if pat[i] == '\\' {
        if i + 1 >= pat.len() { (lb, None) } else { brace_scan(pat, i + 2, lb, nest) }
    } else {
        brace_scan(pat, i + 1, lb, nest)
    }
}

/// The end of the alternative starting at `p` inside a group closing at
/// `right`: the next `,` outside nested groups, or the `}`.
pub open spec fn alt_end(pat: Seq<char>, p: int, right: int, nest: int) -> int
    decreases right - p,
{
    if p < 0 || p >= right || right > pat.len() || (pat[p] == ',' && nest == 0) {
        p
    } else if pat[p] == '{' {
        alt_end(pat, p + 1, right, nest + 1)
    } else if pat[p] == '}' {
        alt_end(pat, p + 1, right, nest - 1)
    } else if pat[p] == '\\' {
        if p + 1 == right { right } else { alt_end(pat, p + 2, right, nest) }
    } else {
        alt_end(pat, p + 1, right, nest)
    }
}

/// The patterns a pattern stands for once its braces are expanded: the first
/// top-level `{...}` gives one pattern per alternative, each expanded in turn.
/// A `{` without its `}` gives none at all.
pub open spec fn brace_spec(pat: Seq<char>) -> Seq<Seq<char>>
    decreases pat.len(), pat.len() + 1,
{
    match brace_scan(pat, 0, None, 0) {
        (Some(l), Some(r)) => if 0 <= l < r < pat.len() { expand_alts(pat, l, r, l) } else { seq![] },
        (None, None) => seq![pat],
        _ => seq![],
    }
}

/// The expansions of the alternatives of the group `left..=right` that come
/// after position `p` (the `{` or a `,`).
pub open spec fn expand_alts(pat: Seq<char>, left: int, right: int, p: int) -> Seq<Seq<char>>
    decreases pat.len(), right - p,
{
    if p < left || p >= right || left < 0 || right >= pat.len() {
        seq![]
    } else {
        let start = p + 1;
        let q = alt_end(pat, start, right, 0);
        if q < start || q > right {
            seq![]
        } else {
            let alt = pat.subrange(0, left) + pat.subrange(start, q) + pat.subrange(right + 1, pat.len() as int);
            brace_spec(alt) + expand_alts(pat, left, right, q)
        }
    }
}

proof fn lemma_brace_scan(pat: Seq<char>, i: int, lb: Option<int>, nest: int)
    requires
        0 <= i,
        0 <= nest,
        lb is None ==> nest == 0,
        lb matches Some(l) ==> 0 <= l < i && nest >= 1,
    ensures
        brace_scan(pat, i, lb, nest) matches (Some(l), Some(r)) ==> 0 <= l < r < pat.len(),
    decreases pat.len() - i,
{
    if 0 <= i < pat.len() {
        if pat[i] == '{' {
            lemma_brace_scan(pat, i + 1, if nest == 0 { Some(i) } else { lb }, nest + 1);
        } else if pat[i] == '}' && lb is Some {
            if nest - 1 != 0 {
                lemma_brace_scan(pat, i + 1, lb, nest - 1);
            }
        } else if pat[i] == '\\' {
            if i + 1 < pat.len() {
                lemma_brace_scan(pat, i + 2, lb, nest);
            }
        } else {
            lemma_brace_scan(pat, i + 1, lb, nest);
        }
    }
}

proof fn lemma_alt_end(pat: Seq<char>, p: int, right: int, nest: int)
    requires 0 <= p <= right <= pat.len(),
    ensures p <= alt_end(pat, p, right, nest) <= right,
    decreases right - p,
{
    if p < right && !(pat[p] == ',' && nest == 0) {
        if pat[p] == '{' {
            lemma_alt_end(pat, p + 1, right, nest + 1);
        } else if pat[p] == '}' {
            lemma_alt_end(pat, p + 1, right, nest - 1);
        } else if pat[p] == '\\' {
            if p + 1 != right {
                lemma_alt_end(pat, p + 2, right, nest);
            }
        } else {
            lemma_alt_end(pat, p + 1, right, nest);
        }
    }
}

/// Expands the first top-level `{...}` group into one pattern per
/// alternative, recursively. A `{` without its `}` yields nothing at all,
/// as in Ruby, so such a pattern never matches.
fn brace_expand(pattern: &[char], out: &mut Vec<Vec<char>>)
    ensures deep(final(out)@) == deep(old(out)@) + brace_spec(pattern@),
    decreases pattern.len(),
{
    let ghost pat = pattern@;
    let mut lbrace: Option<usize> = None;
    let mut rbrace: Option<usize> = None;
    let mut nest: usize = 0;
    let mut i: usize = 0;
    while i < pattern.len()
        invariant_except_break
            rbrace is None,
            brace_scan(pat, i as int, match lbrace { Some(l) => Some(l as int), None => None }, nest as int)
                == brace_scan(pat, 0, None, 0),
            lbrace matches Some(l) ==> l < i && nest >= 1,
        invariant
            pat == pattern@,
            nest <= i,
            lbrace is None ==> nest == 0,
        ensures
            (match lbrace { Some(l) => Some(l as int), None => None }, match rbrace { Some(r) => Some(r as int), None => None })
                == brace_scan(pat, 0, None, 0),
        decreases pattern.len() - i,
    {
        let c = pattern[i];
        if c == '{' {
            if nest == 0 {
                lbrace = Some(i);
            }
            nest += 1;
        }
        if c == '}' && lbrace.is_some() {
            nest -= 1;
            if nest == 0 {
                rbrace = Some(i);
                break;
            }
        }
        if c == '\\' {
            i += 1;
            if i >= pattern.len() {
                break;
            }
        }
        i += 1;
    }
    proof {
        lemma_brace_scan(pat, 0, None, 0);
    }
    match (lbrace, rbrace) {
        (Some(left), Some(right)) => {
            let ghost out0 = deep(out@);
            let mut p = left;
            while p < right
                invariant
                    pat == pattern@,
                    left <= p <= right < pattern.len(),
                    brace_spec(pat) == expand_alts(pat, left as int, right as int, left as int),
                    out0 + expand_alts(pat, left as int, right as int, left as int)
                        == deep(out@) + expand_alts(pat, left as int, right as int, p as int),
                decreases right - p,
            {
                p += 1;
                let start = p;
                // The depth of nested groups is `opened - closed`.
                let mut opened: usize = 0;
                let mut closed: usize = 0;
                while p < right && !(pattern[p] == ',' && opened == closed)
                    invariant
                        pat == pattern@,
                        start <= p <= right < pattern.len(),
                        opened <= p,
                        closed <= p,
                        alt_end(pat, p as int, right as int, opened - closed) == alt_end(pat, start as int, right as int, 0),
                    ensures
                        p as int == alt_end(pat, start as int, right as int, 0),
                        start <= p <= right,
                    decreases right - p,
                {
                    if pattern[p] == '{' {
                        opened += 1;
                    } else if pattern[p] == '}' {
                        closed += 1;
                    } else if pattern[p] == '\\' {
                        p += 1;
                        if p == right {
                            break;
                        }
                    }
                    p += 1;
                }
                assert(p as int == alt_end(pat, start as int, right as int, 0));
                let mut alternative: Vec<char> = Vec::new();
                push_range(&mut alternative, pattern, 0, left);
                push_range(&mut alternative, pattern, start, p);
                push_range(&mut alternative, pattern, right + 1, pattern.len());
                let ghost before = deep(out@);
                brace_expand(alternative.as_slice(), out);
                proof {
                    assert(deep(out@) == before + brace_spec(alternative@));
                    assert(out0 + expand_alts(pat, left as int, right as int, left as int) == deep(out@)
                        + expand_alts(pat, left as int, right as int, p as int));
                }
            }
        },
        (None, None) => {
            let ghost before = deep(out@);
            let mut whole: Vec<char> = Vec::new();
            push_range(&mut whole, pattern, 0, pattern.len());
            assert(pat.subrange(0, pat.len() as int) == pat);
            out.push(whole);
            assert(deep(out@) == before + seq![pat]);
        },
        _ => {},
    }
}

/// A character that makes a pattern a wildcard pattern rather than a path.
pub open spec fn is_wildcard(c: char) -> bool {
    c == '*' || c == '?' || c == '[' || c == '{'
}

/// The pattern without a leading `./` and a trailing `/`.
pub open spec fn trimmed(pat: Seq<char>) -> Seq<char> {
    let a = if pat.len() >= 2 && pat[0] == '.' && pat[1] == '/' { pat.subrange(2, pat.len() as int) } else { pat };
    if a.len() >= 1 && a[a.len() - 1] == '/' { a.subrange(0, a.len() - 1) } else { a }
}

/// The directory conveniences: "./vendor/" is "vendor", which also matches
/// "vendor/**/*"; "vendor/**" also matches "vendor/**/*".
pub open spec fn expand_spec(pat: Seq<char>) -> Seq<Seq<char>> {
    let b = trimmed(pat);
    if b.len() >= 2 && b[b.len() - 2] == '*' && b[b.len() - 1] == '*' {
        seq![b, b + seq!['/', '*']]
    } else if exists|i: int| 0 <= i < b.len() && is_wildcard(#[trigger] b[i]) {
        seq![b]
    } else {
        seq![b, b + seq!['/', '*', '*', '/', '*']]
    }
}

/// Every pattern a glob stands for: its conveniences, each brace-expanded.
pub open spec fn glob_alternatives(pat: Seq<char>) -> Seq<Seq<char>> {
    let x = expand_spec(pat);
    if x.len() == 1 { brace_spec(x[0]) } else { brace_spec(x[0]) + brace_spec(x[1]) }
}

/// A path matches a glob when it matches one of the patterns the glob stands for.
pub open spec fn glob_matches(alternatives: Seq<Seq<char>>, path: Seq<char>) -> bool {
    exists|i: int| 0 <= i < alternatives.len() && fn_match(#[trigger] alternatives[i], path)
}

#[verifier::rlimit(40)]
fn expand(pattern: &[char]) -> (r: Vec<Vec<char>>)
    ensures deep(r@) == expand_spec(pattern@),
{
    let ghost pat = pattern@;
    let mut from: usize = 0;
    let mut to: usize = pattern.len();
    if pattern.len() >= 2 && pattern[0] == '.' && pattern[1] == '/' {
        from = 2;
    }
    if to - from >= 1 && pattern[to - 1] == '/' {
        to -= 1;
    }
    let mut b: Vec<char> = Vec::new();
    push_range(&mut b, pattern, from, to);
    assert(b@ == trimmed(pat));
    let n = b.len();
    let mut out: Vec<Vec<char>> = Vec::new();
    if n >= 2 && b[n - 2] == '*' && b[n - 1] == '*' {
        let mut more: Vec<char> = Vec::new();
        push_range(&mut more, pattern, from, to);
        more.push('/');
        more.push('*');
        assert(more@ =~= b@ + seq!['/', '*']);
        out.push(b);
        out.push(more);
        assert(deep(out@) =~= expand_spec(pat));
        return out;
    }
    let mut i: usize = 0;
    let mut wild = false;
    while i < n
        invariant
            n == b.len(),
            i <= n,
            wild == exists|j: int| 0 <= j < i && is_wildcard(#[trigger] b@[j]),
        decreases n - i,
    {
        if is_wildcard_char(b[i]) {
            wild = true;
        }
        i += 1;
    }
    if wild {
        out.push(b);
        assert(deep(out@) =~= expand_spec(pat));
    } else {
        let mut more: Vec<char> = Vec::new();
        push_range(&mut more, pattern, from, to);
        more.push('/');
        more.push('*');
        more.push('*');
        more.push('/');
        more.push('*');
        assert(more@ =~= b@ + seq!['/', '*', '*', '/', '*']);
        out.push(b);
        out.push(more);
        assert(deep(out@) =~= expand_spec(pat));
    }
    out
}

fn is_wildcard_char(c: char) -> (r: bool)
    ensures r == is_wildcard(c),
{
    c == '*' || c == '?' || c == '[' || c == '{'
}

/// A glob from the config file, with everything it stands for worked out.
#[derive(Debug)]
pub struct Glob {
    /// Every pattern this glob stands for, after the directory conveniences
    /// and brace expansion. A path matches if it matches any of them.
    alternatives: Vec<Vec<char>>,
}

impl View for Glob {
    type V = Seq<Seq<char>>;

    closed spec fn view(&self) -> Seq<Seq<char>> {
        deep(self.alternatives@)
    }
}

impl Glob {
    pub fn new(pattern: &str) -> (g: Glob)
        ensures g@ == glob_alternatives(pattern@),
    {
        let chars = chars_of(pattern);
        let expanded = expand(chars.as_slice());
        assert(deep(expanded@).len() == expanded@.len());
        let mut alternatives: Vec<Vec<char>> = Vec::new();
        let mut k: usize = 0;
        while k < expanded.len()
            invariant
                deep(expanded@) == expand_spec(pattern@),
                k <= expanded.len(),
                1 <= expanded.len() <= 2,
                k == 0 ==> deep(alternatives@) == Seq::<Seq<char>>::empty(),
                k == 1 ==> deep(alternatives@) == brace_spec(expand_spec(pattern@)[0]),
                k == 2 ==> deep(alternatives@) == brace_spec(expand_spec(pattern@)[0]) + brace_spec(expand_spec(pattern@)[1]),
            decreases expanded.len() - k,
        {
            assert(expanded@[k as int]@ == expand_spec(pattern@)[k as int]);
            brace_expand(expanded[k].as_slice(), &mut alternatives);
            k += 1;
        }
        Glob { alternatives }
    }

    pub fn matches(&self, path: &str) -> (r: bool)
        ensures r == glob_matches(self@, path@),
    {
        let chars = chars_of(path);
        let mut i: usize = 0;
        while i < self.alternatives.len()
            invariant
                i <= self.alternatives.len(),
                self@.len() == self.alternatives@.len(),
                chars@ == path@,
                forall|j: int| 0 <= j < i ==> !fn_match(#[trigger] self@[j], chars@),
            decreases self.alternatives.len() - i,
        {
            if fnmatch(self.alternatives[i].as_slice(), chars.as_slice()) {
                assert(self@[i as int] == self.alternatives@[i as int]@);
                assert(fn_match(self@[i as int], chars@));
                return true;
            }
            i += 1;
        }
        false
    }
}

pub fn matches_any(globs: &[Glob], path: &str) -> (r: bool)
    ensures r == exists|i: int| 0 <= i < globs@.len() && glob_matches(#[trigger] globs@[i]@, path@),
{
    let mut i: usize = 0;
    while i < globs.len()
        invariant
            i <= globs.len(),
            forall|j: int| 0 <= j < i ==> !glob_matches(#[trigger] globs@[j]@, path@),
        decreases globs.len() - i,
    {
        if globs[i].matches(path) {
            return true;
        }
        i += 1;
    }
    false
}

// ---------------------------------------------------------------------------
// Laws: directories.
// ---------------------------------------------------------------------------

/// A directory written out plainly: no wildcard, no escape.
pub open spec fn plain_dir(b: Seq<char>) -> bool {
    &&& b.len() > 0
    &&& forall|i: int| 0 <= i < b.len() ==> !is_wildcard(#[trigger] b[i]) && b[i] != '\\'
}

proof fn lemma_brace_scan_none(pat: Seq<char>, i: int)
    requires
        0 <= i,
        forall|k: int| i <= k < pat.len() ==> #[trigger] pat[k] != '{',
    ensures
        brace_scan(pat, i, None, 0) == (None::<int>, None::<int>),
    decreases pat.len() - i,
{
    if i < pat.len() {
        if pat[i] == '\\' {
            if i + 1 < pat.len() {
                lemma_brace_scan_none(pat, i + 2);
            }
        } else {
            lemma_brace_scan_none(pat, i + 1);
        }
    }
}

/// A pattern without `{` stands for itself alone.
proof fn lemma_brace_plain(pat: Seq<char>)
    requires
        forall|k: int| 0 <= k < pat.len() ==> #[trigger] pat[k] != '{',
    ensures
        brace_spec(pat) == seq![pat],
{
    lemma_brace_scan_none(pat, 0);
}

/// A literal segment of the pattern from `p` to the `/` at `k` matches the
/// same characters of the path, and both segments end at `k`.
proof fn lemma_literal_segment(pat: Seq<char>, path: Seq<char>, p: int, k: int)
    requires
        0 <= p <= k,
        k == pat.len() || (k < pat.len() && pat[k] == '/'),
        k == path.len() || (k < path.len() && path[k] == '/'),
        forall|i: int| p <= i < k ==> #[trigger] pat[i] == path[i],
        forall|i: int| p <= i < k ==> !is_wildcard(#[trigger] pat[i]) && pat[i] != '\\' && pat[i] != '/',
    ensures
        seg_match(pat, p, path, p),
        seg_np(pat, p) == k,
        seg_end(path, p) == k,
    decreases k - p,
{
    if p < k {
        assert(!is_wildcard(pat[p]) && pat[p] != '\\' && pat[p] != '/');
        assert(path[p] == pat[p]);
        lemma_literal_segment(pat, path, p + 1, k);
        assert(seg_match(pat, p + 1, path, p + 1));
    }
}

/// The plain part of the pattern up to the `/` at `n` leads the path, as
/// far as `n`, to what follows it.
proof fn lemma_literal_prefix(pat: Seq<char>, path: Seq<char>, p: int, n: int)
    requires
        0 <= p <= n,
        n < pat.len(),
        n < path.len(),
        pat[n] == '/',
        forall|i: int| 0 <= i <= n ==> #[trigger] pat[i] == path[i],
        forall|i: int| 0 <= i < n ==> !is_wildcard(#[trigger] pat[i]) && pat[i] != '\\',
        path_match(pat, n + 1, path, n + 1),
    ensures
        path_match(pat, p, path, p),
    decreases n - p,
{
    lemma_seg_end(path, p);
    let k = seg_end(path, p);
    assert(k <= n) by {
        if k > n {
            assert(path[n] == '/');
        }
    }
    assert(path[k] == '/') by {
        assert(s_end(path, k));
    }
    assert forall|i: int| p <= i < k implies !is_wildcard(#[trigger] pat[i]) && pat[i] != '\\' && pat[i] != '/' by {
        assert(path[i] != '/');
        assert(pat[i] == path[i]);
    }
    lemma_literal_segment(pat, path, p, k);
    assert(!dstar_at(pat, p)) by {
        if p < n {
            assert(!is_wildcard(pat[p]));
        }
    }
    if k < n {
        lemma_literal_prefix(pat, path, k + 1, n);
    }
}

/// A last `*` after a `**/` reaches every file beneath.
proof fn lemma_star_tail(pat: Seq<char>, q: int, path: Seq<char>, t: int)
    requires
        0 <= q,
        q + 1 == pat.len(),
        pat[q] == '*',
        0 <= t <= path.len(),
    ensures
        dirs_any(pat, q, path, t),
    decreases path.len() - t,
{
    lemma_seg_end(path, t);
    lemma_skip_stars(pat, q);
    assert(skip_stars(pat, q + 1) == q + 1);
    assert(skip_stars(pat, q) == q + 1);
    assert(seg_match(pat, q, path, t));
    assert(seg_np(pat, q + 1) == q + 1);
    assert(seg_np(pat, q) == pat.len());
    let e = seg_end(path, t);
    if e < path.len() {
        lemma_star_tail(pat, q, path, e + 1);
    } else {
        assert(rest_match(pat, q, path, t));
    }
}

/// `b/**/*` matches everything beneath the plain directory `b`.
proof fn lemma_directory_pattern(b: Seq<char>, rest: Seq<char>)
    requires
        plain_dir(b),
    ensures
        fn_match(b + seq!['/', '*', '*', '/', '*'], b + seq!['/'] + rest),
{
    let pat = b + seq!['/', '*', '*', '/', '*'];
    let path = b + seq!['/'] + rest;
    let n = b.len() as int;
    assert(pat[n] == '/');
    assert(path[n] == '/');
    assert(dstar_at(pat, n + 1));
    assert(!dstar_at(pat, n + 4));
    assert(skip_dstars(pat, n + 4) == n + 4);
    assert(skip_dstars(pat, n + 1) == n + 4);
    lemma_star_tail(pat, n + 4, path, n + 1);
    assert(path_match(pat, n + 1, path, n + 1));
    assert forall|i: int| 0 <= i <= n implies #[trigger] pat[i] == path[i] by {
        if i < n {
            assert(pat[i] == b[i]);
            assert(path[i] == b[i]);
        }
    }
    assert forall|i: int| 0 <= i < n implies !is_wildcard(#[trigger] pat[i]) && pat[i] != '\\' by {
        assert(pat[i] == b[i]);
    }
    lemma_literal_prefix(pat, path, 0, n);
}

/// A literal segment that matched forces the path: the same characters,
/// and the path segment ends where the pattern segment does.
proof fn lemma_literal_segment_forces(pat: Seq<char>, path: Seq<char>, p: int, s: int, k: int)
    requires
        0 <= p <= k,
        0 <= s,
        k == pat.len() || (k < pat.len() && pat[k] == '/'),
        forall|i: int| p <= i < k ==> !is_wildcard(#[trigger] pat[i]) && pat[i] != '\\' && pat[i] != '/',
        seg_match(pat, p, path, s),
    ensures
        seg_np(pat, p) == k,
        s + (k - p) <= path.len(),
        forall|i: int| p <= i < k ==> path[s + (i - p)] == #[trigger] pat[i],
        seg_end(path, s) == s + (k - p),
    decreases k - p,
{
    if p < k {
        assert(!is_wildcard(pat[p]) && pat[p] != '\\' && pat[p] != '/');
        lemma_literal_segment_forces(pat, path, p + 1, s + 1, k);
    }
}

/// A plain pattern up to `l` matches only paths that spell it out, and that
/// end there or go on after a `/` where the pattern does.
proof fn lemma_literal_prefix_forces(pat: Seq<char>, path: Seq<char>, p: int, l: int)
    requires
        0 <= p <= l <= pat.len(),
        p == 0 || pat[p - 1] == '/',
        forall|i: int| 0 <= i < l ==> !is_wildcard(#[trigger] pat[i]) && pat[i] != '\\',
        l == pat.len() || pat[l] == '/',
        p <= path.len(),
        forall|i: int| 0 <= i < p ==> path[i] == #[trigger] pat[i],
        path_match(pat, p, path, p),
    ensures
        l <= path.len(),
        forall|i: int| 0 <= i < l ==> path[i] == #[trigger] pat[i],
        l == pat.len() ==> path.len() == l,
        l < pat.len() ==> l < path.len() && path[l] == '/',
    decreases l - p,
{
    lemma_seg_np(pat, p);
    // The pattern segment from `p` ends at its first `/` (or the end).
    let k = seg_end(pat, p);
    lemma_seg_end(pat, p);
    assert(k <= l) by {
        if k > l {
            assert(pat[l] == '/');
        }
    }
    assert(!dstar_at(pat, p)) by {
        if p < l {
            assert(!is_wildcard(pat[p]));
        }
    }
    assert(rest_match(pat, p, path, p));
    assert forall|i: int| p <= i < k implies !is_wildcard(#[trigger] pat[i]) && pat[i] != '\\' && pat[i] != '/' by {}
    assert(k == pat.len() || pat[k] == '/');
    lemma_literal_segment_forces(pat, path, p, p, k);
    lemma_seg_end(path, p);
    if k < pat.len() {
        assert(k < path.len());
        assert(path[k] == '/');
        if k < l {
            assert forall|i: int| 0 <= i < k + 1 implies path[i] == #[trigger] pat[i] by {
                if p <= i < k {
                    assert(path[p + (i - p)] == pat[i]);
                }
            }
            lemma_literal_prefix_forces(pat, path, k + 1, l);
        } else {
            assert forall|i: int| 0 <= i < l implies path[i] == #[trigger] pat[i] by {
                if p <= i < k {
                    assert(path[p + (i - p)] == pat[i]);
                }
            }
        }
    } else {
        assert forall|i: int| 0 <= i < l implies path[i] == #[trigger] pat[i] by {
            if p <= i < k {
                assert(path[p + (i - p)] == pat[i]);
            }
        }
    }
}

/// A plain pattern matches itself.
proof fn lemma_literal_whole(b: Seq<char>, p: int)
    requires
        0 <= p <= b.len(),
        p == 0 || b[p - 1] == '/',
        forall|i: int| 0 <= i < b.len() ==> !is_wildcard(#[trigger] b[i]) && b[i] != '\\',
    ensures
        path_match(b, p, b, p),
    decreases b.len() - p,
{
    lemma_seg_end(b, p);
    let k = seg_end(b, p);
    assert forall|i: int| p <= i < k implies !is_wildcard(#[trigger] b[i]) && b[i] != '\\' && b[i] != '/' by {}
    lemma_literal_segment(b, b, p, k);
    assert(!dstar_at(b, p)) by {
        if p < b.len() {
            assert(!is_wildcard(b[p]));
        }
    }
    if k < b.len() {
        lemma_literal_whole(b, k + 1);
    }
}

/// A bare name matches itself and everything beneath it, and nothing else:
/// `vendor` (and `./vendor/`) matches `vendor` and `vendor/…`, but not
/// `vendored/x.rb`.
pub proof fn law_bare_name_matches_itself_and_beneath_only(d: Seq<char>, q: Seq<char>)
    requires
        plain_dir(trimmed(d)),
    ensures
        glob_matches(glob_alternatives(d), q) == (q == trimmed(d) || (q.len() > trimmed(d).len() && q.subrange(
            0,
            trimmed(d).len() + 1 as int,
        ) == trimmed(d) + seq!['/'])),
{
    let b = trimmed(d);
    let n = b.len() as int;
    let more = b + seq!['/', '*', '*', '/', '*'];
    assert(!(exists|i: int| 0 <= i < b.len() && is_wildcard(#[trigger] b[i])));
    assert(!(b[b.len() - 1] == '*'));
    assert(expand_spec(d) == seq![b, more]);
    assert forall|k: int| 0 <= k < b.len() implies #[trigger] b[k] != '{' by {
        assert(!is_wildcard(b[k]));
    }
    assert forall|k: int| 0 <= k < more.len() implies #[trigger] more[k] != '{' by {
        if k < b.len() {
            assert(more[k] == b[k]);
            assert(!is_wildcard(b[k]));
        }
    }
    lemma_brace_plain(b);
    lemma_brace_plain(more);
    let alts = glob_alternatives(d);
    assert(alts == seq![b, more]);
    assert(alts[0] == b);
    assert(alts[1] == more);
    let beneath = q.len() > n && q.subrange(0, n + 1) == b + seq!['/'];
    if q == b {
        lemma_literal_whole(b, 0);
        assert(fn_match(alts[0], q));
    }
    if beneath {
        let rest = q.subrange(n + 1, q.len() as int);
        assert(q =~= b + seq!['/'] + rest) by {
            assert forall|i: int| 0 <= i < n + 1 implies q[i] == (b + seq!['/'])[i] by {
                assert(q.subrange(0, n + 1)[i] == q[i]);
            }
        }
        lemma_directory_pattern(b, rest);
        assert(fn_match(alts[1], q));
    }
    if glob_matches(alts, q) {
        let i = choose|i: int| 0 <= i < alts.len() && fn_match(#[trigger] alts[i], q);
        if i == 0 {
            lemma_literal_prefix_forces(b, q, 0, n);
            assert(q =~= b);
        } else {
            assert forall|j: int| 0 <= j < n implies !is_wildcard(#[trigger] more[j]) && more[j] != '\\' by {
                assert(more[j] == b[j]);
            }
            lemma_literal_prefix_forces(more, q, 0, n);
            assert(q.subrange(0, n + 1) =~= b + seq!['/']) by {
                assert forall|j: int| 0 <= j < n implies q.subrange(0, n + 1)[j] == (b + seq!['/'])[j] by {
                    assert(more[j] == b[j]);
                }
            }
        }
    }
}

/// A trailing `**` matches everything beneath the directory before it:
/// `vendor/**` matches `vendor/` and all below.
pub proof fn law_trailing_double_star_matches_beneath(base: Seq<char>, rest: Seq<char>)
    requires
        plain_dir(base),
        !(base.len() >= 2 && base[0] == '.' && base[1] == '/'),
    ensures
        glob_matches(glob_alternatives(base + seq!['/', '*', '*']), base + seq!['/'] + rest),
{
    let d = base + seq!['/', '*', '*'];
    let n = base.len() as int;
    let path = base + seq!['/'] + rest;
    if n == 1 && base[0] == '.' {
        // `./**` is `**`: everything, `./` included.
        let b = seq!['*', '*'];
        assert(trimmed(d) =~= b);
        let more = b + seq!['/', '*'];
        assert(expand_spec(d) == seq![b, more]);
        lemma_brace_plain(b);
        lemma_brace_plain(more);
        assert(dstar_at(more, 0));
        assert(!dstar_at(more, 3));
        assert(skip_dstars(more, 3) == 3);
        assert(skip_dstars(more, 0) == 3);
        lemma_star_tail(more, 3, path, 0);
        assert(fn_match(more, path));
        let alts = glob_alternatives(d);
        assert(alts == seq![b, more]);
        assert(alts[1] == more);
    } else {
        assert(d[0] == base[0]);
        assert(n >= 2 ==> d[1] == base[1]);
        assert(n == 1 ==> d[1] == '/');
        assert(d[d.len() - 1] == '*');
        assert(trimmed(d) == d);
        let more = d + seq!['/', '*'];
        assert(expand_spec(d) == seq![d, more]);
        assert(more =~= base + seq!['/', '*', '*', '/', '*']);
        assert forall|k: int| 0 <= k < d.len() implies #[trigger] d[k] != '{' by {
            if k < n {
                assert(d[k] == base[k]);
                assert(!is_wildcard(base[k]));
            }
        }
        assert forall|k: int| 0 <= k < more.len() implies #[trigger] more[k] != '{' by {
            if k < n {
                assert(more[k] == base[k]);
                assert(!is_wildcard(base[k]));
            }
        }
        lemma_brace_plain(d);
        lemma_brace_plain(more);
        let alts = glob_alternatives(d);
        assert(alts == seq![d, more]);
        lemma_directory_pattern(base, rest);
        assert(alts[1] == more);
    }
}

// ---------------------------------------------------------------------------
// Laws: wildcards stay within a segment.
// ---------------------------------------------------------------------------

/// No `/` in the text.
pub open spec fn no_slash(s: Seq<char>) -> bool {
    forall|i: int| 0 <= i < s.len() ==> #[trigger] s[i] != '/'
}

/// A segment that matched ends where a segment of the pattern ends.
proof fn lemma_seg_np_ends(pat: Seq<char>, p: int, path: Seq<char>, s: int)
    requires
        seg_match(pat, p, path, s),
    ensures
        p_end(pat, seg_np(pat, p)),
    decreases pat.len() - p,
{
    if p < pat.len() && pat[p] == '*' {
        lemma_skip_stars(pat, p);
        let q = skip_stars(pat, p);
        if p_end(pat, unesc(pat, q)) {
            if q < pat.len() && pat[q] == '\\' {
                assert(seg_np(pat, q) == q + 1);
            } else if q < pat.len() {
                assert(pat[q] == '/');
                assert(seg_np(pat, q) == q);
            }
        } else {
            lemma_seg_end(path, s);
            let e = seg_end(path, s);
            lemma_star_any(pat, q, path, s, e);
            let u = choose|u: int| s <= u <= e && #[trigger] seg_match(pat, q, path, u);
            lemma_seg_np_ends(pat, q, path, u);
        }
        assert(seg_np(pat, p) == seg_np(pat, q));
    } else if p < pat.len() && pat[p] == '?' {
        lemma_seg_np_ends(pat, p + 1, path, s + 1);
        assert(seg_np(pat, p) == seg_np(pat, p + 1));
    } else if p < pat.len() && pat[p] == '[' {
        if let Some(a) = bracket_spec(pat, p + 1, path[s]) {
            assert(class_after(pat, p + 1) == Some(a));
            lemma_seg_np_ends(pat, a, path, s + 1);
            assert(seg_np(pat, p) == seg_np(pat, a));
        }
    } else {
        let a = unesc(pat, p);
        if !s_end(path, s) {
            lemma_seg_np_ends(pat, a + 1, path, s + 1);
            assert(!p_end(pat, a));
            assert(seg_np(pat, p) == seg_np(pat, a + 1));
        } else {
            assert(p_end(pat, a));
            assert(seg_np(pat, p) == a);
        }
    }
}

/// A pattern without `/` matches only a path without `/`.
proof fn lemma_one_segment(pat: Seq<char>, path: Seq<char>)
    requires
        no_slash(pat),
        fn_match(pat, path),
    ensures
        no_slash(path),
{
    assert(!dstar_at(pat, 0)) by {
        if pat.len() >= 3 {
            assert(pat[2] != '/');
        }
    }
    assert(rest_match(pat, 0, path, 0));
    lemma_seg_np_ends(pat, 0, path, 0);
    lemma_seg_np(pat, 0);
    let np = seg_np(pat, 0);
    if np < pat.len() {
        assert(pat[np] != '/');
    }
    lemma_seg_end(path, 0);
}

/// Expanding braces brings no `/` into a pattern without one.
proof fn lemma_brace_no_slash(pat: Seq<char>)
    requires
        no_slash(pat),
    ensures
        forall|j: int| 0 <= j < brace_spec(pat).len() ==> no_slash(#[trigger] brace_spec(pat)[j]),
    decreases pat.len(), pat.len() + 1,
{
    match brace_scan(pat, 0, None, 0) {
        (Some(l), Some(r)) => {
            if 0 <= l < r < pat.len() {
                lemma_alts_no_slash(pat, l, r, l);
                assert(brace_spec(pat) == expand_alts(pat, l, r, l));
            } else {
                assert(brace_spec(pat).len() == 0);
            }
        },
        (None, None) => {
            assert(brace_spec(pat) == seq![pat]);
            assert(brace_spec(pat)[0] == pat);
        },
        _ => {
            assert(brace_spec(pat).len() == 0);
        },
    }
}

proof fn lemma_alts_no_slash(pat: Seq<char>, left: int, right: int, p: int)
    requires
        no_slash(pat),
        0 <= left < right < pat.len(),
    ensures
        forall|j: int| 0 <= j < expand_alts(pat, left, right, p).len() ==> no_slash(
            #[trigger] expand_alts(pat, left, right, p)[j],
        ),
    decreases pat.len(), right - p,
{
    if left <= p < right {
        let start = p + 1;
        lemma_alt_end(pat, start, right, 0);
        let q = alt_end(pat, start, right, 0);
        let alt = pat.subrange(0, left) + pat.subrange(start, q) + pat.subrange(right + 1, pat.len() as int);
        assert forall|i: int| 0 <= i < alt.len() implies #[trigger] alt[i] != '/' by {
            if i < left {
                assert(alt[i] == pat[i]);
            } else if i < left + (q - start) {
                assert(alt[i] == pat[start + (i - left)]);
            } else {
                assert(alt[i] == pat[right + 1 + (i - left - (q - start))]);
            }
        }
        assert(alt.len() < pat.len());
        lemma_brace_no_slash(alt);
        lemma_alts_no_slash(pat, left, right, q);
        let here = brace_spec(alt);
        let later = expand_alts(pat, left, right, q);
        assert(expand_alts(pat, left, right, p) == here + later);
        assert forall|j: int| 0 <= j < (here + later).len() implies no_slash(#[trigger] (here + later)[j]) by {
            if j < here.len() {
                assert((here + later)[j] == here[j]);
            } else {
                assert((here + later)[j] == later[j - here.len()]);
            }
        }
    }
}

/// `*`, `?` and `[...]` do not cross directories: a wildcard pattern
/// without `/` (and not ending in `**`, which spans directories by
/// convenience) matches only paths without `/`.
pub proof fn law_wildcards_stay_within_a_directory(pat: Seq<char>, path: Seq<char>)
    requires
        no_slash(pat),
        exists|i: int| 0 <= i < pat.len() && is_wildcard(#[trigger] pat[i]),
        !(pat.len() >= 2 && pat[pat.len() - 2] == '*' && pat[pat.len() - 1] == '*'),
    ensures
        glob_matches(glob_alternatives(pat), path) ==> no_slash(path),
{
    assert(trimmed(pat) == pat) by {
        if pat.len() >= 2 {
            assert(pat[1] != '/');
        }
        if pat.len() >= 1 {
            assert(pat[pat.len() - 1] != '/');
        }
    }
    assert(expand_spec(pat) == seq![pat]);
    lemma_brace_no_slash(pat);
    if glob_matches(glob_alternatives(pat), path) {
        let alts = brace_spec(pat);
        let i = choose|i: int| 0 <= i < alts.len() && fn_match(#[trigger] alts[i], path);
        assert(no_slash(alts[i]));
        lemma_one_segment(alts[i], path);
    }
}

/// Wildcards match dotfiles too: `**/*` matches every path, hidden files
/// and directories included.
pub proof fn law_wildcards_match_dotfiles(path: Seq<char>)
    ensures
        glob_matches(glob_alternatives(seq!['*', '*', '/', '*']), path),
{
    let pat = seq!['*', '*', '/', '*'];
    assert(trimmed(pat) == pat);
    assert(is_wildcard(pat[0]));
    assert(expand_spec(pat) == seq![pat]);
    assert forall|k: int| 0 <= k < pat.len() implies #[trigger] pat[k] != '{' by {}
    lemma_brace_plain(pat);
    assert(dstar_at(pat, 0));
    assert(!dstar_at(pat, 3));
    assert(skip_dstars(pat, 3) == 3);
    assert(skip_dstars(pat, 0) == 3);
    lemma_star_tail(pat, 3, path, 0);
    assert(fn_match(pat, path));
    assert(glob_alternatives(pat)[0] == pat);
}

/// What a class made of one range says of a one-character path: `[lo-hi]`
/// matches exactly the characters from `lo` to `hi` (and each bound, even
/// where `hi` comes before `lo`), and `[!lo-hi]` exactly the others.
proof fn lemma_range_class(pat: Seq<char>, neg: bool, bang: char, lo: char, hi: char, c: char)
    requires
        bang == '!' || bang == '^',
        pat == (if neg { seq!['[', bang, lo, '-', hi, ']'] } else { seq!['[', lo, '-', hi, ']'] }),
        lo != '!' && lo != '^' && lo != '\\' && lo != ']' && lo != '/',
        hi != '\\' && hi != ']' && hi != '/',
        c != '/',
    ensures
        fn_match(pat, seq![c]) == ((c == lo || c == hi || (lo <= c && c <= hi)) != neg),
{
    let path = seq![c];
    let s = if neg { 2int } else { 1int };
    let n = pat.len() as int;
    assert(n == s + 4);
    assert(!dstar_at(pat, 0));
    // The class: its one item is the range, then the `]`.
    assert(class_negated(pat, 1) == neg);
    assert(pat[s] == lo && pat[s + 1] == '-' && pat[s + 2] == hi && pat[s + 3] == ']');
    assert(class_item(pat, s) == Some((s, s + 2, s + 3)));
    assert(class_end(pat, s + 3) == Some(s + 3));
    assert(class_end(pat, s) == Some(s + 3));
    assert(class_after(pat, 1) == Some(n));
    assert(!class_has(pat, s + 3, c));
    assert(class_has(pat, s, c) == (c == lo || c == hi || (lo <= c && c <= hi)));
    let inside = (c == lo || c == hi || (lo <= c && c <= hi)) != neg;
    assert(bracket_spec(pat, 1, c) == if inside { Some(n) } else { None::<int> });
    // After the class, both the pattern and the path are done.
    assert(unesc(pat, n) == n);
    assert(seg_match(pat, n, path, 1));
    assert(seg_match(pat, 0, path, 0) == inside);
    if inside {
        lemma_seg_np_ends(pat, 0, path, 0);
        lemma_seg_np(pat, 0);
        let np = seg_np(pat, 0);
        if np < n {
            assert(pat[np] != '/');
        }
        lemma_seg_end(path, 0);
        assert(seg_end(path, 0) == 1);
    }
    assert(rest_match(pat, 0, path, 0) == inside);
}

/// A range in a class stands for every character between its bounds: a
/// glob `[lo-hi]` matches a one-character name exactly when the character
/// lies from `lo` to `hi` (or is one of them), and `[!lo-hi]` or `[^lo-hi]`
/// exactly when it does not.
pub proof fn law_class_range_matches_between_its_bounds(bang: char, lo: char, hi: char, c: char)
    requires
        bang == '!' || bang == '^',
        lo != '!' && lo != '^' && lo != '\\' && lo != ']' && lo != '/' && lo != '{',
        hi != '\\' && hi != ']' && hi != '/' && hi != '{',
        c != '/',
    ensures
        glob_matches(glob_alternatives(seq!['[', lo, '-', hi, ']']), seq![c]) == (c == lo || c == hi || (lo <= c
            && c <= hi)),
        glob_matches(glob_alternatives(seq!['[', bang, lo, '-', hi, ']']), seq![c]) == !(c == lo || c == hi || (lo
            <= c && c <= hi)),
{
    let yes = seq!['[', lo, '-', hi, ']'];
    let no = seq!['[', bang, lo, '-', hi, ']'];
    lemma_range_class(yes, false, bang, lo, hi, c);
    lemma_range_class(no, true, bang, lo, hi, c);
    assert(trimmed(yes) == yes);
    assert(trimmed(no) == no);
    assert(is_wildcard(yes[0]) && is_wildcard(no[0]));
    assert(expand_spec(yes) == seq![yes]);
    assert(expand_spec(no) == seq![no]);
    assert forall|k: int| 0 <= k < yes.len() implies #[trigger] yes[k] != '{' by {}
    assert forall|k: int| 0 <= k < no.len() implies #[trigger] no[k] != '{' by {}
    lemma_brace_plain(yes);
    lemma_brace_plain(no);
    assert(glob_alternatives(yes) == seq![yes]);
    assert(glob_alternatives(no) == seq![no]);
    if fn_match(yes, seq![c]) {
        assert(fn_match(glob_alternatives(yes)[0], seq![c]));
    }
    if fn_match(no, seq![c]) {
        assert(fn_match(glob_alternatives(no)[0], seq![c]));
    }
}

/// A class matches a character named by any of its items: `[x lo-hi]`
/// (written without the space) matches exactly `x` and the characters from
/// `lo` to `hi`.
pub proof fn law_class_matches_any_of_its_items(x: char, lo: char, hi: char, c: char)
    requires
        x != '!' && x != '^' && x != '\\' && x != ']' && x != '/' && x != '{',
        lo != '-' && lo != '\\' && lo != ']' && lo != '/' && lo != '{',
        hi != '\\' && hi != ']' && hi != '/' && hi != '{',
        c != '/',
    ensures
        glob_matches(glob_alternatives(seq!['[', x, lo, '-', hi, ']']), seq![c]) == (c == x || c == lo || c == hi || (
        lo <= c && c <= hi)),
{
    let pat = seq!['[', x, lo, '-', hi, ']'];
    let path = seq![c];
    let n = 6int;
    assert(trimmed(pat) == pat);
    assert(is_wildcard(pat[0]));
    assert(expand_spec(pat) == seq![pat]);
    assert forall|k: int| 0 <= k < pat.len() implies #[trigger] pat[k] != '{' by {}
    lemma_brace_plain(pat);
    assert(glob_alternatives(pat) == seq![pat]);
    assert(!dstar_at(pat, 0));
    // The items: `x`, then the range, then the `]`.
    assert(!class_negated(pat, 1));
    assert(class_item(pat, 1) == Some((1int, 1int, 2int)));
    assert(class_item(pat, 2) == Some((2int, 4int, 5int)));
    assert(class_end(pat, 5) == Some(5int));
    assert(class_end(pat, 2) == Some(5int));
    assert(class_end(pat, 1) == Some(5int));
    assert(class_after(pat, 1) == Some(n));
    assert(!class_has(pat, 5, c));
    assert(class_has(pat, 2, c) == (c == lo || c == hi || (lo <= c && c <= hi)));
    let inside = c == x || c == lo || c == hi || (lo <= c && c <= hi);
    assert(class_has(pat, 1, c) == inside);
    assert(bracket_spec(pat, 1, c) == if inside { Some(n) } else { None::<int> });
    assert(unesc(pat, n) == n);
    assert(seg_match(pat, n, path, 1));
    assert(seg_match(pat, 0, path, 0) == inside);
    if inside {
        lemma_seg_np_ends(pat, 0, path, 0);
        lemma_seg_np(pat, 0);
        let np = seg_np(pat, 0);
        if np < n {
            assert(pat[np] != '/');
        }
        lemma_seg_end(path, 0);
        assert(seg_end(path, 0) == 1);
        assert(fn_match(glob_alternatives(pat)[0], path));
    }
    assert(rest_match(pat, 0, path, 0) == inside);
}

} // verus!
