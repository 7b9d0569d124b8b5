//! Path arithmetic done on the path's text, the way Ruby's `File.expand_path`
//! and `Pathname#relative_path_from` do it: `..` removes the component before
//! it, and symlinks are never resolved. Paths are `/`-separated, as std's
//! `Path` reads them on Unix: a leading `/` is the root, empty and `.`
//! components are dropped, and a trailing `/` means nothing.

use vstd::prelude::*;

use crate::text::{chars_of, copy_chars, deep, join, lemma_deep_drop_last, lemma_deep_push, push_join, string_of};

verus! {

/// The root component, as std writes it.
pub open spec fn root_comp() -> Seq<char> {
    seq!['/']
}

/// A finished component: nothing for an empty one or `.`.
pub open spec fn flush(cur: Seq<char>) -> Seq<Seq<char>> {
    if cur.len() == 0 || cur == seq!['.'] { Seq::empty() } else { seq![cur] }
}

/// The components of `s` from `i` on, `cur` being the component read so far.
pub open spec fn parts_from(s: Seq<char>, i: int, cur: Seq<char>) -> Seq<Seq<char>>
    decreases s.len() - i,
{
    if i < 0 || i >= s.len() {
        flush(cur)
    } else if s[i] == '/' {
        flush(cur) + parts_from(s, i + 1, Seq::empty())
    } else {
        parts_from(s, i + 1, cur.push(s[i]))
    }
}

/// `Path::components`, with the root as `/`.
pub open spec fn components(s: Seq<char>) -> Seq<Seq<char>> {
    (if s.len() > 0 && s[0] == '/' { seq![root_comp()] } else { Seq::empty() }) + parts_from(s, 0, Seq::empty())
}

/// `PathBuf::pop` succeeds on anything but an empty path and the root.
pub open spec fn can_pop(out: Seq<Seq<char>>) -> bool {
    out.len() > 0 && out != seq![root_comp()]
}

/// Folds `..` into the component before it; a `..` with nothing before it stays.
pub open spec fn normalize_comps(comps: Seq<Seq<char>>) -> Seq<Seq<char>>
    decreases comps.len(),
{
    if comps.len() == 0 {
        Seq::empty()
    } else {
        let out = normalize_comps(comps.drop_last());
        if comps.last() == seq!['.', '.'] && can_pop(out) {
            out.drop_last()
        } else {
            out.push(comps.last())
        }
    }
}

/// A path's text from its components.
pub open spec fn render(comps: Seq<Seq<char>>) -> Seq<char> {
    if comps.len() > 0 && comps[0] == root_comp() {
        seq!['/'] + join(comps.subrange(1, comps.len() as int), seq!['/'])
    } else {
        join(comps, seq!['/'])
    }
}

pub open spec fn normalize_spec(path: Seq<char>) -> Seq<char> {
    render(normalize_comps(components(path)))
}

/// How many leading components two paths share.
pub open spec fn common_len(a: Seq<Seq<char>>, b: Seq<Seq<char>>, i: int) -> int
    decreases a.len() - i,
{
    if 0 <= i < a.len() && i < b.len() && a[i] == b[i] { common_len(a, b, i + 1) } else { i }
}

/// The path to `path` from `base`: "." for `base` itself, and starting with
/// ".." when `path` is outside `base`. `None` when they share no root.
pub open spec fn relative_spec(path: Seq<char>, base: Seq<char>) -> Option<Seq<char>> {
    let p = components(path);
    let b = components(base);
    if (p.len() > 0) != (b.len() > 0) || (p.len() > 0 && p[0] != b[0]) {
        None
    } else {
        let c = common_len(p, b, 0);
        let parts = Seq::new((b.len() - c) as nat, |i: int| seq!['.', '.']) + p.subrange(c, p.len() as int);
        Some(if parts.len() == 0 { seq!['.'] } else { join(parts, seq!['/']) })
    }
}

proof fn lemma_common_len(a: Seq<Seq<char>>, b: Seq<Seq<char>>, i: int)
    requires
        0 <= i <= a.len(),
        i <= b.len(),
    ensures
        i <= common_len(a, b, i) <= a.len(),
        common_len(a, b, i) <= b.len(),
    decreases a.len() - i,
{
    if i < a.len() && i < b.len() && a[i] == b[i] {
        lemma_common_len(a, b, i + 1);
    }
}

/// The components of a path, as vectors of characters.
pub fn split(s: &[char]) -> (r: Vec<Vec<char>>)
    ensures
        deep(r@) == components(s@),
{
    let mut out: Vec<Vec<char>> = Vec::new();
    if s.len() > 0 && s[0] == '/' {
        out.push(chars_of("/"));
        proof { reveal_strlit("/"); }
        assert(out@[0]@ =~= root_comp());
    }
    let ghost head = deep(out@);
    assert(head =~= (if s@.len() > 0 && s@[0] == '/' { seq![root_comp()] } else { Seq::<Seq<char>>::empty() }));
    let mut cur: Vec<char> = Vec::new();
    let mut i: usize = 0;
    while i < s.len()
        invariant
            i <= s.len(),
            deep(out@) + parts_from(s@, i as int, cur@) == head + parts_from(s@, 0, Seq::empty()),
        decreases s.len() - i,
    {
        if s[i] == '/' {
            let ghost before = deep(out@);
            if cur.len() > 0 && !(cur.len() == 1 && cur[0] == '.') {
                assert(cur@ != seq!['.']);
                out.push(cur);
                assert(deep(out@) =~= before + flush(cur@));
            } else {
                if cur.len() == 1 {
                    assert(cur@ =~= seq!['.']);
                }
                assert(deep(out@) =~= before + flush(cur@));
            }
            assert(deep(out@) + parts_from(s@, i + 1, Seq::empty()) =~= before + (flush(cur@) + parts_from(s@, i + 1, Seq::empty())));
            cur = Vec::new();
        } else {
            cur.push(s[i]);
        }
        i += 1;
    }
    let ghost before = deep(out@);
    if cur.len() > 0 && !(cur.len() == 1 && cur[0] == '.') {
        assert(cur@ != seq!['.']);
        out.push(cur);
        assert(deep(out@) =~= before + flush(cur@));
    } else {
        if cur.len() == 1 {
            assert(cur@ =~= seq!['.']);
        }
        assert(deep(out@) =~= before + flush(cur@));
    }
    out
}

fn is_dotdot(c: &Vec<char>) -> (r: bool)
    ensures
        r == (c@ == seq!['.', '.']),
{
    let r = c.len() == 2 && c[0] == '.' && c[1] == '.';
    if r {
        assert(c@ =~= seq!['.', '.']);
    }
    r
}

fn is_root(c: &Vec<char>) -> (r: bool)
    ensures
        r == (c@ == root_comp()),
{
    let r = c.len() == 1 && c[0] == '/';
    if r {
        assert(c@ =~= root_comp());
    }
    r
}

/// The text of a path from its components.
pub fn render_exec(comps: &Vec<Vec<char>>) -> (r: Vec<char>)
    ensures
        r@ == render(deep(comps@)),
{
    let mut out: Vec<char> = Vec::new();
    if comps.len() > 0 && is_root(&comps[0]) {
        out.push('/');
        let mut rest: Vec<Vec<char>> = Vec::new();
        let mut i: usize = 1;
        while i < comps.len()
            invariant
                1 <= i <= comps.len(),
                deep(rest@) =~= deep(comps@).subrange(1, i as int),
            decreases comps.len() - i,
        {
            let x = copy_chars(&comps[i]);
            proof { lemma_deep_push(rest@, x); }
            rest.push(x);
            i += 1;
        }
        push_join(&mut out, &rest, "/");
        proof { reveal_strlit("/"); }
        assert("/"@ =~= seq!['/']);
    } else {
        push_join(&mut out, comps, "/");
        proof { reveal_strlit("/"); }
        assert("/"@ =~= seq!['/']);
        assert(out@ =~= render(deep(comps@)));
    }
    out
}

/// Removes `.` components and folds `..` into the component before it.
pub fn normalize(path: &str) -> (r: String)
    ensures
        r@ == normalize_spec(path@),
{
    let comps = split(chars_of(path).as_slice());
    let mut out: Vec<Vec<char>> = Vec::new();
    let mut i: usize = 0;
    while i < comps.len()
        invariant
            i <= comps.len(),
            deep(out@) == normalize_comps(deep(comps@).subrange(0, i as int)),
        decreases comps.len() - i,
    {
        let ghost pre = deep(comps@).subrange(0, i + 1);
        assert(pre.drop_last() == deep(comps@).subrange(0, i as int));
        assert(pre.last() == comps@[i as int]@);
        let ghost before = deep(out@);
        let pop = is_dotdot(&comps[i]) && out.len() > 0 && !(out.len() == 1 && is_root(&out[0]));
        if out.len() == 1 && is_root(&out[0]) {
            assert(before =~= seq![root_comp()]);
        }
        if out.len() == 1 && !is_root(&out[0]) {
            assert(before[0] != root_comp());
            assert(before != seq![root_comp()]);
        }
        assert(pop == (comps@[i as int]@ == seq!['.', '.'] && can_pop(before)));
        if pop {
            proof { lemma_deep_drop_last(out@); }
            out.pop();
        } else {
            let x = copy_chars(&comps[i]);
            proof { lemma_deep_push(out@, x); }
            out.push(x);
        }
        i += 1;
    }
    assert(deep(comps@).subrange(0, comps@.len() as int) == deep(comps@));
    string_of(render_exec(&out).as_slice())
}

/// The path to `path` from `base`, both absolute and normalized, with `/`
/// between components: "." for `base` itself, and starting with ".." when
/// `path` is outside `base`. `None` when they share no root.
pub fn relative(path: &str, base: &str) -> (r: Option<String>)
    ensures
        match r {
            Some(s) => relative_spec(path@, base@) == Some(s@),
            None => relative_spec(path@, base@).is_none(),
        },
{
    let p = split(chars_of(path).as_slice());
    let b = split(chars_of(base).as_slice());
    let ghost pv = deep(p@);
    let ghost bv = deep(b@);
    if (p.len() > 0) != (b.len() > 0) {
        return None;
    }
    if p.len() > 0 && !crate::text::str_eq(string_of(p[0].as_slice()).as_str(), string_of(b[0].as_slice()).as_str()) {
        return None;
    }
    let mut c: usize = 0;
    while c < p.len() && c < b.len() && crate::text::str_eq(string_of(p[c].as_slice()).as_str(), string_of(b[c].as_slice()).as_str())
        invariant
            c <= p.len(),
            c <= b.len(),
            pv == deep(p@),
            bv == deep(b@),
            common_len(pv, bv, 0) == common_len(pv, bv, c as int),
        decreases p.len() - c,
    {
        c += 1;
    }
    proof { lemma_common_len(pv, bv, c as int); }
    let mut parts: Vec<Vec<char>> = Vec::new();
    let mut k: usize = 0;
    while k < b.len() - c
        invariant
            c <= b.len(),
            k <= b.len() - c,
            deep(parts@) =~= Seq::new(k as nat, |i: int| seq!['.', '.']),
        decreases b.len() - c - k,
    {
        let mut up: Vec<char> = Vec::new();
        up.push('.');
        up.push('.');
        assert(up@ =~= seq!['.', '.']);
        proof { lemma_deep_push(parts@, up); }
        parts.push(up);
        k += 1;
        assert(deep(parts@) =~= Seq::new(k as nat, |i: int| seq!['.', '.']));
    }
    let mut j: usize = c;
    let ghost ups = deep(parts@);
    while j < p.len()
        invariant
            c <= j <= p.len(),
            pv == deep(p@),
            deep(parts@) =~= ups + pv.subrange(c as int, j as int),
        decreases p.len() - j,
    {
        let x = copy_chars(&p[j]);
        proof { lemma_deep_push(parts@, x); }
        parts.push(x);
        j += 1;
    }
    if parts.len() == 0 {
        let dot = chars_of(".");
        proof { reveal_strlit("."); }
        assert(dot@ =~= seq!['.']);
        return Some(string_of(dot.as_slice()));
    }
    let mut out: Vec<char> = Vec::new();
    push_join(&mut out, &parts, "/");
    proof { reveal_strlit("/"); }
    assert("/"@ =~= seq!['/']);
    Some(string_of(out.as_slice()))
}


/// `Path::join`: an absolute path stands alone, else it goes after `dir` and a `/`.
pub open spec fn join_spec(dir: Seq<char>, path: Seq<char>) -> Seq<char> {
    if path.len() > 0 && path[0] == '/' {
        path
    } else if dir.len() == 0 {
        path
    } else if dir.last() == '/' {
        dir + path
    } else {
        dir + seq!['/'] + path
    }
}

/// `Path::join`.
pub fn join_path(dir: &str, path: &str) -> (r: String)
    ensures
        r@ == join_spec(dir@, path@),
{
    let d = chars_of(dir);
    let p = chars_of(path);
    if p.len() > 0 && p[0] == '/' {
        return string_of(p.as_slice());
    }
    if d.len() == 0 {
        return string_of(p.as_slice());
    }
    let mut out: Vec<char> = Vec::new();
    crate::text::extend(&mut out, d.as_slice());
    if d[d.len() - 1] != '/' {
        out.push('/');
    }
    crate::text::extend(&mut out, p.as_slice());
    string_of(out.as_slice())
}

/// `Path::parent`'s text: the path without its last component.
pub open spec fn parent_spec(path: Seq<char>) -> Seq<char> {
    let c = components(path);
    if c.len() == 0 { Seq::empty() } else { render(c.drop_last()) }
}

/// The directory a file's path is in.
pub fn parent(path: &str) -> (r: String)
    ensures
        r@ == parent_spec(path@),
{
    let mut c = split(chars_of(path).as_slice());
    if c.len() == 0 {
        return string_of(Vec::<char>::new().as_slice());
    }
    proof { lemma_deep_drop_last(c@); }
    c.pop();
    string_of(render_exec(&c).as_slice())
}

/// `Path::ancestors`: the path, then each parent in turn, as components.
pub open spec fn ancestor_count(comps: Seq<Seq<char>>) -> int {
    if comps.len() > 0 && comps[0] == root_comp() { comps.len() as int } else { comps.len() as int + 1 }
}

/// The `k`-th ancestor, the path itself first.
pub open spec fn ancestor(comps: Seq<Seq<char>>, k: int) -> Seq<Seq<char>> {
    comps.subrange(0, comps.len() - k)
}

/// The path, then each parent in turn, as text.
pub fn ancestors(path: &str) -> (r: Vec<String>)
    ensures
        r@.len() == ancestor_count(components(path@)),
        forall|k: int| 0 <= k < r@.len() ==> (#[trigger] r@[k])@ == render(ancestor(components(path@), k)),
{
    let c = split(chars_of(path).as_slice());
    let ghost comps = components(path@);
    let absolute = c.len() > 0 && is_root(&c[0]);
    let last: usize = if absolute { 1 } else { 0 };
    let mut out: Vec<String> = Vec::new();
    let mut n: usize = c.len();
    let mut cur: Vec<Vec<char>> = Vec::new();
    let mut i: usize = 0;
    while i < c.len()
        invariant
            i <= c.len(),
            deep(cur@) =~= deep(c@).subrange(0, i as int),
        decreases c.len() - i,
    {
        let x = copy_chars(&c[i]);
        proof { lemma_deep_push(cur@, x); }
        cur.push(x);
        i += 1;
    }
    assert(deep(c@).subrange(0, c@.len() as int) == deep(c@));
    loop
        invariant_except_break
            out@.len() == c.len() - n,
        invariant
            deep(c@) == comps,
            last <= n <= c.len(),
            last == (if absolute { 1usize } else { 0usize }),
            absolute == (comps.len() > 0 && comps[0] == root_comp()),
            deep(cur@) == comps.subrange(0, n as int),
            out@.len() <= c.len() - n + 1,
            forall|k: int| 0 <= k < out@.len() ==> (#[trigger] out@[k])@ == render(ancestor(comps, k)),
        ensures
            out@.len() == ancestor_count(comps),
            forall|k: int| 0 <= k < out@.len() ==> (#[trigger] out@[k])@ == render(ancestor(comps, k)),
        decreases n,
    {
        let text = string_of(render_exec(&cur).as_slice());
        out.push(text);
        if n == last {
            break;
        }
        proof { lemma_deep_drop_last(cur@); }
        cur.pop();
        n -= 1;
    }
    out
}

// ---------------------------------------------------------------------------
// Law: a relative path leads back.
// ---------------------------------------------------------------------------

/// A component as `parts_from` gives it: not empty, not `.`, without `/`.
pub open spec fn plain_comp(c: Seq<char>) -> bool {
    c.len() > 0 && c != seq!['.'] && forall|j: int| 0 <= j < c.len() ==> #[trigger] c[j] != '/'
}

proof fn lemma_parts_shift(x: Seq<char>, y: Seq<char>, j: int, cur: Seq<char>)
    requires
        0 <= j,
    ensures
        parts_from(x + y, x.len() + j, cur) == parts_from(y, j, cur),
    decreases y.len() - j,
{
    if j < y.len() {
        assert((x + y)[x.len() + j] == y[j]);
        lemma_parts_shift(x, y, j + 1, Seq::empty());
        lemma_parts_shift(x, y, j + 1, cur.push(y[j]));
    }
}

/// Parsing `x/y` gives the parts of `x`, then those of `y`.
proof fn lemma_parts_split(x: Seq<char>, y: Seq<char>, i: int, cur: Seq<char>)
    requires
        0 <= i <= x.len(),
    ensures
        parts_from(x + seq!['/'] + y, i, cur) == parts_from(x, i, cur) + parts_from(y, 0, Seq::empty()),
    decreases x.len() - i,
{
    let t = x + seq!['/'] + y;
    if i == x.len() {
        assert(t[i] == '/');
        lemma_parts_shift(x + seq!['/'], y, 0, Seq::empty());
        assert((x + seq!['/']).len() == i + 1);
        assert(t == (x + seq!['/']) + y);
    } else {
        assert(t[i] == x[i]);
        if x[i] == '/' {
            lemma_parts_split(x, y, i + 1, Seq::empty());
            assert(parts_from(t, i, cur) == flush(cur) + parts_from(t, i + 1, Seq::empty()));
        } else {
            lemma_parts_split(x, y, i + 1, cur.push(x[i]));
        }
    }
}

/// A word without `/` is one component, or none.
proof fn lemma_parts_word(w: Seq<char>, i: int, cur: Seq<char>)
    requires
        0 <= i <= w.len(),
        forall|j: int| 0 <= j < w.len() ==> #[trigger] w[j] != '/',
    ensures
        parts_from(w, i, cur) == flush(cur + w.subrange(i, w.len() as int)),
    decreases w.len() - i,
{
    if i < w.len() {
        lemma_parts_word(w, i + 1, cur.push(w[i]));
        assert(cur.push(w[i]) + w.subrange(i + 1, w.len() as int) =~= cur + w.subrange(i, w.len() as int));
    } else {
        assert(cur + w.subrange(i, w.len() as int) =~= cur);
    }
}

/// Every component `parts_from` gives is plain.
proof fn lemma_parts_plain(s: Seq<char>, i: int, cur: Seq<char>)
    requires
        0 <= i,
        forall|j: int| 0 <= j < cur.len() ==> #[trigger] cur[j] != '/',
    ensures
        forall|k: int| 0 <= k < parts_from(s, i, cur).len() ==> plain_comp(#[trigger] parts_from(s, i, cur)[k]),
    decreases s.len() - i,
{
    let a = flush(cur);
    assert forall|k: int| 0 <= k < a.len() implies plain_comp(#[trigger] a[k]) by {
        assert(a[k] == cur);
    }
    if i < s.len() {
        if s[i] == '/' {
            lemma_parts_plain(s, i + 1, Seq::empty());
            let b = parts_from(s, i + 1, Seq::empty());
            assert(parts_from(s, i, cur) == a + b);
            assert forall|k: int| 0 <= k < (a + b).len() implies plain_comp(#[trigger] (a + b)[k]) by {
                if k >= a.len() {
                    assert((a + b)[k] == b[k - a.len()]);
                }
            }
        } else {
            assert forall|j: int| 0 <= j < cur.push(s[i]).len() implies #[trigger] cur.push(s[i])[j] != '/' by {
                if j < cur.len() {
                    assert(cur.push(s[i])[j] == cur[j]);
                }
            }
            lemma_parts_plain(s, i + 1, cur.push(s[i]));
            assert(parts_from(s, i, cur) == parts_from(s, i + 1, cur.push(s[i])));
        }
    } else {
        assert(parts_from(s, i, cur) == a);
    }
}

/// Joined plain components read back as themselves.
proof fn lemma_parts_join(ps: Seq<Seq<char>>)
    requires
        ps.len() > 0,
        forall|k: int| 0 <= k < ps.len() ==> plain_comp(#[trigger] ps[k]),
    ensures
        parts_from(join(ps, seq!['/']), 0, Seq::empty()) == ps,
        join(ps, seq!['/']).len() > 0,
        join(ps, seq!['/'])[0] == ps[0][0],
    decreases ps.len(),
{
    let last = ps.last();
    assert(plain_comp(ps[ps.len() - 1]));
    lemma_parts_word(last, 0, Seq::empty());
    assert(Seq::<char>::empty() + last.subrange(0, last.len() as int) =~= last);
    if ps.len() == 1 {
        assert(ps =~= seq![last]);
    } else {
        let init = ps.drop_last();
        assert forall|k: int| 0 <= k < init.len() implies plain_comp(#[trigger] init[k]) by {
            assert(init[k] == ps[k]);
        }
        lemma_parts_join(init);
        lemma_parts_split(join(init, seq!['/']), last, 0, Seq::empty());
        assert(join(ps, seq!['/']) == join(init, seq!['/']) + seq!['/'] + last);
        assert(init + seq![last] =~= ps);
        assert(plain_comp(ps[0]));
    }
}

/// One step of folding `..`.
pub open spec fn fold_step(out: Seq<Seq<char>>, c: Seq<char>) -> Seq<Seq<char>> {
    if c == seq!['.', '.'] && can_pop(out) { out.drop_last() } else { out.push(c) }
}

/// Folding the components `ys` onto `out`.
pub open spec fn fold_all(out: Seq<Seq<char>>, ys: Seq<Seq<char>>) -> Seq<Seq<char>>
    decreases ys.len(),
{
    if ys.len() == 0 { out } else { fold_step(fold_all(out, ys.drop_last()), ys.last()) }
}

proof fn lemma_normalize_concat(xs: Seq<Seq<char>>, ys: Seq<Seq<char>>)
    ensures
        normalize_comps(xs + ys) == fold_all(normalize_comps(xs), ys),
    decreases ys.len(),
{
    if ys.len() == 0 {
        assert(xs + ys =~= xs);
    } else {
        lemma_normalize_concat(xs, ys.drop_last());
        assert((xs + ys).drop_last() =~= xs + ys.drop_last());
        assert((xs + ys).last() == ys.last());
    }
}

proof fn lemma_fold_concat(out: Seq<Seq<char>>, a: Seq<Seq<char>>, b: Seq<Seq<char>>)
    ensures
        fold_all(out, a + b) == fold_all(fold_all(out, a), b),
    decreases b.len(),
{
    if b.len() == 0 {
        assert(a + b =~= a);
    } else {
        lemma_fold_concat(out, a, b.drop_last());
        assert((a + b).drop_last() =~= a + b.drop_last());
        assert((a + b).last() == b.last());
    }
}

proof fn lemma_fold_plain(out: Seq<Seq<char>>, ys: Seq<Seq<char>>)
    requires
        forall|k: int| 0 <= k < ys.len() ==> #[trigger] ys[k] != seq!['.', '.'],
    ensures
        fold_all(out, ys) == out + ys,
    decreases ys.len(),
{
    if ys.len() > 0 {
        assert(ys.last() == ys[ys.len() - 1]);
        lemma_fold_plain(out, ys.drop_last());
        assert(out + ys.drop_last() + seq![ys.last()] =~= out + ys);
    } else {
        assert(out + ys =~= out);
    }
}

proof fn lemma_fold_dots(out: Seq<Seq<char>>, k: int)
    requires
        0 <= k < out.len(),
    ensures
        fold_all(out, Seq::new(k as nat, |i: int| seq!['.', '.'])) == out.subrange(0, out.len() - k),
    decreases k,
{
    let dots = Seq::new(k as nat, |i: int| seq!['.', '.']);
    if k == 0 {
        assert(out.subrange(0, out.len() as int) == out);
    } else {
        assert(dots.drop_last() =~= Seq::new((k - 1) as nat, |i: int| seq!['.', '.']));
        lemma_fold_dots(out, k - 1);
        let before = out.subrange(0, out.len() - (k - 1));
        assert(before.len() >= 2);
        assert(before != seq![root_comp()]);
        assert(before.drop_last() =~= out.subrange(0, out.len() - k));
    }
}

proof fn lemma_normalize_plain(xs: Seq<Seq<char>>)
    requires
        forall|k: int| 0 <= k < xs.len() ==> #[trigger] xs[k] != seq!['.', '.'],
    ensures
        normalize_comps(xs) == xs,
    decreases xs.len(),
{
    if xs.len() > 0 {
        assert(xs.last() == xs[xs.len() - 1]);
        lemma_normalize_plain(xs.drop_last());
        assert(xs.drop_last().push(xs.last()) =~= xs);
    }
}

/// An absolute path: its components start at the root, and none is `..`.
pub open spec fn absolute_without_dotdot(p: Seq<char>) -> bool {
    &&& p.len() > 0
    &&& p[0] == '/'
    &&& forall|k: int| 0 <= k < components(p).len() ==> #[trigger] components(p)[k] != seq!['.', '.']
}

proof fn lemma_absolute_components(p: Seq<char>)
    requires
        p.len() > 0,
        p[0] == '/',
    ensures
        components(p).len() >= 1,
        components(p)[0] == root_comp(),
        forall|k: int| 1 <= k < components(p).len() ==> plain_comp(#[trigger] components(p)[k]),
{
    lemma_parts_plain(p, 0, Seq::empty());
    let ps = parts_from(p, 0, Seq::empty());
    assert forall|k: int| 1 <= k < components(p).len() implies plain_comp(#[trigger] components(p)[k]) by {
        assert(components(p)[k] == ps[k - 1]);
    }
}

/// `r` is `..` or starts with `../`.
pub open spec fn leads_up(r: Seq<char>) -> bool {
    r == seq!['.', '.'] || (r.len() >= 3 && r.subrange(0, 3) == seq!['.', '.', '/'])
}

/// The components `p` are those of `b`, or lie beneath them.
pub open spec fn within(p: Seq<Seq<char>>, b: Seq<Seq<char>>) -> bool {
    b.len() <= p.len() && p.subrange(0, b.len() as int) == b
}

/// The first part of joined parts stands at the front, then the separator.
proof fn lemma_join_front(ps: Seq<Seq<char>>)
    requires
        ps.len() > 0,
    ensures
        join(ps, seq!['/']).len() >= ps[0].len(),
        join(ps, seq!['/']).subrange(0, ps[0].len() as int) == ps[0],
        ps.len() == 1 ==> join(ps, seq!['/']) == ps[0],
        ps.len() > 1 ==> join(ps, seq!['/']).len() > ps[0].len() && join(ps, seq!['/'])[ps[0].len() as int] == '/',
    decreases ps.len(),
{
    let j = join(ps, seq!['/']);
    if ps.len() == 1 {
        assert(j.subrange(0, ps[0].len() as int) =~= ps[0]);
    } else {
        let init = ps.drop_last();
        lemma_join_front(init);
        let ji = join(init, seq!['/']);
        assert(j == ji + seq!['/'] + ps.last());
        assert(init[0] == ps[0]);
        assert(j.subrange(0, ps[0].len() as int) =~= ji.subrange(0, ps[0].len() as int));
        if init.len() == 1 {
            assert(j[ps[0].len() as int] == '/');
        } else {
            assert(j[ps[0].len() as int] == ji[ps[0].len() as int]);
        }
    }
}

/// Where `common_len` stops, the two differ or one has ended.
proof fn lemma_common_stop(a: Seq<Seq<char>>, b: Seq<Seq<char>>, i: int)
    requires
        0 <= i,
    ensures
        !(common_len(a, b, i) < a.len() && common_len(a, b, i) < b.len()
            && a[common_len(a, b, i)] == b[common_len(a, b, i)]),
    decreases a.len() - i,
{
    if 0 <= i < a.len() && i < b.len() && a[i] == b[i] {
        lemma_common_stop(a, b, i + 1);
    }
}

/// The path `relative` gives leads back: joined to the base and
/// normalized, it is the path again. It is `.` exactly for the base itself,
/// and it climbs with `..` exactly when the path is neither the base nor
/// beneath it. Both are absolute and free of `..`.
pub proof fn law_relative_leads_back(path: Seq<char>, base: Seq<char>)
    requires
        absolute_without_dotdot(path),
        absolute_without_dotdot(base),
    ensures
        relative_spec(path, base) is Some,
        normalize_spec(join_spec(base, relative_spec(path, base)->0)) == normalize_spec(path),
        (relative_spec(path, base)->0 == seq!['.']) == (components(path) == components(base)),
        leads_up(relative_spec(path, base)->0) == !within(components(path), components(base)),
{
    let p = components(path);
    let b = components(base);
    lemma_absolute_components(path);
    lemma_absolute_components(base);
    lemma_common_len(p, b, 1);
    let c = common_len(p, b, 0);
    assert(c == common_len(p, b, 1));
    assert(1 <= c <= p.len() && c <= b.len());
    // The shared prefix.
    assert forall|i: int| 0 <= i < c implies p[i] == b[i] by {
        lemma_common_prefix(p, b, 0, i);
    }
    let dots = Seq::new((b.len() - c) as nat, |i: int| seq!['.', '.']);
    let tail = p.subrange(c, p.len() as int);
    let parts = dots + tail;
    let r = if parts.len() == 0 { seq!['.'] } else { join(parts, seq!['/']) };
    assert(relative_spec(path, base) == Some(r));
    // The parts of `r`.
    assert forall|k: int| 0 <= k < parts.len() implies plain_comp(#[trigger] parts[k]) by {
        if k < dots.len() {
            assert(parts[k] == seq!['.', '.']);
            assert(seq!['.', '.'][1] != '/');
        } else {
            assert(parts[k] == p[c + (k - dots.len())]);
        }
    }
    let rparts = parts_from(r, 0, Seq::empty());
    if parts.len() == 0 {
        lemma_parts_word(r, 0, Seq::empty());
        assert(Seq::<char>::empty() + r.subrange(0, 1) =~= seq!['.']);
        assert(rparts == Seq::<Seq<char>>::empty());
    } else {
        lemma_parts_join(parts);
        assert(rparts == parts);
        if r == seq!['.'] {
            lemma_parts_word(r, 0, Seq::empty());
            assert(Seq::<char>::empty() + r.subrange(0, 1) =~= seq!['.']);
        }
        if p == b {
            lemma_common_len(p, b, 0);
            assert(common_len(p, b, p.len() as int) == p.len());
            assert(c == p.len()) by {
                lemma_common_all(p, b, 0);
            }
        }
    }
    assert(r.len() > 0 && r[0] != '/') by {
        if parts.len() > 0 {
            assert(plain_comp(parts[0]));
            assert(parts[0][0] != '/');
        }
    }
    // The components of the joined path.
    let joined = join_spec(base, r);
    let x = if base.last() == '/' { base.drop_last() } else { base };
    assert(joined =~= x + seq!['/'] + r);
    assert(base =~= x + seq!['/'] + Seq::<char>::empty() || base == x);
    lemma_parts_split(x, r, 0, Seq::empty());
    if base.last() == '/' {
        lemma_parts_split(x, Seq::<char>::empty(), 0, Seq::empty());
        assert(base =~= x + seq!['/'] + Seq::<char>::empty());
        assert(parts_from(Seq::<char>::empty(), 0, Seq::empty()) == Seq::<Seq<char>>::empty());
    } else {
        lemma_parts_split(base, Seq::<char>::empty(), 0, Seq::empty());
    }
    assert(parts_from(base, 0, Seq::empty()) == parts_from(x, 0, Seq::empty()));
    assert(joined[0] == '/');
    assert(components(joined) =~= b + rparts);
    // Folding the `..` back to the shared prefix, then the rest of the path.
    assert forall|k: int| 0 <= k < b.len() implies #[trigger] b[k] != seq!['.', '.'] by {}
    lemma_normalize_plain(b);
    lemma_normalize_concat(b, rparts);
    if parts.len() == 0 {
        assert(rparts.len() == 0);
        assert(b + rparts =~= b);
        assert(c == b.len() && c == p.len());
        assert(p =~= b);
    } else {
        lemma_fold_concat(b, dots, tail);
        lemma_fold_dots(b, b.len() - c);
        assert(b.subrange(0, b.len() - (b.len() - c)) =~= p.subrange(0, c));
        assert forall|k: int| 0 <= k < tail.len() implies #[trigger] tail[k] != seq!['.', '.'] by {
            assert(tail[k] == p[c + k]);
        }
        lemma_fold_plain(p.subrange(0, c), tail);
        assert(p.subrange(0, c) + tail =~= p);
    }
    assert forall|k: int| 0 <= k < p.len() implies #[trigger] p[k] != seq!['.', '.'] by {}
    lemma_normalize_plain(p);
    // It leads up exactly when the base is not a prefix of the path.
    if dots.len() > 0 {
        lemma_common_stop(p, b, 0);
        assert(!within(p, b)) by {
            if within(p, b) {
                assert(p[c] == p.subrange(0, b.len() as int)[c]);
            }
        }
        assert(parts[0] == seq!['.', '.']);
        lemma_join_front(parts);
        if parts.len() > 1 {
            assert(r.subrange(0, 3) =~= seq!['.', '.', '/']) by {
                assert(r.subrange(0, 2)[0] == r[0] && r.subrange(0, 2)[1] == r[1]);
            }
        }
    } else {
        assert(within(p, b)) by {
            assert(p.subrange(0, b.len() as int) =~= b);
        }
        if parts.len() > 0 {
            lemma_join_front(parts);
            let f = parts[0];
            assert(f == p[c]);
            assert(plain_comp(f));
            assert(f != seq!['.', '.']);
            if r == seq!['.', '.'] {
                if parts.len() == 1 {
                    assert(false);
                } else {
                    assert(r[f.len() as int] == '/');
                }
            }
            if r.len() >= 3 && r.subrange(0, 3) == seq!['.', '.', '/'] {
                assert(r[0] == '.' && r[1] == '.' && r[2] == '/') by {
                    assert(r.subrange(0, 3)[0] == r[0]);
                    assert(r.subrange(0, 3)[1] == r[1]);
                    assert(r.subrange(0, 3)[2] == r[2]);
                }
                if f.len() == 1 {
                    assert(r[1] == '/');
                } else if f.len() == 2 {
                    assert(f =~= seq!['.', '.']) by {
                        assert(f[0] == r.subrange(0, 2)[0]);
                        assert(f[1] == r.subrange(0, 2)[1]);
                    }
                } else {
                    assert(f[2] == r.subrange(0, f.len() as int)[2]);
                }
            }
        }
    }
}

proof fn lemma_common_all(a: Seq<Seq<char>>, b: Seq<Seq<char>>, i: int)
    requires
        0 <= i <= a.len(),
        a == b,
    ensures
        common_len(a, b, i) == a.len(),
    decreases a.len() - i,
{
    if i < a.len() {
        lemma_common_all(a, b, i + 1);
    }
}

proof fn lemma_common_prefix(a: Seq<Seq<char>>, b: Seq<Seq<char>>, i: int, k: int)
    requires
        0 <= i <= k < common_len(a, b, i),
    ensures
        a[k] == b[k],
    decreases k - i,
{
    if i < k {
        lemma_common_prefix(a, b, i + 1, k);
    }
}

} // verus!
