//! The git commands file discovery needs, and what their output means.
//! Running a command is the caller's: it hands back what git printed.

use vstd::prelude::*;

use crate::error::Error;
use crate::text::{
    append, chars_of, deep, join, push_join, string_of, trim, trim_end, trim_end_white, trim_start_white,
};

verus! {

/// The text `String::from_utf8_lossy` makes of `bytes`: each invalid
/// sequence becomes U+FFFD.
pub uninterp spec fn utf8_lossy(bytes: Seq<u8>) -> Seq<char>;

/// `String::from_utf8_lossy`, made an owned `String`. The result is a
/// function of the bytes alone, so it is named rather than spelled out.
#[verifier::external_body]
fn lossy(bytes: &[u8]) -> (r: String)
    ensures
        r@ == utf8_lossy(bytes@),
{
    String::from_utf8_lossy(bytes).into_owned()
}

/// The text of each string.
pub open spec fn texts(v: Seq<String>) -> Seq<Seq<char>> {
    v.map_values(|s: String| s@)
}

/// Where git runs: the config root.
pub struct Git {
    root: String,
}

impl Git {
    pub closed spec fn root_spec(&self) -> Seq<char> {
        self.root@
    }

    pub fn new(root: String) -> (g: Git)
        ensures
            g.root_spec() == root@,
    {
        Git { root }
    }

    /// The directory the commands run in.
    pub fn root(&self) -> (r: &str)
        ensures
            r@ == self.root_spec(),
    {
        self.root.as_str()
    }
}

fn words2(a: &str, b: &str) -> (r: Vec<String>)
    ensures
        texts(r@) == seq![a@, b@],
{
    let mut r: Vec<String> = Vec::new();
    r.push(a.to_owned());
    r.push(b.to_owned());
    assert(texts(r@) =~= seq![a@, b@]);
    r
}

fn push_word(v: &mut Vec<String>, w: &str)
    ensures
        texts(final(v)@) == texts(old(v)@).push(w@),
{
    v.push(w.to_owned());
    assert(texts(v@) =~= texts(old(v)@).push(w@));
}

/// Lists added, copied, modified and renamed files, but not deleted ones.
pub open spec fn change_filter() -> Seq<char> {
    "--diff-filter=ACMR"@
}

/// `git rev-parse --is-inside-work-tree`.
pub fn is_repository_args() -> (r: Vec<String>)
    ensures
        texts(r@) == seq!["rev-parse"@, "--is-inside-work-tree"@],
{
    words2("rev-parse", "--is-inside-work-tree")
}

/// Tracked and untracked files, honouring .gitignore, under the given paths.
pub fn files_args(pathspecs: &Vec<String>) -> (r: Vec<String>)
    ensures
        texts(r@) == seq!["ls-files"@, "-z"@, "--cached"@, "--others"@, "--exclude-standard"@, "--"@] + texts(
            pathspecs@,
        ),
{
    let mut r = words2("ls-files", "-z");
    push_word(&mut r, "--cached");
    push_word(&mut r, "--others");
    push_word(&mut r, "--exclude-standard");
    push_word(&mut r, "--");
    let ghost head = texts(r@);
    assert(head =~= seq!["ls-files"@, "-z"@, "--cached"@, "--others"@, "--exclude-standard"@, "--"@]);
    let mut i: usize = 0;
    while i < pathspecs.len()
        invariant
            i <= pathspecs.len(),
            texts(r@) == head + texts(pathspecs@.subrange(0, i as int)),
        decreases pathspecs.len() - i,
    {
        push_word(&mut r, pathspecs[i].as_str());
        assert(texts(pathspecs@.subrange(0, i + 1)) =~= texts(pathspecs@.subrange(0, i as int)).push(
            pathspecs@[i as int]@,
        ));
        i += 1;
    }
    assert(pathspecs@.subrange(0, pathspecs@.len() as int) == pathspecs@);
    r
}

/// The files staged for the next commit.
pub fn staged_files_args() -> (r: Vec<String>)
    ensures
        texts(r@) == seq!["diff"@, "-z"@, "--cached"@, "--name-only"@, change_filter()],
{
    let mut r = words2("diff", "-z");
    push_word(&mut r, "--cached");
    push_word(&mut r, "--name-only");
    push_word(&mut r, "--diff-filter=ACMR");
    assert(texts(r@) =~= seq!["diff"@, "-z"@, "--cached"@, "--name-only"@, change_filter()]);
    r
}

/// The merge base of `reference` and HEAD.
pub fn merge_base_args(reference: &str) -> (r: Vec<String>)
    ensures
        texts(r@) == seq!["merge-base"@, reference@, "HEAD"@],
{
    let mut r = words2("merge-base", reference);
    push_word(&mut r, "HEAD");
    assert(texts(r@) =~= seq!["merge-base"@, reference@, "HEAD"@]);
    r
}

/// The files that differ between the working tree and `base`.
pub fn changed_args(base: &str) -> (r: Vec<String>)
    ensures
        texts(r@) == seq!["diff"@, "-z"@, "--name-only"@, change_filter(), base@],
{
    let mut r = words2("diff", "-z");
    push_word(&mut r, "--name-only");
    push_word(&mut r, "--diff-filter=ACMR");
    push_word(&mut r, base);
    assert(texts(r@) =~= seq!["diff"@, "-z"@, "--name-only"@, change_filter(), base@]);
    r
}

/// The untracked files that .gitignore does not exclude.
pub fn untracked_args() -> (r: Vec<String>)
    ensures
        texts(r@) == seq!["ls-files"@, "-z"@, "--others"@, "--exclude-standard"@],
{
    let mut r = words2("ls-files", "-z");
    push_word(&mut r, "--others");
    push_word(&mut r, "--exclude-standard");
    assert(texts(r@) =~= seq!["ls-files"@, "-z"@, "--others"@, "--exclude-standard"@]);
    r
}

/// The content of `path` as staged in the index.
pub fn show_args(path: &str) -> (r: Vec<String>)
    ensures
        texts(r@) == seq!["show"@, ":"@ + path@],
{
    let mut spec: Vec<char> = Vec::new();
    append(&mut spec, ":");
    append(&mut spec, path);
    let mut r: Vec<String> = Vec::new();
    push_word(&mut r, "show");
    let w = string_of(spec.as_slice());
    push_word(&mut r, w.as_str());
    assert(texts(r@) =~= seq!["show"@, ":"@ + path@]);
    r
}

/// Whether `git rev-parse --is-inside-work-tree` said yes: it ran, and
/// printed `true`.
pub fn is_repository_answer(out: &Result<Vec<u8>, Error>) -> (r: bool)
    ensures
        r == match out {
            Ok(o) => trim_end_white(utf8_lossy(o@)) == "true"@,
            Err(_) => false,
        },
{
    match out {
        Ok(o) => {
            let t = trim_end(chars_of(lossy(o.as_slice()).as_str()).as_slice());
            proof {
                reveal_strlit("true");
                assert("true"@ =~= seq!['t', 'r', 'u', 'e']);
            }
            let yes = t.len() == 4 && t[0] == 't' && t[1] == 'r' && t[2] == 'u' && t[3] == 'e';
            if yes {
                assert(t@ =~= "true"@);
            }
            yes
        },
        Err(_) => false,
    }
}

/// What the diff is taken against: the merge base git printed, or the
/// reference itself where git found none.
pub fn base_for(merge_base: &Result<Vec<u8>, Error>, reference: &str) -> (r: String)
    ensures
        r@ == match merge_base {
            Ok(o) => trim_end_white(utf8_lossy(o@)),
            Err(_) => reference@,
        },
{
    match merge_base {
        Ok(o) => string_of(trim_end(chars_of(lossy(o.as_slice()).as_str()).as_slice()).as_slice()),
        Err(_) => reference.to_owned(),
    }
}

/// Where the field after the last NUL of `b` starts.
pub open spec fn field_start(b: Seq<u8>) -> int
    decreases b.len(),
{
    if b.len() == 0 {
        0
    } else if b.last() == 0 {
        b.len() as int
    } else {
        field_start(b.drop_last())
    }
}

/// The non-empty fields of `b` that a NUL ends.
pub open spec fn closed_fields(b: Seq<u8>) -> Seq<Seq<u8>>
    decreases b.len(),
{
    if b.len() == 0 {
        Seq::empty()
    } else if b.last() == 0 {
        let p = b.drop_last();
        let f = p.subrange(field_start(p), p.len() as int);
        if f.len() > 0 { closed_fields(p).push(f) } else { closed_fields(p) }
    } else {
        closed_fields(b.drop_last())
    }
}

/// The non-empty fields of `b` between its NULs, in order.
pub open spec fn nul_fields(b: Seq<u8>) -> Seq<Seq<u8>> {
    let tail = b.subrange(field_start(b), b.len() as int);
    if tail.len() > 0 { closed_fields(b).push(tail) } else { closed_fields(b) }
}

proof fn lemma_field_start(b: Seq<u8>)
    ensures
        0 <= field_start(b) <= b.len(),
    decreases b.len(),
{
    if b.len() > 0 && b.last() != 0 {
        lemma_field_start(b.drop_last());
    }
}

/// The paths of a `-z` listing: NUL-separated, empty fields dropped, each
/// read as UTF-8 with invalid sequences replaced.
pub fn nul_separated(out: &[u8]) -> (r: Vec<String>)
    ensures
        texts(r@) == nul_fields(out@).map_values(|f: Seq<u8>| utf8_lossy(f)),
{
    let mut r: Vec<String> = Vec::new();
    let mut start: usize = 0;
    let mut i: usize = 0;
    while i < out.len()
        invariant
            start <= i <= out.len(),
            start == field_start(out@.subrange(0, i as int)),
            texts(r@) == closed_fields(out@.subrange(0, i as int)).map_values(|f: Seq<u8>| utf8_lossy(f)),
        decreases out.len() - i,
    {
        let ghost pre = out@.subrange(0, i + 1);
        assert(pre.drop_last() == out@.subrange(0, i as int));
        if out[i] == 0 {
            if i > start {
                let field = &out[start..i];
                let ghost before = texts(r@);
                r.push(lossy(field));
                assert(field@ == pre.drop_last().subrange(start as int, i as int));
                assert(texts(r@) =~= before.push(utf8_lossy(field@)));
            } else {
                assert(pre.drop_last().subrange(start as int, i as int).len() == 0);
            }
            start = i + 1;
        }
        i += 1;
    }
    assert(out@.subrange(0, out@.len() as int) == out@);
    proof { lemma_field_start(out@); }
    if out.len() > start {
        let field = &out[start..out.len()];
        let ghost before = texts(r@);
        r.push(lossy(field));
        assert(texts(r@) =~= before.push(utf8_lossy(field@)));
    }
    r
}

pub open spec fn failure_message(args: Seq<String>, stderr: Seq<u8>) -> Seq<char> {
    "git "@ + join(texts(args), " "@) + " failed: "@ + trim_start_white(trim_end_white(utf8_lossy(stderr)))
}

/// The error when a git command exits unsuccessfully: the command, and what
/// it printed on stderr.
pub fn failure(args: &Vec<String>, stderr: &[u8]) -> (e: Error)
    ensures
        e@ == failure_message(args@, stderr@),
{
    let mut parts: Vec<Vec<char>> = Vec::new();
    let mut i: usize = 0;
    while i < args.len()
        invariant
            i <= args.len(),
            deep(parts@) == texts(args@.subrange(0, i as int)),
        decreases args.len() - i,
    {
        let ghost before = deep(parts@);
        parts.push(chars_of(args[i].as_str()));
        assert(deep(parts@) =~= before.push(args@[i as int]@));
        assert(texts(args@.subrange(0, i + 1)) =~= texts(args@.subrange(0, i as int)).push(args@[i as int]@));
        i += 1;
    }
    assert(args@.subrange(0, args@.len() as int) == args@);
    let mut m: Vec<char> = Vec::new();
    append(&mut m, "git ");
    push_join(&mut m, &parts, " ");
    append(&mut m, " failed: ");
    let said = trim(chars_of(lossy(stderr).as_str()).as_slice());
    crate::text::extend(&mut m, said.as_slice());
    Error::new(string_of(m.as_slice()))
}

/// The error when git could not be started at all.
pub fn spawn_failure(reason: &str) -> (e: Error)
    ensures
        e@ == "could not run git: "@ + reason@,
{
    let mut m = chars_of("could not run git: ");
    append(&mut m, reason);
    Error::new(string_of(m.as_slice()))
}

} // verus!
