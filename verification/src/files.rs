//! Which files a run looks at, always as paths relative to the config root
//! with forward slashes, in a stable order. Listing them (git, or a walk of
//! the tree) is the caller's; this module decides what the listings mean.

use vstd::prelude::*;

use crate::error::Error;
use crate::git::Git;
use crate::order::{keys_lt, sort_spec, sorted, stable_sort, Keyed};
use crate::paths::relative_spec;
use crate::text::{append, chars_of, deep, extend, str_eq, string_of};

verus! {

/// A file to lint: a root-relative path, and where to read its content from.
/// Reading from the index is what lets `--staged` lint what is being committed
/// rather than the working tree.
#[derive(Debug, Clone, PartialEq, Eq)]
pub struct SourceFile {
    pub path: String,
    from_index: bool,
}

impl SourceFile {
    pub closed spec fn from_index_spec(&self) -> bool {
        self.from_index
    }

    pub closed spec fn path_spec(&self) -> Seq<char> {
        self.path@
    }

    pub fn in_working_tree(path: &str) -> (f: SourceFile)
        ensures
            f.path_spec() == path@,
            !f.from_index_spec(),
    {
        SourceFile { path: string_of(chars_of(path).as_slice()), from_index: false }
    }

    pub fn in_index(path: &str) -> (f: SourceFile)
        ensures
            f.path_spec() == path@,
            f.from_index_spec(),
    {
        SourceFile { path: string_of(chars_of(path).as_slice()), from_index: true }
    }

    pub fn path(&self) -> (r: &str)
        ensures
            r@ == self.path_spec(),
    {
        self.path.as_str()
    }

    /// Whether the content is read from the index rather than the working tree.
    pub fn from_index(&self) -> (r: bool)
        ensures
            r == self.from_index_spec(),
    {
        self.from_index
    }
}

impl Keyed for String {
    open spec fn key_spec(&self) -> Seq<Seq<char>> {
        seq![self@]
    }

    fn key(&self) -> (r: Vec<Vec<char>>) {
        let mut r: Vec<Vec<char>> = Vec::new();
        r.push(chars_of(self.as_str()));
        assert(deep(r@) =~= self.key_spec());
        r
    }
}

/// The paths without the repeats of a path just before.
pub open spec fn dedup_spec(s: Seq<String>) -> Seq<Seq<char>>
    decreases s.len(),
{
    if s.len() == 0 {
        Seq::empty()
    } else if s.len() >= 2 && s[s.len() - 2]@ == s.last()@ {
        dedup_spec(s.drop_last())
    } else {
        dedup_spec(s.drop_last()).push(s.last()@)
    }
}

/// Sorted, and each path once.
pub fn sort_unique(paths: Vec<String>) -> (r: Vec<String>)
    ensures
        r@.map_values(|s: String| s@) == dedup_spec(sort_spec(paths@)),
{
    let mut paths = paths;
    stable_sort(&mut paths);
    let ghost s = paths@;
    let mut out: Vec<String> = Vec::new();
    let mut i: usize = 0;
    while i < paths.len()
        invariant
            i <= paths.len(),
            s == paths@,
            out@.map_values(|x: String| x@) == dedup_spec(s.subrange(0, i as int)),
        decreases paths.len() - i,
    {
        let pre = Ghost(s.subrange(0, i + 1));
        assert(pre@.drop_last() == s.subrange(0, i as int));
        assert(pre@.last() == s[i as int]);
        if i > 0 && str_eq(paths[i - 1].as_str(), paths[i].as_str()) {
            assert(pre@[pre@.len() - 2] == s[i - 1]);
        } else {
            if i > 0 {
                assert(pre@[pre@.len() - 2] == s[i - 1]);
            }
            let ghost before = out@;
            out.push(paths[i].clone());
            assert(out@.map_values(|x: String| x@) =~= before.map_values(|x: String| x@).push(s[i as int]@));
        }
        i += 1;
    }
    assert(s.subrange(0, s.len() as int) == s);
    out
}

/// Whether a relative path leaves the root.
pub open spec fn outside_root(rel: Seq<char>) -> bool {
    rel == seq!['.', '.'] || (rel.len() >= 3 && rel[0] == '.' && rel[1] == '.' && rel[2] == '/')
}

pub open spec fn outside_message(absolute: Seq<char>, root: Seq<char>) -> Seq<char> {
    absolute + " is outside the config root "@ + root
}

/// The root-relative path of an absolute path, which must be at or beneath the root.
pub fn root_relative(absolute: &str, root: &str) -> (r: Result<String, Error>)
    ensures
        match r {
            Ok(rel) => relative_spec(absolute@, root@) == Some(rel@) && !outside_root(rel@),
            Err(e) => e@ == outside_message(absolute@, root@) && match relative_spec(absolute@, root@) {
                Some(rel) => outside_root(rel),
                None => true,
            },
        },
{
    match crate::paths::relative(absolute, root) {
        Some(rel) => {
            let c = chars_of(rel.as_str());
            let up = (c.len() == 2 && c[0] == '.' && c[1] == '.') || (c.len() >= 3 && c[0] == '.' && c[1] == '.'
                && c[2] == '/');
            if c.len() == 2 && c[0] == '.' && c[1] == '.' {
                assert(c@ =~= seq!['.', '.']);
            }
            if !up {
                return Ok(rel);
            }
        },
        None => {},
    }
    let mut m = chars_of(absolute);
    append(&mut m, " is outside the config root ");
    append(&mut m, root);
    Err(Error::new(string_of(m.as_slice())))
}

/// Whether a walked path is git's own.
pub open spec fn is_git_dir(p: Seq<char>) -> bool {
    p == ".git"@ || (p.len() >= 5 && p.subrange(0, 5) == ".git/"@)
}

/// The prefix that makes a path found beneath a directory root-relative.
pub open spec fn dir_prefix(rel: Seq<char>) -> Seq<char> {
    if rel == seq!['.'] { Seq::empty() } else { rel + seq!['/'] }
}

/// The paths a walk of the directory at `rel` found, made root-relative,
/// without git's own directory.
pub open spec fn walked_spec(found: Seq<String>, rel: Seq<char>) -> Seq<Seq<char>>
    decreases found.len(),
{
    if found.len() == 0 {
        Seq::empty()
    } else if is_git_dir(found.last()@) {
        walked_spec(found.drop_last(), rel)
    } else {
        walked_spec(found.drop_last(), rel).push(dir_prefix(rel) + found.last()@)
    }
}

fn is_git_path(p: &String) -> (r: bool)
    ensures
        r == is_git_dir(p@),
{
    let c = chars_of(p.as_str());
    let exact = c.len() == 4 && c[0] == '.' && c[1] == 'g' && c[2] == 'i' && c[3] == 't';
    let under = c.len() >= 5 && c[0] == '.' && c[1] == 'g' && c[2] == 'i' && c[3] == 't' && c[4] == '/';
    proof {
        reveal_strlit(".git");
        reveal_strlit(".git/");
        assert(".git"@ =~= seq!['.', 'g', 'i', 't']);
        assert(".git/"@ =~= seq!['.', 'g', 'i', 't', '/']);
        if exact {
            assert(c@ =~= seq!['.', 'g', 'i', 't']);
        }
        if under {
            assert(c@.subrange(0, 5) =~= seq!['.', 'g', 'i', 't', '/']);
        }
        if c@.len() >= 5 && c@.subrange(0, 5) == ".git/"@ {
            assert(c@.subrange(0, 5)[0] == c@[0]);
            assert(c@.subrange(0, 5)[1] == c@[1]);
            assert(c@.subrange(0, 5)[2] == c@[2]);
            assert(c@.subrange(0, 5)[3] == c@[3]);
            assert(c@.subrange(0, 5)[4] == c@[4]);
        }
    }
    exact || under
}

/// The paths a walk of the directory at `rel` found, made root-relative,
/// without git's own directory.
pub fn walked(found: Vec<String>, rel: &str) -> (r: Vec<String>)
    ensures
        r@.map_values(|s: String| s@) == walked_spec(found@, rel@),
{
    let c = chars_of(rel);
    let mut prefix: Vec<char> = Vec::new();
    if !(c.len() == 1 && c[0] == '.') {
        extend(&mut prefix, c.as_slice());
        prefix.push('/');
    } else {
        assert(c@ =~= seq!['.']);
    }
    assert(prefix@ == dir_prefix(rel@));
    let mut out: Vec<String> = Vec::new();
    let mut i: usize = 0;
    while i < found.len()
        invariant
            i <= found.len(),
            prefix@ == dir_prefix(rel@),
            out@.map_values(|s: String| s@) == walked_spec(found@.subrange(0, i as int), rel@),
        decreases found.len() - i,
    {
        let ghost pre = found@.subrange(0, i + 1);
        assert(pre.drop_last() == found@.subrange(0, i as int));
        assert(pre.last() == found@[i as int]);
        if !is_git_path(&found[i]) {
            let mut p: Vec<char> = Vec::new();
            extend(&mut p, prefix.as_slice());
            append(&mut p, found[i].as_str());
            let ghost before = out@;
            out.push(string_of(p.as_slice()));
            assert(out@.map_values(|s: String| s@) =~= before.map_values(|s: String| s@).push(dir_prefix(rel@) + found@[i as int]@));
        }
        i += 1;
    }
    assert(found@.subrange(0, found@.len() as int) == found@);
    out
}

pub open spec fn not_a_repository_message(root: Seq<char>) -> Seq<char> {
    root + " is not a git repository: --diff and --staged need git"@
}

/// The error when `--diff` or `--staged` is used outside a repository.
pub fn not_a_repository(root: &str) -> (e: Error)
    ensures
        e@ == not_a_repository_message(root@),
{
    let mut m = chars_of(root);
    append(&mut m, " is not a git repository: --diff and --staged need git");
    Error::new(string_of(m.as_slice()))
}

/// How the files at or beneath a path are listed.
pub enum Listing {
    /// Not a directory: the file itself, at this root-relative path.
    File(String),
    /// A directory inside a repository: git lists it, honouring .gitignore.
    Git(String),
    /// A directory outside git: a walk of the tree lists it.
    Walk(String),
}

/// Finds the files a run looks at, beneath the config root.
pub struct FileFinder {
    root: String,
    git: Git,
}

/// A root-relative path that stays beneath the root.
pub open spec fn beneath(absolute: Seq<char>, root: Seq<char>, rel: Seq<char>) -> bool {
    relative_spec(absolute, root) == Some(rel) && !outside_root(rel)
}

/// The paths kept of a sorted listing: those present in the working tree,
/// or all of them when read from the index.
pub open spec fn kept(paths: Seq<String>, present: Seq<bool>, from_index: bool) -> Seq<Seq<char>>
    decreases paths.len(),
{
    if paths.len() == 0 {
        Seq::empty()
    } else {
        let rest = kept(paths.drop_last(), present.drop_last(), from_index);
        if from_index || present[paths.len() - 1] { rest.push(paths.last()@) } else { rest }
    }
}

impl FileFinder {
    pub closed spec fn root_spec(&self) -> Seq<char> {
        self.root@
    }

    pub closed spec fn git_spec(&self) -> Git {
        self.git
    }

    pub fn new(root: String) -> (f: FileFinder)
        ensures
            f.root_spec() == root@,
            f.git_spec().root_spec() == root@,
    {
        let git = Git::new(string_of(chars_of(root.as_str()).as_slice()));
        FileFinder { root, git }
    }

    /// The config root, which every path is relative to.
    pub fn root(&self) -> (r: &str)
        ensures
            r@ == self.root_spec(),
    {
        self.root.as_str()
    }

    /// Git, run at the root.
    pub fn git(&self) -> (g: &Git)
        ensures
            *g == self.git_spec(),
    {
        &self.git
    }

    /// How to list the files at or beneath the absolute path `absolute`,
    /// given whether it is a directory and, for a directory, whether the
    /// root is inside a git repository. A path outside the root is an error.
    pub fn listing(&self, absolute: &str, is_dir: bool, in_repository: bool) -> (r: Result<Listing, Error>)
        ensures
            match r {
                Ok(Listing::File(p)) => !is_dir && beneath(absolute@, self.root_spec(), p@),
                Ok(Listing::Git(p)) => is_dir && in_repository && beneath(absolute@, self.root_spec(), p@),
                Ok(Listing::Walk(p)) => is_dir && !in_repository && beneath(absolute@, self.root_spec(), p@),
                Err(e) => e@ == outside_message(absolute@, self.root_spec()) && match relative_spec(
                    absolute@,
                    self.root_spec(),
                ) {
                    Some(rel) => outside_root(rel),
                    None => true,
                },
            },
    {
        let rel = root_relative(absolute, self.root.as_str())?;
        if !is_dir {
            Ok(Listing::File(rel))
        } else if in_repository {
            Ok(Listing::Git(rel))
        } else {
            Ok(Listing::Walk(rel))
        }
    }

    /// The files to lint from a listing: sorted, each once, and only those
    /// present in the working tree unless they are read from the index.
    /// `present` says, for each path of `sort_unique(paths)` in turn, whether
    /// it is a file in the working tree.
    pub fn sources(unique: Vec<String>, present: &Vec<bool>, from_index: bool) -> (r: Vec<SourceFile>)
        requires
            present.len() == unique.len(),
        ensures
            r@.map_values(|f: SourceFile| f.path_spec()) == kept(unique@, present@, from_index),
            forall|i: int| 0 <= i < r.len() ==> (#[trigger] r[i]).from_index_spec() == from_index,
    {
        let mut r: Vec<SourceFile> = Vec::new();
        let mut i: usize = 0;
        while i < unique.len()
            invariant
                i <= unique.len(),
                present.len() == unique.len(),
                r@.map_values(|f: SourceFile| f.path_spec()) == kept(
                    unique@.subrange(0, i as int),
                    present@.subrange(0, i as int),
                    from_index,
                ),
                forall|j: int| 0 <= j < r.len() ==> (#[trigger] r[j]).from_index_spec() == from_index,
            decreases unique.len() - i,
        {
            assert(unique@.subrange(0, i + 1).drop_last() == unique@.subrange(0, i as int));
            assert(present@.subrange(0, i + 1).drop_last() == present@.subrange(0, i as int));
            if from_index || present[i] {
                let ghost before = r@;
                r.push(SourceFile { path: string_of(chars_of(unique[i].as_str()).as_slice()), from_index });
                assert(r@.map_values(|f: SourceFile| f.path_spec()) =~= before.map_values(
                    |f: SourceFile| f.path_spec(),
                ).push(unique@[i as int]@));
            }
            i += 1;
        }
        assert(unique@.subrange(0, unique@.len() as int) == unique@);
        assert(present@.subrange(0, present@.len() as int) == present@);
        r
    }
}

} // verus!
