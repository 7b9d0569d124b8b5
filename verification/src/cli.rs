//! The decisions and texts of the `lintus` command; parsing the arguments,
//! reading the environment and printing are the caller's.

use vstd::prelude::*;

use crate::config::Rule;
use crate::credentials::{mask, mask_spec, ApiKey, Source};
use crate::error::Error;
use crate::files::SourceFile;
use crate::format::{format_named, Format};
use crate::runner::Task;
use crate::text::{
    append, chars_of, extend, is_white_char, join, nat_text, push_join, push_nat, string_of, trim, trim_end_white,
    trim_start_white,
};

verus! {

pub open spec fn combined_message() -> Seq<char> {
    "FILE arguments cannot be combined with --diff or --staged"@
}

/// FILE arguments select the files themselves, so they exclude `--diff` and `--staged`.
pub fn check_file_args(files_given: bool, diff: bool, staged: bool) -> (r: Result<(), Error>)
    ensures
        match r {
            Ok(()) => !(files_given && (diff || staged)),
            Err(e) => files_given && (diff || staged) && e@ == combined_message(),
        },
{
    if files_given && (diff || staged) {
        return Err(Error::new(string_of(chars_of("FILE arguments cannot be combined with --diff or --staged").as_slice())));
    }
    Ok(())
}

/// The output format: the one asked for, else github under GitHub Actions
/// (`GITHUB_ACTIONS` set to `true`), else text.
pub fn choose_format(name: Option<&str>, github_actions: Option<&str>) -> (r: Format)
    requires
        match name {
            Some(n) => format_named(n@) is Some,
            None => true,
        },
    ensures
        r == match name {
            Some(n) => format_named(n@)->0,
            None => match github_actions {
                Some(v) => if v@ == "true"@ { Format::Github } else { Format::Text },
                None => Format::Text,
            },
        },
{
    match name {
        Some(n) => match Format::from_name(n) {
            Some(f) => f,
            None => Format::Text,
        },
        None => match github_actions {
            Some(v) => {
                if crate::text::str_eq(v, "true") {
                    Format::Github
                } else {
                    Format::Text
                }
            },
            None => Format::Text,
        },
    }
}

/// One line of `--list`: the file, then the ids of its rules.
pub open spec fn list_line(t: Task) -> Seq<char> {
    t.file.path_spec() + ": "@ + join(t.rules@.map_values(|r: &Rule| r@.id), ", "@) + seq!['\n']
}

pub open spec fn list_lines(ts: Seq<Task>) -> Seq<char>
    decreases ts.len(),
{
    if ts.len() == 0 { Seq::empty() } else { list_lines(ts.drop_last()) + list_line(ts.last()) }
}

/// What `--list` prints: each file with the rules that apply to it, then how
/// many files would be checked.
pub open spec fn list_spec(ts: Seq<Task>) -> Seq<char> {
    list_lines(ts) + nat_text(ts.len()) + " file(s) would be checked\n"@
}

/// What `--list` prints.
pub fn list_output(tasks: &Vec<Task>) -> (r: String)
    ensures
        r@ == list_spec(tasks@),
{
    let mut out: Vec<char> = Vec::new();
    let mut i: usize = 0;
    while i < tasks.len()
        invariant
            i <= tasks.len(),
            out@ == list_lines(tasks@.subrange(0, i as int)),
        decreases tasks.len() - i,
    {
        let task = &tasks[i];
        let ghost before = out@;
        append(&mut out, task.file.path());
        append(&mut out, ": ");
        let mut ids: Vec<Vec<char>> = Vec::new();
        let mut j: usize = 0;
        while j < task.rules.len()
            invariant
                j <= task.rules.len(),
                ids@.len() == j,
                forall|k: int| 0 <= k < j ==> (#[trigger] ids@[k])@ == task.rules@[k]@.id,
            decreases task.rules.len() - j,
        {
            ids.push(chars_of(task.rules[j].id()));
            j += 1;
        }
        assert(crate::text::deep(ids@) =~= task.rules@.map_values(|r: &Rule| r@.id));
        push_join(&mut out, &ids, ", ");
        out.push('\n');
        proof {
            let pre = tasks@.subrange(0, i + 1);
            assert(pre.drop_last() == tasks@.subrange(0, i as int));
            assert(pre.last() == *task);
            assert(out@ =~= before + list_line(*task));
        }
        i += 1;
    }
    assert(tasks@.subrange(0, tasks@.len() as int) == tasks@);
    push_nat(&mut out, tasks.len() as u64);
    append(&mut out, " file(s) would be checked\n");
    string_of(out.as_slice())
}

/// The position of the first blank line (`\n\n`) at or after `i`, else the end.
pub open spec fn paragraph_end(s: Seq<char>, i: int) -> int
    decreases s.len() - i,
{
    if i < 0 || i + 1 >= s.len() {
        s.len() as int
    } else if s[i] == '\n' && s[i + 1] == '\n' {
        i
    } else {
        paragraph_end(s, i + 1)
    }
}

/// What a usage error says after `lintus: `: the first paragraph of the
/// message, without trailing whitespace and without its `error: ` prefix.
pub open spec fn usage_spec(rendered: Seq<char>) -> Seq<char> {
    let first = trim_end_white(rendered.subrange(0, paragraph_end(rendered, 0)));
    if first.len() >= 7 && first.subrange(0, 7) == "error: "@ { first.subrange(7, first.len() as int) } else { first }
}

proof fn lemma_paragraph_end(s: Seq<char>, i: int)
    requires
        0 <= i <= s.len(),
    ensures
        i <= paragraph_end(s, i) <= s.len(),
    decreases s.len() - i,
{
    if i + 1 < s.len() && !(s[i] == '\n' && s[i + 1] == '\n') {
        lemma_paragraph_end(s, i + 1);
    }
}

/// What a usage error says after `lintus: `.
pub fn usage_message(rendered: &str) -> (r: String)
    ensures
        r@ == usage_spec(rendered@),
{
    let c = chars_of(rendered);
    let mut e: usize = 0;
    while e < c.len() && e + 1 < c.len() && !(c[e] == '\n' && c[e + 1] == '\n')
        invariant
            e <= c.len(),
            c@ == rendered@,
            paragraph_end(c@, 0) == paragraph_end(c@, e as int),
        decreases c.len() - e,
    {
        e += 1;
    }
    if e >= c.len() || e + 1 >= c.len() {
        e = c.len();
    }
    let mut b: usize = e;
    while b > 0 && is_white_char(c[b - 1])
        invariant
            b <= e <= c.len(),
            trim_end_white(c@.subrange(0, e as int)) == trim_end_white(c@.subrange(0, b as int)),
        decreases b,
    {
        assert(c@.subrange(0, b as int).drop_last() == c@.subrange(0, b - 1));
        b -= 1;
    }
    proof { reveal_strlit("error: "); }
    let prefixed = b >= 7 && c[0] == 'e' && c[1] == 'r' && c[2] == 'r' && c[3] == 'o' && c[4] == 'r' && c[5] == ':'
        && c[6] == ' ';
    let ghost first = c@.subrange(0, b as int);
    proof {
        assert("error: "@ =~= seq!['e', 'r', 'r', 'o', 'r', ':', ' ']);
        if prefixed {
            assert(first.subrange(0, 7) =~= "error: "@);
        }
        if first.len() >= 7 && first.subrange(0, 7) == "error: "@ {
            assert(first.subrange(0, 7)[0] == c@[0]);
            assert(first.subrange(0, 7)[1] == c@[1]);
            assert(first.subrange(0, 7)[2] == c@[2]);
            assert(first.subrange(0, 7)[3] == c@[3]);
            assert(first.subrange(0, 7)[4] == c@[4]);
            assert(first.subrange(0, 7)[5] == c@[5]);
            assert(first.subrange(0, 7)[6] == c@[6]);
        }
        assert(trim_end_white(first) == first);
    }
    let start: usize = if prefixed { 7 } else { 0 };
    let mut out: Vec<char> = Vec::new();
    crate::text::push_range(&mut out, c.as_slice(), start, b);
    proof {
        if prefixed {
            assert(out@ =~= first.subrange(7, first.len() as int));
        } else {
            assert(out@ =~= first);
        }
    }
    string_of(out.as_slice())
}

/// What `lintus init` prints once it wrote the config.
pub fn wrote_message(path: &str) -> (r: String)
    ensures
        r@ == "Wrote "@ + path@ + "\n"@,
{
    let mut m = chars_of("Wrote ");
    append(&mut m, path);
    append(&mut m, "\n");
    string_of(m.as_slice())
}

/// The error when `lintus init` finds a config already there.
pub fn already_exists(path: &str) -> (e: Error)
    ensures
        e@ == path@ + " already exists"@,
{
    let mut m = chars_of(path);
    append(&mut m, " already exists");
    Error::new(string_of(m.as_slice()))
}

/// Which files a lint looks at.
pub enum Selection {
    /// The files staged for commit, read from the index.
    Staged,
    /// The files changed since a reference.
    Diff(String),
    /// The files and directories given on the command line.
    Explicit,
    /// Every file in the tree.
    All,
}

/// Which files a lint looks at: `--staged`, else `--diff`, else the FILE
/// arguments when there are some, else the whole tree.
pub fn selection(staged: bool, diff: Option<String>, files_given: bool) -> (r: Selection)
    ensures
        match r {
            Selection::Staged => staged,
            Selection::Diff(reference) => !staged && diff == Some(reference),
            Selection::Explicit => !staged && diff.is_none() && files_given,
            Selection::All => !staged && diff.is_none() && !files_given,
        },
{
    if staged {
        Selection::Staged
    } else {
        match diff {
            Some(reference) => Selection::Diff(reference),
            None => if files_given {
                Selection::Explicit
            } else {
                Selection::All
            },
        }
    }
}

/// The text up to its first newline.
pub open spec fn first_line_spec(s: Seq<char>) -> Seq<char>
    decreases s.len(),
{
    if s.len() == 0 || s[0] == '\n' {
        Seq::empty()
    } else {
        seq![s[0]] + first_line_spec(s.drop_first())
    }
}

pub open spec fn no_key_given() -> Seq<char> {
    "no API key given: paste it at the prompt, or pipe it in with `lintus auth login < key.txt`"@
}

/// The key `lintus auth login` saves: what was typed at the prompt, or the
/// first line of what was piped in, without surrounding whitespace; nothing
/// left is an error.
pub fn entered_key(input: &str, piped: bool) -> (r: Result<String, Error>)
    ensures
        ({
            let text = if piped { first_line_spec(input@) } else { input@ };
            let key = trim_start_white(trim_end_white(text));
            match r {
                Ok(k) => key.len() > 0 && k@ == key,
                Err(e) => key.len() == 0 && e@ == no_key_given(),
            }
        }),
{
    let c = chars_of(input);
    let mut end: usize = c.len();
    if piped {
        let mut i: usize = 0;
        assert(c@.subrange(0, 0) + c@.subrange(0, c.len() as int) =~= c@);
        while i < c.len() && c[i] != '\n'
            invariant
                i <= c.len(),
                first_line_spec(c@) == c@.subrange(0, i as int) + first_line_spec(c@.subrange(i as int, c.len() as int)),
            decreases c.len() - i,
        {
            let ghost rest = c@.subrange(i as int, c.len() as int);
            assert(rest.drop_first() == c@.subrange(i + 1, c.len() as int));
            assert(c@.subrange(0, i + 1) == c@.subrange(0, i as int) + seq![c@[i as int]]);
            i += 1;
        }
        assert(first_line_spec(c@.subrange(i as int, c.len() as int)) == Seq::<char>::empty());
        end = i;
    }
    let mut text: Vec<char> = Vec::new();
    crate::text::push_range(&mut text, c.as_slice(), 0, end);
    assert(text@ =~= c@.subrange(0, end as int));
    assert(!piped ==> text@ =~= c@);
    let key = trim(text.as_slice());
    if key.len() == 0 {
        return Err(Error::new(string_of(chars_of(
            "no API key given: paste it at the prompt, or pipe it in with `lintus auth login < key.txt`",
        ).as_slice())));
    }
    Ok(string_of(key.as_slice()))
}

/// What `lintus auth login` says once it saved the key.
pub fn saved_message(key: &str, path: &str) -> (r: String)
    ensures
        r@ == "Saved the API key ("@ + mask_spec(key@) + ") to "@ + path@ + "\n"@,
{
    let mut m = chars_of("Saved the API key (");
    append(&mut m, mask(key).as_str());
    append(&mut m, ") to ");
    append(&mut m, path);
    append(&mut m, "\n");
    string_of(m.as_slice())
}

pub open spec fn status_spec(key: Seq<char>, source: Source, saved: Option<Seq<char>>) -> Seq<char> {
    match source {
        Source::File(p) => "Using the API key saved in "@ + p@ + " ("@ + mask_spec(key) + ").\n"@,
        _ => {
            let name = if source is Flag { "--api-key"@ } else { "JEV_API_KEY"@ };
            "Using the API key from "@ + name + " ("@ + mask_spec(key) + ").\n"@ + match saved {
                Some(p) => "The key saved in "@ + p + " is not used while "@ + name + " is set.\n"@,
                None => Seq::empty(),
            }
        },
    }
}

/// What `lintus auth status` says of the key a run would use: where it comes
/// from and, when that is not the credentials file, whether a saved key (in
/// the file at `saved`) is set aside.
pub fn status_message(key: &ApiKey, saved: Option<&str>) -> (r: String)
    ensures
        r@ == status_spec(key.key@, key.source, match saved {
            Some(p) => Some(p@),
            None => None,
        }),
{
    let mut m: Vec<char> = Vec::new();
    match &key.source {
        Source::File(p) => {
            append(&mut m, "Using the API key saved in ");
            append(&mut m, p.as_str());
        },
        other => {
            append(&mut m, "Using the API key from ");
            append(&mut m, other.describe().as_str());
        },
    }
    append(&mut m, " (");
    append(&mut m, mask(key.key.as_str()).as_str());
    append(&mut m, ").\n");
    match (&key.source, saved) {
        (Source::File(_), _) => {},
        (other, Some(p)) => {
            append(&mut m, "The key saved in ");
            append(&mut m, p);
            append(&mut m, " is not used while ");
            append(&mut m, other.describe().as_str());
            append(&mut m, " is set.\n");
        },
        (_, None) => {},
    }
    string_of(m.as_slice())
}

/// What `lintus auth logout` says: which file it deleted, if any.
pub fn logout_message(deleted: Option<&str>) -> (r: String)
    ensures
        r@ == match deleted {
            Some(p) => "Deleted the API key saved in "@ + p@ + "\n"@,
            None => "No API key was saved.\n"@,
        },
{
    match deleted {
        Some(p) => {
            let mut m = chars_of("Deleted the API key saved in ");
            append(&mut m, p);
            append(&mut m, "\n");
            string_of(m.as_slice())
        },
        None => string_of(chars_of("No API key was saved.\n").as_slice()),
    }
}

} // verus!
