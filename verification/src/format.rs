//! Renders a report as text or as GitHub Actions workflow commands. A
//! probability comes as the text it is printed as: rounded to 2 digits and
//! written as Ruby writes floats. JSON is written by the caller, which does
//! the serialising.

use vstd::prelude::*;

use crate::report::{Failure, Offense, Report, Skipped};
use crate::text::{append, chars_of, join, nat_text, push_join, push_nat, string_of};

verus! {

#[derive(Debug, Clone, Copy, PartialEq, Eq)]
pub enum Format {
    /// One line per offense, for people.
    Text,
    /// Workflow commands, so each offense becomes an annotation on the pull request.
    Github,
    /// For other tools; also lists the probability every rule gave every file.
    Json,
}

pub open spec fn format_named(name: Seq<char>) -> Option<Format> {
    if name == "text"@ {
        Some(Format::Text)
    } else if name == "github"@ {
        Some(Format::Github)
    } else if name == "json"@ {
        Some(Format::Json)
    } else {
        None
    }
}

impl Format {
    /// The names `--format` accepts.
    pub fn names() -> (r: Vec<&'static str>)
        ensures
            r@.len() == 3,
            r@[0]@ == "text"@,
            r@[1]@ == "github"@,
            r@[2]@ == "json"@,
    {
        let mut r: Vec<&'static str> = Vec::new();
        r.push("text");
        r.push("github");
        r.push("json");
        r
    }

    pub fn from_name(name: &str) -> (r: Option<Format>)
        ensures
            r == format_named(name@),
    {
        if crate::text::str_eq(name, "text") {
            Some(Format::Text)
        } else if crate::text::str_eq(name, "github") {
            Some(Format::Github)
        } else if crate::text::str_eq(name, "json") {
            Some(Format::Json)
        } else {
            None
        }
    }
}

// ---------------------------------------------------------------------------
// What is printed.
// ---------------------------------------------------------------------------

/// `3 files`, `1 file`.
pub open spec fn plural(count: nat, noun: Seq<char>) -> Seq<char> {
    nat_text(count) + seq![' '] + noun + (if count == 1 { Seq::empty() } else { seq!['s'] })
}

/// The closing line, without its newline.
pub open spec fn summary_spec(checked: nat, offenses: nat, skipped: nat, failures: nat) -> Seq<char> {
    let parts = seq![plural(checked, "file"@) + " inspected"@, plural(offenses, "offense"@) + " detected"@]
        + (if skipped > 0 { seq![plural(skipped, "file"@) + " skipped"@] } else { Seq::empty() })
        + (if failures > 0 { seq![plural(failures, "file"@) + " failed"@] } else { Seq::empty() });
    join(parts, ", "@)
}

pub open spec fn offense_line(o: Offense<String>) -> Seq<char> {
    o.path@ + ": ["@ + o.rule@ + "] "@ + o.message@ + " (noul "@ + o.noul@ + ")\n"@
}

pub open spec fn skipped_line(s: Skipped) -> Seq<char> {
    s.path@ + ": skipped, "@ + s.reason@ + "\n"@
}

pub open spec fn failure_line(f: Failure) -> Seq<char> {
    f.path@ + ": failed, "@ + f.error@ + "\n"@
}

pub open spec fn offense_lines(s: Seq<Offense<String>>) -> Seq<char>
    decreases s.len(),
{
    if s.len() == 0 { Seq::empty() } else { offense_lines(s.drop_last()) + offense_line(s.last()) }
}

pub open spec fn skipped_lines(s: Seq<Skipped>) -> Seq<char>
    decreases s.len(),
{
    if s.len() == 0 { Seq::empty() } else { skipped_lines(s.drop_last()) + skipped_line(s.last()) }
}

pub open spec fn failure_lines(s: Seq<Failure>) -> Seq<char>
    decreases s.len(),
{
    if s.len() == 0 { Seq::empty() } else { failure_lines(s.drop_last()) + failure_line(s.last()) }
}

/// The text format: a line per offense, skipped file and failed file, a blank
/// line after them if there are any, and the summary.
pub open spec fn text_spec(r: Report<String>) -> Seq<char> {
    offense_lines(r.offenses@) + skipped_lines(r.skipped@) + failure_lines(r.failures@) + (if r.offenses@.len()
        > 0 || r.skipped@.len() > 0 || r.failures@.len() > 0 {
        seq!['\n']
    } else {
        Seq::empty()
    }) + summary_spec(r.checked@.len(), r.offenses@.len(), r.skipped@.len(), r.failures@.len()) + seq!['\n']
}

/// How a workflow command's message carries one character.
pub open spec fn escape_data_char(c: char) -> Seq<char> {
    if c == '%' {
        seq!['%', '2', '5']
    } else if c == '\r' {
        seq!['%', '0', 'D']
    } else if c == '\n' {
        seq!['%', '0', 'A']
    } else {
        seq![c]
    }
}

/// How a workflow command's property carries one character.
pub open spec fn escape_property_char(c: char) -> Seq<char> {
    if c == ':' {
        seq!['%', '3', 'A']
    } else if c == ',' {
        seq!['%', '2', 'C']
    } else {
        escape_data_char(c)
    }
}

pub open spec fn escape_spec(s: Seq<char>, property: bool) -> Seq<char>
    decreases s.len(),
{
    if s.len() == 0 {
        Seq::empty()
    } else {
        escape_spec(s.drop_last(), property) + if property {
            escape_property_char(s.last())
        } else {
            escape_data_char(s.last())
        }
    }
}

/// How a character comes out of escaping.
pub open spec fn escape_char(c: char, property: bool) -> Seq<char> {
    if property { escape_property_char(c) } else { escape_data_char(c) }
}

/// Reads escaped text back: `%25`, `%0D`, `%0A`, `%3A` and `%2C` stand for
/// `%`, CR, LF, `:` and `,`; every other character for itself.
pub open spec fn unescape_spec(e: Seq<char>) -> Seq<char>
    decreases e.len(),
{
    if e.len() == 0 {
        e
    } else if e.len() >= 3 && e[0] == '%' {
        let code = (e[1], e[2]);
        let rest = unescape_spec(e.subrange(3, e.len() as int));
        if code == ('2', '5') {
            seq!['%'] + rest
        } else if code == ('0', 'D') {
            seq!['\r'] + rest
        } else if code == ('0', 'A') {
            seq!['\n'] + rest
        } else if code == ('3', 'A') {
            seq![':'] + rest
        } else if code == ('2', 'C') {
            seq![','] + rest
        } else {
            seq![e[0]] + unescape_spec(e.drop_first())
        }
    } else {
        seq![e[0]] + unescape_spec(e.drop_first())
    }
}

proof fn lemma_escape_front(s: Seq<char>, property: bool)
    requires
        s.len() > 0,
    ensures
        escape_spec(s, property) == escape_char(s[0], property) + escape_spec(s.drop_first(), property),
    decreases s.len(),
{
    if s.len() == 1 {
        assert(s.drop_last().len() == 0);
        assert(s.drop_first().len() == 0);
        assert(escape_spec(s.drop_first(), property) == Seq::<char>::empty());
        assert(escape_spec(s.drop_last(), property) == Seq::<char>::empty());
        assert(s.last() == s[0]);
        assert(escape_spec(s, property) == escape_spec(s.drop_last(), property) + escape_char(s.last(), property));
        assert(escape_spec(s, property) =~= escape_char(s[0], property));
    } else {
        lemma_escape_front(s.drop_last(), property);
        assert(s.drop_last().drop_first() == s.drop_first().drop_last());
        assert(s.drop_first().last() == s.last());
        assert(s.drop_last()[0] == s[0]);
        assert(escape_spec(s, property) =~= escape_char(s[0], property) + escape_spec(s.drop_first(), property));
    }
}

/// GitHub's escaping of workflow commands can be undone: the escaped text
/// reads back as the text, and holds no CR or LF (nor, in a property, `:`
/// or `,`), so a message or property cannot end or split its command.
pub proof fn law_escaping_round_trips(s: Seq<char>, property: bool)
    ensures
        unescape_spec(escape_spec(s, property)) == s,
        forall|i: int| 0 <= i < escape_spec(s, property).len() ==> {
            let c = #[trigger] escape_spec(s, property)[i];
            c != '\n' && c != '\r' && (property ==> c != ':' && c != ',')
        },
    decreases s.len(),
{
    if s.len() > 0 {
        law_escaping_round_trips(s.drop_first(), property);
        law_escaping_round_trips(s.drop_last(), property);
        lemma_escape_front(s, property);
        let c = s[0];
        let head = escape_char(c, property);
        let tail = escape_spec(s.drop_first(), property);
        let e = head + tail;
        if head.len() == 3 {
            assert(e.subrange(3, e.len() as int) =~= tail);
        } else {
            assert(head == seq![c]);
            assert(e.drop_first() =~= tail);
        }
        assert(unescape_spec(e) =~= seq![c] + s.drop_first());
        assert(seq![c] + s.drop_first() =~= s);
        let last = escape_char(s.last(), property);
        let init = escape_spec(s.drop_last(), property);
        assert(escape_spec(s, property) == init + last);
        assert forall|i: int| 0 <= i < escape_spec(s, property).len() implies {
            let c = #[trigger] escape_spec(s, property)[i];
            c != '\n' && c != '\r' && (property ==> c != ':' && c != ',')
        } by {
            if i >= init.len() {
                assert(escape_spec(s, property)[i] == last[i - init.len()]);
            } else {
                assert(escape_spec(s, property)[i] == init[i]);
            }
        }
    }
}

/// `str::replace` with a non-empty pattern: from the left, each occurrence
/// that does not overlap one already replaced becomes `rep`.
pub open spec fn replace_spec(s: Seq<char>, pat: Seq<char>, rep: Seq<char>) -> Seq<char>
    decreases s.len(),
{
    if s.len() == 0 || pat.len() == 0 {
        s
    } else if s.len() >= pat.len() && s.subrange(0, pat.len() as int) == pat {
        rep + replace_spec(s.subrange(pat.len() as int, s.len() as int), pat, rep)
    } else {
        seq![s[0]] + replace_spec(s.drop_first(), pat, rep)
    }
}

/// A message's escaped text once the escapes of the first `k` kinds (LF,
/// then CR, then `%`) are undone, one character at a time.
spec fn undone_piece(c: char, k: int) -> Seq<char> {
    if c == '%' {
        if k < 3 { seq!['%', '2', '5'] } else { seq!['%'] }
    } else if c == '\r' {
        if k < 2 { seq!['%', '0', 'D'] } else { seq!['\r'] }
    } else if c == '\n' {
        if k < 1 { seq!['%', '0', 'A'] } else { seq!['\n'] }
    } else {
        seq![c]
    }
}

spec fn undone(s: Seq<char>, k: int) -> Seq<char>
    decreases s.len(),
{
    if s.len() == 0 { s } else { undone_piece(s[0], k) + undone(s.drop_first(), k) }
}

/// What replacing the `k`-th kind of escape looks for, and puts back.
spec fn undo_pattern(k: int) -> Seq<char> {
    if k == 0 { seq!['%', '0', 'A'] } else if k == 1 { seq!['%', '0', 'D'] } else { seq!['%', '2', '5'] }
}

spec fn undo_with(k: int) -> Seq<char> {
    if k == 0 { seq!['\n'] } else if k == 1 { seq!['\r'] } else { seq!['%'] }
}

/// Replacing over a piece that is a whole escape, or one character other than
/// `%`, treats the piece on its own.
proof fn lemma_replace_piece(x: Seq<char>, t: Seq<char>, pat: Seq<char>, rep: Seq<char>)
    requires
        pat.len() == 3,
        pat[0] == '%',
        (x.len() == 3 && x[0] == '%' && x[1] != '%' && x[2] != '%') || (x.len() == 1 && x[0] != '%'),
    ensures
        replace_spec(x + t, pat, rep) == (if x == pat { rep } else { x }) + replace_spec(t, pat, rep),
{
    let s = x + t;
    if x.len() == 3 {
        assert(s.subrange(0, 3) =~= x);
        if x == pat {
            assert(s.subrange(3, s.len() as int) =~= t);
        } else {
            let s1 = s.drop_first();
            let s2 = s1.drop_first();
            let s3 = s2.drop_first();
            assert(s3 =~= t);
            assert(s1[0] == x[1]);
            assert(s2[0] == x[2]);
            if s1.len() >= 3 {
                assert(s1.subrange(0, 3)[0] == x[1]);
            }
            if s2.len() >= 3 {
                assert(s2.subrange(0, 3)[0] == x[2]);
            }
            assert(replace_spec(s2, pat, rep) == seq![x[2]] + replace_spec(t, pat, rep));
            assert(replace_spec(s1, pat, rep) == seq![x[1]] + replace_spec(s2, pat, rep));
            assert(replace_spec(s, pat, rep) == seq![x[0]] + replace_spec(s1, pat, rep));
            assert(seq![x[0]] + (seq![x[1]] + (seq![x[2]] + replace_spec(t, pat, rep))) =~= x + replace_spec(t, pat, rep));
        }
    } else {
        if s.len() >= 3 {
            assert(s.subrange(0, 3)[0] == x[0]);
        }
        assert(s.drop_first() =~= t);
        assert(seq![s[0]] =~= x);
    }
}

/// Each replacing undoes one kind of escape.
proof fn lemma_undo_step(s: Seq<char>, k: int)
    requires
        0 <= k < 3,
    ensures
        replace_spec(undone(s, k), undo_pattern(k), undo_with(k)) == undone(s, k + 1),
    decreases s.len(),
{
    if s.len() > 0 {
        let c = s[0];
        lemma_undo_step(s.drop_first(), k);
        lemma_replace_piece(undone_piece(c, k), undone(s.drop_first(), k), undo_pattern(k), undo_with(k));
        let x = undone_piece(c, k);
        if x == undo_pattern(k) {
            assert(undone_piece(c, k + 1) == undo_with(k)) by {
                if c == '%' {
                    assert(x[1] == '2');
                } else if c == '\r' {
                    assert(x[1] == '0' && x[2] == 'D');
                } else if c == '\n' {
                    assert(x[1] == '0' && x[2] == 'A');
                }
            }
        } else {
            assert(undone_piece(c, k + 1) == x);
        }
    }
}

proof fn lemma_undone_ends(s: Seq<char>)
    ensures
        undone(s, 0) == escape_spec(s, false),
        undone(s, 3) == s,
    decreases s.len(),
{
    if s.len() > 0 {
        lemma_undone_ends(s.drop_first());
        lemma_escape_front(s, false);
        assert(undone_piece(s[0], 0) == escape_char(s[0], false));
        assert(seq![s[0]] + s.drop_first() =~= s);
    }
}

/// A message's escaping is undone by replacing `%0A` with LF, then `%0D`
/// with CR, then `%25` with `%`.
pub proof fn law_message_escaping_undone_by_replacing(s: Seq<char>)
    ensures
        replace_spec(
            replace_spec(
                replace_spec(escape_spec(s, false), seq!['%', '0', 'A'], seq!['\n']),
                seq!['%', '0', 'D'],
                seq!['\r'],
            ),
            seq!['%', '2', '5'],
            seq!['%'],
        ) == s,
{
    lemma_undone_ends(s);
    lemma_undo_step(s, 0);
    lemma_undo_step(s, 1);
    lemma_undo_step(s, 2);
}

/// A workflow command, with its newline.
pub open spec fn command_spec(level: Seq<char>, message: Seq<char>, file: Seq<char>, title: Seq<char>) -> Seq<char> {
    "::"@ + level + " file="@ + escape_spec(file, true) + ",title="@ + escape_spec(title, true) + "::"@
        + escape_spec(message, false) + "\n"@
}

pub open spec fn offense_commands(s: Seq<Offense<String>>) -> Seq<char>
    decreases s.len(),
{
    if s.len() == 0 {
        Seq::empty()
    } else {
        offense_commands(s.drop_last()) + command_spec(
            "error"@,
            s.last().message@,
            s.last().path@,
            "lintus: "@ + s.last().rule@,
        )
    }
}

pub open spec fn skipped_commands(s: Seq<Skipped>) -> Seq<char>
    decreases s.len(),
{
    if s.len() == 0 {
        Seq::empty()
    } else {
        skipped_commands(s.drop_last()) + command_spec(
            "notice"@,
            "Skipped: "@ + s.last().reason@,
            s.last().path@,
            "lintus"@,
        )
    }
}

pub open spec fn failure_commands(s: Seq<Failure>) -> Seq<char>
    decreases s.len(),
{
    if s.len() == 0 {
        Seq::empty()
    } else {
        failure_commands(s.drop_last()) + command_spec(
            "error"@,
            s.last().error@,
            s.last().path@,
            "lintus: request failed"@,
        )
    }
}

/// The github format: a command per offense, skipped file and failed file,
/// then the summary.
pub open spec fn github_spec(r: Report<String>) -> Seq<char> {
    offense_commands(r.offenses@) + skipped_commands(r.skipped@) + failure_commands(r.failures@) + summary_spec(
        r.checked@.len(),
        r.offenses@.len(),
        r.skipped@.len(),
        r.failures@.len(),
    ) + seq!['\n']
}

// ---------------------------------------------------------------------------
// The code.
// ---------------------------------------------------------------------------

fn push_plural(out: &mut Vec<char>, count: usize, noun: &str)
    ensures
        final(out)@ == old(out)@ + plural(count as nat, noun@),
{
    let ghost start = out@;
    push_nat(out, count as u64);
    out.push(' ');
    append(out, noun);
    if count != 1 {
        out.push('s');
    }
    assert(out@ =~= start + plural(count as nat, noun@));
}

/// Appends the closing line, without its newline.
pub fn push_summary(out: &mut Vec<char>, checked: usize, offenses: usize, skipped: usize, failures: usize)
    ensures
        final(out)@ == old(out)@ + summary_spec(checked as nat, offenses as nat, skipped as nat, failures as nat),
{
    let mut parts: Vec<Vec<char>> = Vec::new();
    let mut p: Vec<char> = Vec::new();
    push_plural(&mut p, checked, "file");
    append(&mut p, " inspected");
    parts.push(p);
    let mut p: Vec<char> = Vec::new();
    push_plural(&mut p, offenses, "offense");
    append(&mut p, " detected");
    parts.push(p);
    if skipped > 0 {
        let mut p: Vec<char> = Vec::new();
        push_plural(&mut p, skipped, "file");
        append(&mut p, " skipped");
        parts.push(p);
    }
    if failures > 0 {
        let mut p: Vec<char> = Vec::new();
        push_plural(&mut p, failures, "file");
        append(&mut p, " failed");
        parts.push(p);
    }
    assert(crate::text::deep(parts@) =~= seq![plural(checked as nat, "file"@) + " inspected"@, plural(offenses as nat, "offense"@) + " detected"@]
        + (if skipped > 0 { seq![plural(skipped as nat, "file"@) + " skipped"@] } else { Seq::empty() })
        + (if failures > 0 { seq![plural(failures as nat, "file"@) + " failed"@] } else { Seq::empty() }));
    push_join(out, &parts, ", ");
}

fn push_escaped(out: &mut Vec<char>, s: &str, property: bool)
    ensures
        final(out)@ == old(out)@ + escape_spec(s@, property),
{
    let ghost start = out@;
    let c = chars_of(s);
    let mut i: usize = 0;
    while i < c.len()
        invariant
            i <= c.len(),
            c@ == s@,
            out@ == start + escape_spec(c@.subrange(0, i as int), property),
        decreases c.len() - i,
    {
        let ghost before = out@;
        let x = c[i];
        if property && x == ':' {
            out.push('%');
            out.push('3');
            out.push('A');
        } else if property && x == ',' {
            out.push('%');
            out.push('2');
            out.push('C');
        } else if x == '%' {
            out.push('%');
            out.push('2');
            out.push('5');
        } else if x == '\r' {
            out.push('%');
            out.push('0');
            out.push('D');
        } else if x == '\n' {
            out.push('%');
            out.push('0');
            out.push('A');
        } else {
            out.push(x);
        }
        proof {
            let pre = c@.subrange(0, i + 1);
            assert(pre.drop_last() == c@.subrange(0, i as int));
            assert(pre.last() == x);
            assert(out@ =~= before + if property { escape_property_char(x) } else { escape_data_char(x) });
        }
        i += 1;
    }
    assert(c@.subrange(0, c@.len() as int) == c@);
}

/// Appends a workflow command, with its newline.
fn push_command(out: &mut Vec<char>, level: &str, message: &str, file: &str, title: &str)
    ensures
        final(out)@ == old(out)@ + command_spec(level@, message@, file@, title@),
{
    let ghost start = out@;
    append(out, "::");
    append(out, level);
    append(out, " file=");
    push_escaped(out, file, true);
    append(out, ",title=");
    push_escaped(out, title, true);
    append(out, "::");
    push_escaped(out, message, false);
    append(out, "\n");
    assert(out@ =~= start + command_spec(level@, message@, file@, title@));
}

/// The text format of a sorted report.
pub fn text(report: &Report<String>) -> (r: String)
    ensures
        r@ == text_spec(*report),
{
    let mut out: Vec<char> = Vec::new();
    let mut i: usize = 0;
    while i < report.offenses.len()
        invariant
            i <= report.offenses.len(),
            out@ == offense_lines(report.offenses@.subrange(0, i as int)),
        decreases report.offenses.len() - i,
    {
        let o = &report.offenses[i];
        let ghost before = out@;
        append(&mut out, o.path.as_str());
        append(&mut out, ": [");
        append(&mut out, o.rule.as_str());
        append(&mut out, "] ");
        append(&mut out, o.message.as_str());
        append(&mut out, " (noul ");
        append(&mut out, o.noul.as_str());
        append(&mut out, ")\n");
        proof {
            let pre = report.offenses@.subrange(0, i + 1);
            assert(pre.drop_last() == report.offenses@.subrange(0, i as int));
            assert(out@ =~= before + offense_line(pre.last()));
        }
        i += 1;
    }
    assert(report.offenses@.subrange(0, report.offenses@.len() as int) == report.offenses@);
    let ghost after_offenses = out@;
    let mut i: usize = 0;
    while i < report.skipped.len()
        invariant
            i <= report.skipped.len(),
            out@ == after_offenses + skipped_lines(report.skipped@.subrange(0, i as int)),
        decreases report.skipped.len() - i,
    {
        let s = &report.skipped[i];
        let ghost before = out@;
        append(&mut out, s.path.as_str());
        append(&mut out, ": skipped, ");
        append(&mut out, s.reason.as_str());
        append(&mut out, "\n");
        proof {
            let pre = report.skipped@.subrange(0, i + 1);
            assert(pre.drop_last() == report.skipped@.subrange(0, i as int));
            assert(out@ =~= before + skipped_line(pre.last()));
        }
        i += 1;
    }
    assert(report.skipped@.subrange(0, report.skipped@.len() as int) == report.skipped@);
    let ghost after_skipped = out@;
    let mut i: usize = 0;
    while i < report.failures.len()
        invariant
            i <= report.failures.len(),
            out@ == after_skipped + failure_lines(report.failures@.subrange(0, i as int)),
        decreases report.failures.len() - i,
    {
        let f = &report.failures[i];
        let ghost before = out@;
        append(&mut out, f.path.as_str());
        append(&mut out, ": failed, ");
        append(&mut out, f.error.as_str());
        append(&mut out, "\n");
        proof {
            let pre = report.failures@.subrange(0, i + 1);
            assert(pre.drop_last() == report.failures@.subrange(0, i as int));
            assert(out@ =~= before + failure_line(pre.last()));
        }
        i += 1;
    }
    assert(report.failures@.subrange(0, report.failures@.len() as int) == report.failures@);
    let ghost lines = out@;
    if report.offenses.len() > 0 || report.skipped.len() > 0 || report.failures.len() > 0 {
        out.push('\n');
    }
    let ghost blank = out@;
    push_summary(&mut out, report.checked.len(), report.offenses.len(), report.skipped.len(), report.failures.len());
    out.push('\n');
    assert(out@ =~= text_spec(*report));
    string_of(out.as_slice())
}

/// The github format of a sorted report.
pub fn github(report: &Report<String>) -> (r: String)
    ensures
        r@ == github_spec(*report),
{
    let mut out: Vec<char> = Vec::new();
    let mut i: usize = 0;
    while i < report.offenses.len()
        invariant
            i <= report.offenses.len(),
            out@ == offense_commands(report.offenses@.subrange(0, i as int)),
        decreases report.offenses.len() - i,
    {
        let o = &report.offenses[i];
        let mut title = chars_of("lintus: ");
        append(&mut title, o.rule.as_str());
        let title = string_of(title.as_slice());
        push_command(&mut out, "error", o.message.as_str(), o.path.as_str(), title.as_str());
        proof {
            let pre = report.offenses@.subrange(0, i + 1);
            assert(pre.drop_last() == report.offenses@.subrange(0, i as int));
            assert(pre.last() == *o);
        }
        i += 1;
    }
    assert(report.offenses@.subrange(0, report.offenses@.len() as int) == report.offenses@);
    let ghost after_offenses = out@;
    let mut i: usize = 0;
    while i < report.skipped.len()
        invariant
            i <= report.skipped.len(),
            out@ == after_offenses + skipped_commands(report.skipped@.subrange(0, i as int)),
        decreases report.skipped.len() - i,
    {
        let s = &report.skipped[i];
        let mut message = chars_of("Skipped: ");
        append(&mut message, s.reason.as_str());
        let message = string_of(message.as_slice());
        let ghost before = out@;
        push_command(&mut out, "notice", message.as_str(), s.path.as_str(), "lintus");
        proof {
            let pre = report.skipped@.subrange(0, i + 1);
            assert(pre.drop_last() == report.skipped@.subrange(0, i as int));
            assert(pre.last() == *s);
            assert(out@ =~= after_offenses + skipped_commands(pre));
        }
        i += 1;
    }
    assert(report.skipped@.subrange(0, report.skipped@.len() as int) == report.skipped@);
    let ghost after_skipped = out@;
    let mut i: usize = 0;
    while i < report.failures.len()
        invariant
            i <= report.failures.len(),
            out@ == after_skipped + failure_commands(report.failures@.subrange(0, i as int)),
        decreases report.failures.len() - i,
    {
        let f = &report.failures[i];
        push_command(&mut out, "error", f.error.as_str(), f.path.as_str(), "lintus: request failed");
        proof {
            let pre = report.failures@.subrange(0, i + 1);
            assert(pre.drop_last() == report.failures@.subrange(0, i as int));
            assert(pre.last() == *f);
            assert(out@ =~= after_skipped + failure_commands(pre));
        }
        i += 1;
    }
    assert(report.failures@.subrange(0, report.failures@.len() as int) == report.failures@);
    push_summary(&mut out, report.checked.len(), report.offenses.len(), report.skipped.len(), report.failures.len());
    out.push('\n');
    assert(out@ =~= github_spec(*report));
    string_of(out.as_slice())
}

} // verus!
