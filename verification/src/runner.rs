//! Sends each file to Jev once, with every rule that applies to it as a
//! separate noul question, and turns the answers into offenses. The requests,
//! the threads and the waits are the caller's; this module plans the work,
//! screens each file, builds its query, decides on retries and assesses the
//! answers.

use vstd::prelude::*;

use crate::config::{rules_for_spec, Config, ConfigV, Rule, RuleV};
use crate::files::SourceFile;
use crate::jev::error::Error as JevError;
use crate::jev::query::Query;
use crate::jev::question::Question;
use crate::ordered::question_entries;
use crate::report::{Checked, Failure, Offense, Outcome, Skipped};
use crate::text::{append, chars_of, nat_text, push_nat, string_of};

verus! {

/// How many times a rate-limited or overloaded request is sent again.
pub const RETRIES: u32 = 3;

/// A file and the rules that apply to it.
pub struct Task<'c> {
    pub file: SourceFile,
    pub rules: Vec<&'c Rule>,
}

/// The files some rule applies to, in order.
pub open spec fn plan_files(rules: Seq<RuleV>, files: Seq<SourceFile>) -> Seq<SourceFile>
    decreases files.len(),
{
    if files.len() == 0 {
        Seq::empty()
    } else if rules_for_spec(rules, files.last().path_spec()).len() > 0 {
        plan_files(rules, files.drop_last()).push(files.last())
    } else {
        plan_files(rules, files.drop_last())
    }
}

/// The task holds its file and, in config order, the rules that apply to it.
pub open spec fn task_ok(t: Task, f: SourceFile, rules: Seq<RuleV>) -> bool {
    &&& t.file == f
    &&& t.rules@.len() == rules_for_spec(rules, f.path_spec()).len()
    &&& forall|j: int| 0 <= j < t.rules@.len() ==> #[trigger] t.rules@[j]@ == rules[rules_for_spec(rules, f.path_spec())[j]]
}

/// Pairs every file with the rules that apply to it, dropping files no rule covers.
pub fn plan<'c>(config: &'c Config, files: Vec<SourceFile>) -> (r: Vec<Task<'c>>)
    ensures
        r@.len() == plan_files(config@.rules, files@).len(),
        forall|k: int| 0 <= k < r@.len() ==> task_ok(#[trigger] r@[k], plan_files(config@.rules, files@)[k], config@.rules),
{
    let ghost all = files@;
    let ghost rules = config@.rules;
    let n = files.len();
    let mut rest = files;
    let mut out: Vec<Task<'c>> = Vec::new();
    let mut i: usize = 0;
    while i < n
        invariant
            n == all.len(),
            i <= n,
            rules == config@.rules,
            rest@ == all.subrange(i as int, n as int),
            out@.len() == plan_files(rules, all.subrange(0, i as int)).len(),
            forall|k: int| 0 <= k < out@.len() ==> task_ok(#[trigger] out@[k], plan_files(rules, all.subrange(0, i as int))[k], rules),
        decreases n - i,
    {
        let file = rest.remove(0);
        proof {
            assert(all.subrange(0, i + 1).drop_last() == all.subrange(0, i as int));
            assert(all.subrange(0, i + 1).last() == file);
            assert(rest@ =~= all.subrange(i + 1, n as int));
        }
        let rules_here = config.rules_for(file.path());
        if rules_here.len() > 0 {
            let ghost before = out@;
            out.push(Task { file, rules: rules_here });
            assert forall|k: int| 0 <= k < out@.len() implies task_ok(#[trigger] out@[k], plan_files(rules, all.subrange(0, i + 1))[k], rules) by {
                if k < before.len() {
                    assert(out@[k] == before[k]);
                }
            }
        }
        i += 1;
    }
    assert(all.subrange(0, n as int) == all);
    out
}

// ---------------------------------------------------------------------------
// Screening a file's content.
// ---------------------------------------------------------------------------

/// The text bytes stand for in UTF-8, when they are valid UTF-8.
pub uninterp spec fn utf8_decode(bytes: Seq<u8>) -> Option<Seq<char>>;

/// `String::from_utf8`: the text, when the bytes are valid UTF-8.
#[verifier::external_body]
fn decode_utf8(bytes: Vec<u8>) -> (r: Option<String>)
    ensures
        match r {
            Some(s) => utf8_decode(bytes@) == Some(s@),
            None => utf8_decode(bytes@).is_none(),
        },
{
    String::from_utf8(bytes).ok()
}

pub open spec fn too_large_reason(size: nat, max: nat) -> Seq<char> {
    "larger than max_file_size ("@ + nat_text(size) + " > "@ + nat_text(max) + " bytes)"@
}

/// Whether a file's content is sent, given its size in bytes, whether it holds
/// a NUL byte, and its text when it is valid UTF-8: the text, or why the file
/// is skipped.
pub open spec fn screen_spec(size: nat, has_nul: bool, text: Option<Seq<char>>, max: nat) -> Result<Seq<char>, Seq<char>> {
    if has_nul || text is None {
        Err("binary file"@)
    } else if size > max {
        Err(too_large_reason(size, max))
    } else {
        Ok(text->0)
    }
}

/// Whether a file's content is sent, as [`screen_spec`] says.
pub fn screen_text(size: usize, has_nul: bool, text: Option<String>, max_file_size: u64) -> (r: Result<String, String>)
    ensures
        match r {
            Ok(t) => screen_spec(size as nat, has_nul, match text {
                Some(s) => Some(s@),
                None => None,
            }, max_file_size as nat) == Ok::<Seq<char>, Seq<char>>(t@),
            Err(m) => screen_spec(size as nat, has_nul, match text {
                Some(s) => Some(s@),
                None => None,
            }, max_file_size as nat) == Err::<Seq<char>, Seq<char>>(m@),
        },
{
    if has_nul {
        return Err(string_of(chars_of("binary file").as_slice()));
    }
    let text = match text {
        Some(t) => t,
        None => return Err(string_of(chars_of("binary file").as_slice())),
    };
    if size as u64 > max_file_size {
        let mut m = chars_of("larger than max_file_size (");
        push_nat(&mut m, size as u64);
        append(&mut m, " > ");
        push_nat(&mut m, max_file_size);
        append(&mut m, " bytes)");
        return Err(string_of(m.as_slice()));
    }
    Ok(text)
}

/// A file's content as it is sent: the text, or why the file is skipped.
pub fn screen(content: Vec<u8>, max_file_size: u64) -> (r: Result<String, String>)
    ensures
        match r {
            Ok(t) => screen_spec(content@.len(), content@.contains(0u8), utf8_decode(content@), max_file_size as nat) == Ok::<Seq<char>, Seq<char>>(t@),
            Err(m) => screen_spec(content@.len(), content@.contains(0u8), utf8_decode(content@), max_file_size as nat) == Err::<Seq<char>, Seq<char>>(m@),
        },
{
    let size = content.len();
    let mut has_nul = false;
    let mut i: usize = 0;
    while i < content.len()
        invariant
            i <= content.len(),
            has_nul == exists|j: int| 0 <= j < i && content@[j] == 0u8,
        decreases content.len() - i,
    {
        if content[i] == 0u8 {
            has_nul = true;
        }
        i += 1;
    }
    assert(has_nul == content@.contains(0u8));
    let ghost bytes = content@;
    let text = decode_utf8(content);
    screen_text(size, has_nul, text, max_file_size)
}

/// What a file's query states: its path, then its content.
pub open spec fn state_spec(path: Seq<char>, text: Seq<char>) -> Seq<char> {
    "File: "@ + path + "\n\n"@ + text
}

/// The first position at which an identifier repeats an earlier one.
pub open spec fn first_repeat(ids: Seq<Seq<char>>) -> Option<int>
    decreases ids.len(),
{
    if ids.len() == 0 {
        None
    } else {
        match first_repeat(ids.drop_last()) {
            Some(k) => Some(k),
            None => if ids.drop_last().contains(ids.last()) { Some(ids.len() - 1) } else { None },
        }
    }
}

pub open spec fn rule_ids(rules: Seq<&Rule>) -> Seq<Seq<char>> {
    rules.map_values(|r: &Rule| r@.id)
}

/// A file's query: its state, and each rule's noul under the rule's id, in
/// order; or the message of the error for a repeated id.
pub fn build_query(path: &str, text: &str, rules: &Vec<&Rule>) -> (r: Result<Query, String>)
    ensures
        match r {
            Ok(q) => {
                &&& first_repeat(rule_ids(rules@)).is_none()
                &&& q.state_spec() == state_spec(path@, text@)
                &&& q.questions_spec().len() == rules@.len()
                &&& forall|j: int| 0 <= j < rules@.len() ==> {
                    &&& (#[trigger] q.questions_spec()[j]).0 == rules@[j]@.id
                    &&& q.questions_spec()[j].1 is Noul
                    &&& q.questions_spec()[j].1->Noul_0.instructions_spec() == rules@[j]@.question
                    &&& q.questions_spec()[j].1->Noul_0.criteria_spec() == crate::config::noul_criteria(rules@[j]@.criteria)
                    &&& q.questions_spec()[j].1->Noul_0.threshold_spec() == match rules@[j]@.threshold {
                        Some(t) => t,
                        None => crate::jev::question::default_threshold(),
                    }
                }
            },
            Err(m) => match first_repeat(rule_ids(rules@)) {
                Some(k) => m@ == rule_ids(rules@)[k] + " has already been asked"@,
                None => false,
            },
        },
{
    let mut state = chars_of("File: ");
    append(&mut state, path);
    append(&mut state, "\n\n");
    append(&mut state, text);
    let mut query = Query::new(string_of(state.as_slice()));
    let ghost ids = rule_ids(rules@);
    let mut i: usize = 0;
    while i < rules.len()
        invariant
            i <= rules.len(),
            ids == rule_ids(rules@),
            query.state_spec() == state_spec(path@, text@),
            first_repeat(ids.subrange(0, i as int)).is_none(),
            query.questions_spec().len() == i,
            forall|j: int| 0 <= j < i ==> {
                &&& (#[trigger] query.questions_spec()[j]).0 == rules@[j]@.id
                &&& query.questions_spec()[j].1 is Noul
                &&& query.questions_spec()[j].1->Noul_0.instructions_spec() == rules@[j]@.question
                &&& query.questions_spec()[j].1->Noul_0.criteria_spec() == crate::config::noul_criteria(rules@[j]@.criteria)
                &&& query.questions_spec()[j].1->Noul_0.threshold_spec() == match rules@[j]@.threshold {
                    Some(t) => t,
                    None => crate::jev::question::default_threshold(),
                }
            },
        decreases rules.len() - i,
    {
        let rule = rules[i];
        let noul = rule.to_noul();
        let id = string_of(chars_of(rule.id()).as_slice());
        assert(id@ == rules@[i as int]@.id);
        let ghost before = query.questions_spec();
        proof {
            let pre = ids.subrange(0, i + 1);
            assert(pre.drop_last() == ids.subrange(0, i as int));
            assert(pre.last() == id@);
            assert forall|j: int| 0 <= j < i implies #[trigger] ids.subrange(0, i as int)[j] == before[j].0 by {}
        }
        match query.ask(id, Question::Noul(noul)) {
            Err(e) => {
                proof {
                    lemma_question_find_some(before, id@, 0);
                    let k = crate::ordered::question_find(before, id@, 0)->0;
                    assert(ids.subrange(0, i as int)[k] == id@);
                    assert(ids.subrange(0, i as int).contains(id@));
                    lemma_first_repeat_prefix(ids, (i + 1) as int);
                }
                return Err(e.message());
            },
            Ok(()) => {
                proof {
                    lemma_question_find_none(before, id@, 0);
                    if ids.subrange(0, i as int).contains(id@) {
                        let k = choose|k: int| 0 <= k < i && ids.subrange(0, i as int)[k] == id@;
                        assert(before[k].0 == id@);
                    }
                }
            },
        }
        i += 1;
    }
    assert(ids.subrange(0, rules@.len() as int) == ids);
    Ok(query)
}

proof fn lemma_question_find_some(s: Seq<(Seq<char>, Question)>, k: Seq<char>, i: int)
    requires
        0 <= i,
        crate::ordered::question_find(s, k, i) is Some,
    ensures
        ({
            let j = crate::ordered::question_find(s, k, i)->0;
            i <= j < s.len() && s[j].0 == k
        }),
    decreases s.len() - i,
{
    if i < s.len() && s[i].0 != k {
        lemma_question_find_some(s, k, i + 1);
    }
}

proof fn lemma_question_find_none(s: Seq<(Seq<char>, Question)>, k: Seq<char>, i: int)
    requires
        0 <= i,
        crate::ordered::question_find(s, k, i).is_none(),
    ensures
        forall|j: int| i <= j < s.len() ==> s[j].0 != k,
    decreases s.len() - i,
{
    if i < s.len() {
        lemma_question_find_none(s, k, i + 1);
    }
}

/// A repeat found in a prefix is the first repeat of the whole.
proof fn lemma_first_repeat_prefix(ids: Seq<Seq<char>>, i: int)
    requires
        0 <= i <= ids.len(),
        first_repeat(ids.subrange(0, i)) is Some,
    ensures
        first_repeat(ids) == first_repeat(ids.subrange(0, i)),
    decreases ids.len() - i,
{
    if i < ids.len() {
        assert(ids.subrange(0, i + 1).drop_last() == ids.subrange(0, i));
        lemma_first_repeat_prefix(ids, i + 1);
    } else {
        assert(ids.subrange(0, i) == ids);
    }
}

// ---------------------------------------------------------------------------
// Retries and answers.
// ---------------------------------------------------------------------------

/// Whether a failed request is sent again: it was rate limited or the model
/// was overloaded, and the retries are not used up.
pub fn should_retry(error: &JevError, attempt: u32, retries: u32) -> (r: bool)
    ensures
        r == (error is Api && (error->Api_0.status == 429 || error->Api_0.status == 529) && attempt < retries),
{
    error.is_retryable() && attempt < retries
}

/// How many requests may be in flight at once: anything below 1 means 1, and
/// at most 1024.
pub fn job_count(jobs: i64) -> (r: usize)
    ensures
        r == if jobs < 1 { 1 } else if jobs > 1024 { 1024 } else { jobs as int },
{
    if jobs < 1 {
        1
    } else if jobs > 1024 {
        1024
    } else {
        jobs as usize
    }
}

/// The message for a file whose content could not be read.
pub fn read_failure(path: &str, error: &str) -> (r: String)
    ensures
        r@ == "could not read "@ + path@ + ": "@ + error@,
{
    let mut m = chars_of("could not read ");
    append(&mut m, path);
    append(&mut m, ": ");
    append(&mut m, error);
    string_of(m.as_slice())
}

/// The first answer that is an error.
pub open spec fn first_error<P>(answers: Seq<Result<(bool, P), String>>) -> Option<int>
    decreases answers.len(),
{
    if answers.len() == 0 {
        None
    } else {
        match first_error(answers.drop_last()) {
            Some(k) => Some(k),
            None => if answers.last() is Err { Some(answers.len() - 1) } else { None },
        }
    }
}

/// The rules whose answer makes the file an offense, in order.
pub open spec fn offending<P>(rules: Seq<RuleV>, answers: Seq<Result<(bool, P), String>>) -> Seq<int>
    decreases answers.len(),
{
    if answers.len() == 0 {
        Seq::empty()
    } else {
        let before = offending(rules, answers.drop_last());
        let j = answers.len() - 1;
        match answers.last() {
            Ok((result, _)) => if result == rules[j].offense_when { before.push(j) } else { before },
            Err(_) => before,
        }
    }
}

/// An offense for the answer at `j`, below `bound`.
pub open spec fn offense_ok<P>(o: Offense<P>, j: int, bound: int, path: Seq<char>, rs: Seq<RuleV>, all: Seq<Result<(bool, P), String>>) -> bool {
    &&& o.path@ == path
    &&& 0 <= j < bound
    &&& o.rule@ == rs[j].id
    &&& o.message@ == rs[j].description
    &&& o.noul == all[j]->Ok_0.1
}

/// Turns the answers to a file's rules, in rule order, into what checking the
/// file came to. An answer is whether the probability is above the rule's
/// threshold and the probability itself, or the message of the error for it.
pub fn assess<P: Copy>(path: &str, rules: &Vec<&Rule>, answers: Vec<Result<(bool, P), String>>) -> (r: Outcome<P>)
    requires
        answers@.len() == rules@.len(),
    ensures
        match first_error(answers@) {
            Some(k) => r is Failed && r->Failed_0.path@ == path@ && r->Failed_0.error@ == answers@[k]->Err_0@,
            None => r is Checked && {
                let c = r->Checked_0;
                let o = r->Checked_1;
                let rs = rules@.map_values(|x: &Rule| x@);
                let idx = offending(rs, answers@);
                &&& c.path@ == path@
                &&& c.answers@.len() == answers@.len()
                &&& forall|j: int| 0 <= j < answers@.len() ==> (#[trigger] c.answers@[j]).0@ == rs[j].id
                    && c.answers@[j].1 == answers@[j]->Ok_0.1
                &&& o@.len() == idx.len()
                &&& forall|t: int| 0 <= t < o@.len() ==> {
                    &&& (#[trigger] o@[t]).path@ == path@
                    &&& o@[t].rule@ == rs[idx[t]].id
                    &&& o@[t].message@ == rs[idx[t]].description
                    &&& o@[t].noul == answers@[idx[t]]->Ok_0.1
                }
            },
        },
{
    let ghost all = answers@;
    let ghost rs = rules@.map_values(|x: &Rule| x@);
    let n = answers.len();
    let mut rest = answers;
    let mut checked: Vec<(String, P)> = Vec::new();
    let mut offenses: Vec<Offense<P>> = Vec::new();
    let mut i: usize = 0;
    while i < n
        invariant
            n == all.len() == rules@.len(),
            all == answers@,
            i <= n,
            rs == rules@.map_values(|x: &Rule| x@),
            rest@ == all.subrange(i as int, n as int),
            first_error(all.subrange(0, i as int)).is_none(),
            checked@.len() == i,
            forall|j: int| 0 <= j < i ==> (#[trigger] checked@[j]).0@ == rs[j].id && checked@[j].1 == all[j]->Ok_0.1,
            all.subrange(0, i as int).len() == i,
            offenses@.len() == offending(rs, all.subrange(0, i as int)).len(),
            forall|t: int| 0 <= t < offenses@.len() ==> offense_ok(#[trigger] offenses@[t], offending(rs, all.subrange(0, i as int))[t], i as int, path@, rs, all),
        decreases n - i,
    {
        let answer = rest.remove(0);
        let ghost pre = all.subrange(0, i + 1);
        proof {
            assert(pre.drop_last() == all.subrange(0, i as int));
            assert(pre.last() == answer);
            assert(rest@ =~= all.subrange(i + 1, n as int));
        }
        let rule = rules[i];
        assert(rs[i as int] == rule@);
        match answer {
            Err(message) => {
                proof {
                    assert(all[i as int] == Err::<(bool, P), String>(message));
                    assert(first_error(pre) == Some(i as int));
                    lemma_first_error_prefix(all, (i + 1) as int);
                }
                return Outcome::Failed(Failure { path: string_of(chars_of(path).as_slice()), error: message });
            },
            Ok((result, noul)) => {
                let ghost before = offenses@;
                let ghost idx_before = offending(rs, all.subrange(0, i as int));
                assert(all[i as int] == Ok::<(bool, P), String>((result, noul)));
                assert(first_error(pre).is_none());
                let offends = rule.is_offense(result);
                assert(offending(rs, pre) == if offends { idx_before.push(i as int) } else { idx_before });
                if offends {
                    offenses.push(Offense {
                        path: string_of(chars_of(path).as_slice()),
                        rule: string_of(chars_of(rule.id()).as_slice()),
                        message: string_of(chars_of(rule.description()).as_slice()),
                        noul: noul,
                    });
                }
                checked.push((string_of(chars_of(rule.id()).as_slice()), noul));
                proof {
                    let idx = offending(rs, pre);
                    assert forall|t: int| 0 <= t < offenses@.len() implies offense_ok(#[trigger] offenses@[t], idx[t], i + 1, path@, rs, all) by {
                        if t < before.len() {
                            assert(offenses@[t] == before[t]);
                            assert(idx[t] == idx_before[t]);
                            assert(offense_ok(before[t], idx_before[t], i as int, path@, rs, all));
                            assert(offenses@[t].noul == all[idx[t]]->Ok_0.1);
                            assert(offenses@[t].rule@ == rs[idx[t]].id);
                        } else {
                            assert(idx[t] == i);
                            assert(offenses@[t].noul == all[idx[t]]->Ok_0.1);
                            assert(offenses@[t].rule@ == rs[idx[t]].id);
                            assert(offenses@[t].message@ == rs[idx[t]].description);
                        }
                    }
                }
            },
        }
        i += 1;
        assert(all.subrange(0, i as int) == pre);
    }
    assert(all.subrange(0, n as int) == all);
    Outcome::Checked(Checked { path: string_of(chars_of(path).as_slice()), answers: checked }, offenses)
}

/// An error found in a prefix is the first error of the whole.
proof fn lemma_first_error_prefix<P>(all: Seq<Result<(bool, P), String>>, i: int)
    requires
        0 <= i <= all.len(),
        first_error(all.subrange(0, i)) is Some,
    ensures
        first_error(all) == first_error(all.subrange(0, i)),
    decreases all.len() - i,
{
    if i < all.len() {
        assert(all.subrange(0, i + 1).drop_last() == all.subrange(0, i));
        lemma_first_error_prefix(all, i + 1);
    } else {
        assert(all.subrange(0, i) == all);
    }
}

} // verus!
