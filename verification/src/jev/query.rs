//! A state (the text the questions are about) and the questions to ask of it.

use vstd::prelude::*;

use indexmap::IndexMap;

use crate::jev::error::Error;
use crate::jev::question::Question;
use crate::ordered::{
    new_question_map, question_entries, question_find, question_map_entry, question_map_find,
    question_map_insert, question_map_len,
};

verus! {

/// No identifier is asked twice.
pub open spec fn ids_distinct(s: Seq<(Seq<char>, Question)>) -> bool {
    forall|i: int, j: int| 0 <= i < j < s.len() ==> #[trigger] s[i].0 != #[trigger] s[j].0
}

/// A state and the questions to ask of it, each under an identifier the
/// answers come back keyed by.
#[derive(Debug)]
pub struct Query {
    state: String,
    questions: IndexMap<String, Question>,
}

impl Query {
    pub closed spec fn state_spec(&self) -> Seq<char> {
        self.state@
    }

    /// The questions by identifier, in the order they were asked.
    pub closed spec fn questions_spec(&self) -> Seq<(Seq<char>, Question)> {
        question_entries(self.questions)
    }

    pub fn new(state: String) -> (q: Query)
        ensures
            q.state_spec() == state@,
            q.questions_spec() == Seq::<(Seq<char>, Question)>::empty(),
            ids_distinct(q.questions_spec()),
    {
        Query { state, questions: new_question_map() }
    }

    /// Adds a question. Identifiers must be unique within a query.
    pub fn ask(&mut self, id: String, question: Question) -> (r: Result<(), Error>)
        ensures
            final(self).state_spec() == old(self).state_spec(),
            match r {
                Ok(()) => {
                    &&& question_find(old(self).questions_spec(), id@, 0).is_none()
                    &&& final(self).questions_spec() == old(self).questions_spec().push((id@, question))
                },
                Err(e) => {
                    &&& question_find(old(self).questions_spec(), id@, 0) is Some
                    &&& e is DuplicateQuestion && e->DuplicateQuestion_0@ == id@
                    &&& final(self).questions_spec() == old(self).questions_spec()
                },
            },
            ids_distinct(old(self).questions_spec()) ==> ids_distinct(final(self).questions_spec()),
    {
        match question_map_find(&self.questions, id.as_str()) {
            Some(_) => Err(Error::DuplicateQuestion(id)),
            None => {
                proof { lemma_question_absent(self.questions_spec(), id@, 0); }
                question_map_insert(&mut self.questions, id, question);
                Ok(())
            },
        }
    }

    pub fn state(&self) -> (r: &str)
        ensures
            r@ == self.state_spec(),
    {
        self.state.as_str()
    }

    /// The question asked under an identifier.
    pub fn question(&self, id: &str) -> (r: Option<&Question>)
        ensures
            match question_find(self.questions_spec(), id@, 0) {
                Some(i) => r == Some(&self.questions_spec()[i].1),
                None => r.is_none(),
            },
    {
        match question_map_find(&self.questions, id) {
            Some(i) => {
                proof { lemma_question_find(self.questions_spec(), id@, 0); }
                let (_, q) = question_map_entry(&self.questions, i);
                Some(q)
            },
            None => None,
        }
    }

    /// The questions in the order they were asked.
    pub fn questions(&self) -> (r: Vec<(&str, &Question)>)
        ensures
            r@.len() == self.questions_spec().len(),
            forall|i: int|
                0 <= i < r@.len() ==> (#[trigger] r@[i]).0@ == self.questions_spec()[i].0 && *r@[i].1
                    == self.questions_spec()[i].1,
    {
        let n = question_map_len(&self.questions);
        let mut out: Vec<(&str, &Question)> = Vec::new();
        let mut i: usize = 0;
        while i < n
            invariant
                n == self.questions_spec().len(),
                i <= n,
                out@.len() == i,
                forall|j: int|
                    0 <= j < i ==> (#[trigger] out@[j]).0@ == self.questions_spec()[j].0 && *out@[j].1
                        == self.questions_spec()[j].1,
            decreases n - i,
        {
            let (k, q) = question_map_entry(&self.questions, i);
            out.push((k.as_str(), q));
            i += 1;
        }
        out
    }
}

/// An identifier that is not found is not there.
proof fn lemma_question_absent(s: Seq<(Seq<char>, Question)>, k: Seq<char>, i: int)
    requires
        0 <= i,
        question_find(s, k, i).is_none(),
    ensures
        forall|j: int| i <= j < s.len() ==> #[trigger] s[j].0 != k,
    decreases s.len() - i,
{
    if i < s.len() {
        lemma_question_absent(s, k, i + 1);
    }
}

proof fn lemma_question_find(s: Seq<(Seq<char>, Question)>, k: Seq<char>, i: int)
    requires
        0 <= i,
    ensures
        match question_find(s, k, i) {
            Some(j) => i <= j < s.len(),
            None => true,
        },
    decreases s.len() - i,
{
    if i < s.len() && s[i].0 != k {
        lemma_question_find(s, k, i + 1);
    }
}

} // verus!
