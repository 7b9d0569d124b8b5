//! The questions a query asks, as they are sent to the API.

use vstd::prelude::*;

use indexmap::IndexMap;

use crate::jev::error::Error;
use crate::ordered::{new_string_map, str_insert, string_entries, string_map_insert, string_map_len};
use crate::text::{append, chars_of, push_nat, string_of};
use crate::yaml::FloatLit;

verus! {

/// A question of any type, as it is sent to the API.
#[derive(Debug)]
pub enum Question {
    Noul(Noul),
    Choice(Choice),
    Score(Score),
}

/// A true/false question. The answer is the probability that it is true, and
/// its result is whether that probability is above the threshold (0.5 unless
/// set); the threshold is a float literal, and stays on this side: the API is
/// never sent it.
#[derive(Debug)]
pub struct Noul {
    instructions: String,
    criteria: Option<IndexMap<String, String>>,
    threshold: FloatLit,
}

/// A question answered by picking one of a set of options, each described in words.
#[derive(Debug)]
pub struct Choice {
    instructions: String,
    options: IndexMap<String, String>,
}

/// A question answered with a level on a scale, each level described in words.
#[derive(Debug)]
pub struct Score {
    instructions: String,
    levels: Vec<String>,
}

pub open spec fn question_type(q: Question) -> Seq<char> {
    match q {
        Question::Noul(_) => "noul"@,
        Question::Choice(_) => "choice"@,
        Question::Score(_) => "score"@,
    }
}

impl Question {
    /// The instructions of the question held.
    pub open spec fn instructions_spec(&self) -> Seq<char> {
        match self {
            Question::Noul(q) => q.instructions_spec(),
            Question::Choice(q) => q.instructions_spec(),
            Question::Score(q) => q.instructions_spec(),
        }
    }

    /// The type's name in the API: "noul", "choice" or "score".
    pub fn kind_name(&self) -> (r: &'static str)
        ensures
            r@ == question_type(*self),
    {
        match self {
            Question::Noul(_) => "noul",
            Question::Choice(_) => "choice",
            Question::Score(_) => "score",
        }
    }

    pub fn instructions(&self) -> (r: &str)
        ensures
            r@ == self.instructions_spec(),
    {
        match self {
            Question::Noul(q) => q.instructions.as_str(),
            Question::Choice(q) => q.instructions.as_str(),
            Question::Score(q) => q.instructions.as_str(),
        }
    }
}

impl From<Noul> for Question {
    fn from(q: Noul) -> (r: Question) {
        Question::Noul(q)
    }
}

impl vstd::std_specs::convert::FromSpecImpl<Noul> for Question {
    open spec fn obeys_from_spec() -> bool {
        true
    }

    open spec fn from_spec(q: Noul) -> Question {
        Question::Noul(q)
    }
}

impl From<Choice> for Question {
    fn from(q: Choice) -> (r: Question) {
        Question::Choice(q)
    }
}

impl vstd::std_specs::convert::FromSpecImpl<Choice> for Question {
    open spec fn obeys_from_spec() -> bool {
        true
    }

    open spec fn from_spec(q: Choice) -> Question {
        Question::Choice(q)
    }
}

impl From<Score> for Question {
    fn from(q: Score) -> (r: Question) {
        Question::Score(q)
    }
}

impl vstd::std_specs::convert::FromSpecImpl<Score> for Question {
    open spec fn obeys_from_spec() -> bool {
        true
    }

    open spec fn from_spec(q: Score) -> Question {
        Question::Score(q)
    }
}

/// The threshold of a noul that sets none.
pub open spec fn default_threshold() -> Seq<char> {
    "0.5"@
}

impl Noul {
    pub closed spec fn instructions_spec(&self) -> Seq<char> {
        self.instructions@
    }

    pub closed spec fn criteria_spec(&self) -> Option<Seq<(Seq<char>, Seq<char>)>> {
        match self.criteria {
            Some(m) => Some(string_entries(m)),
            None => None,
        }
    }

    pub closed spec fn threshold_spec(&self) -> Seq<char> {
        self.threshold.text@
    }

    pub fn new(instructions: String) -> (n: Noul)
        ensures
            n.instructions_spec() == instructions@,
            n.criteria_spec().is_none(),
            n.threshold_spec() == default_threshold(),
    {
        Noul {
            instructions,
            criteria: None,
            threshold: FloatLit { text: string_of(chars_of("0.5").as_slice()) },
        }
    }

    /// Spells out what a true and a false answer mean.
    pub fn with_criteria(self, when_true: String, when_false: String) -> (n: Noul)
        ensures
            n.instructions_spec() == self.instructions_spec(),
            n.threshold_spec() == self.threshold_spec(),
            n.criteria_spec() == Some(
                str_insert(
                    str_insert(
                        match self.criteria_spec() {
                            Some(c) => c,
                            None => Seq::empty(),
                        },
                        "true"@,
                        when_true@,
                    ),
                    "false"@,
                    when_false@,
                ),
            ),
    {
        self.with_criterion(string_of(chars_of("true").as_slice()), when_true).with_criterion(
            string_of(chars_of("false").as_slice()),
            when_false,
        )
    }

    /// Adds one entry to the criteria, keyed by the answer it describes.
    pub fn with_criterion(self, answer: String, meaning: String) -> (n: Noul)
        ensures
            n.instructions_spec() == self.instructions_spec(),
            n.threshold_spec() == self.threshold_spec(),
            n.criteria_spec() == Some(
                str_insert(
                    match self.criteria_spec() {
                        Some(c) => c,
                        None => Seq::empty(),
                    },
                    answer@,
                    meaning@,
                ),
            ),
    {
        let Noul { instructions, criteria, threshold } = self;
        let mut map = match criteria {
            Some(m) => m,
            None => new_string_map(),
        };
        string_map_insert(&mut map, answer, meaning);
        Noul { instructions, criteria: Some(map), threshold }
    }

    /// The probability above which the answer counts as true.
    pub fn with_threshold(self, threshold: FloatLit) -> (n: Noul)
        ensures
            n.instructions_spec() == self.instructions_spec(),
            n.criteria_spec() == self.criteria_spec(),
            n.threshold_spec() == threshold.text@,
    {
        Noul { threshold, ..self }
    }

    pub fn instructions(&self) -> (r: &str)
        ensures
            r@ == self.instructions_spec(),
    {
        self.instructions.as_str()
    }

    pub fn criteria(&self) -> (r: Option<&IndexMap<String, String>>)
        ensures
            match r {
                Some(m) => self.criteria_spec() == Some(string_entries(*m)),
                None => self.criteria_spec().is_none(),
            },
    {
        match &self.criteria {
            Some(m) => Some(m),
            None => None,
        }
    }

    pub fn threshold(&self) -> (r: &FloatLit)
        ensures
            r.text@ == self.threshold_spec(),
    {
        &self.threshold
    }
}

/// The error for a choice without a usable number of options.
pub open spec fn options_message(n: nat) -> Seq<char> {
    "a choice question takes 1 to 255 options, got "@ + crate::text::nat_text(n)
}

/// The options as a map: a name given twice keeps its first place and its last description.
pub open spec fn options_spec(options: Seq<(String, String)>) -> Seq<(Seq<char>, Seq<char>)>
    decreases options.len(),
{
    if options.len() == 0 {
        Seq::empty()
    } else {
        str_insert(options_spec(options.drop_last()), options.last().0@, options.last().1@)
    }
}

impl Choice {
    pub closed spec fn instructions_spec(&self) -> Seq<char> {
        self.instructions@
    }

    pub closed spec fn options_spec(&self) -> Seq<(Seq<char>, Seq<char>)> {
        string_entries(self.options)
    }

    /// Takes the options as (name, description) pairs, 1 to 255 of them.
    pub fn new(instructions: String, options: Vec<(String, String)>) -> (r: Result<Choice, Error>)
        ensures
            match r {
                Ok(c) => {
                    &&& 1 <= options_spec(options@).len() <= 255
                    &&& c.instructions_spec() == instructions@
                    &&& c.options_spec() == options_spec(options@)
                },
                Err(e) => {
                    &&& !(1 <= options_spec(options@).len() <= 255)
                    &&& e is InvalidQuestion
                    &&& e->InvalidQuestion_0@ == options_message(options_spec(options@).len())
                },
            },
    {
        let ghost given = options@;
        let mut map = new_string_map();
        let mut rest = options;
        let mut taken: Vec<(String, String)> = Vec::new();
        let mut i: usize = 0;
        let n = rest.len();
        while i < n
            invariant
                n == given.len(),
                i <= n,
                rest@ == given.subrange(i as int, n as int),
                string_entries(map) == options_spec(given.subrange(0, i as int)),
            decreases n - i,
        {
            let (k, v) = rest.remove(0);
            proof {
                assert(given.subrange(0, i + 1).drop_last() == given.subrange(0, i as int));
                assert(given.subrange(0, i + 1).last() == (k, v));
                assert(rest@ =~= given.subrange(i + 1, n as int));
            }
            string_map_insert(&mut map, k, v);
            i += 1;
        }
        assert(given.subrange(0, n as int) == given);
        let count = string_map_len(&map);
        if count == 0 || count > 255 {
            let mut m = chars_of("a choice question takes 1 to 255 options, got ");
            push_nat(&mut m, count as u64);
            return Err(Error::InvalidQuestion(string_of(m.as_slice())));
        }
        Ok(Choice { instructions, options: map })
    }

    pub fn instructions(&self) -> (r: &str)
        ensures
            r@ == self.instructions_spec(),
    {
        self.instructions.as_str()
    }

    pub fn options(&self) -> (r: &IndexMap<String, String>)
        ensures
            string_entries(*r) == self.options_spec(),
    {
        &self.options
    }
}

/// The error for a score without a usable number of levels.
pub open spec fn levels_message(n: nat) -> Seq<char> {
    "a score question takes 2 to 10 levels, got "@ + crate::text::nat_text(n)
}

impl Score {
    pub closed spec fn instructions_spec(&self) -> Seq<char> {
        self.instructions@
    }

    pub closed spec fn levels_spec(&self) -> Seq<String> {
        self.levels@
    }

    /// Takes the levels from lowest to highest, 2 to 10 of them.
    pub fn new(instructions: String, levels: Vec<String>) -> (r: Result<Score, Error>)
        ensures
            match r {
                Ok(s) => {
                    &&& 2 <= levels@.len() <= 10
                    &&& s.instructions_spec() == instructions@
                    &&& s.levels_spec() == levels@
                },
                Err(e) => {
                    &&& !(2 <= levels@.len() <= 10)
                    &&& e is InvalidQuestion
                    &&& e->InvalidQuestion_0@ == levels_message(levels@.len())
                },
            },
    {
        if levels.len() < 2 || levels.len() > 10 {
            let mut m = chars_of("a score question takes 2 to 10 levels, got ");
            push_nat(&mut m, levels.len() as u64);
            return Err(Error::InvalidQuestion(string_of(m.as_slice())));
        }
        Ok(Score { instructions, levels })
    }

    pub fn instructions(&self) -> (r: &str)
        ensures
            r@ == self.instructions_spec(),
    {
        self.instructions.as_str()
    }

    pub fn levels(&self) -> (r: &[String])
        ensures
            r@ == self.levels_spec(),
    {
        self.levels.as_slice()
    }
}

} // verus!
