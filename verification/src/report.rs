//! Everything a run produced: what was checked, what was flagged, what was
//! skipped, what broke. A probability is of type `P`: the caller's float, or
//! the text it is printed as.

use vstd::prelude::*;

use crate::order::{sort_spec, stable_sort, Keyed};
use crate::text::{chars_of, deep};

verus! {

/// A file the model answered about, with the probability each rule got,
/// offense or not, so a run can be read for confidence and not just verdicts.
#[derive(Debug, Clone, PartialEq)]
pub struct Checked<P> {
    pub path: String,
    pub answers: Vec<(String, P)>,
}

/// A rule the model flagged on a file, with the probability it gave.
#[derive(Debug, Clone, PartialEq)]
pub struct Offense<P> {
    pub path: String,
    pub rule: String,
    pub message: String,
    pub noul: P,
}

#[derive(Debug, Clone, PartialEq, Eq)]
pub struct Skipped {
    pub path: String,
    pub reason: String,
}

#[derive(Debug, Clone, PartialEq, Eq)]
pub struct Failure {
    pub path: String,
    pub error: String,
}

#[derive(Debug, Clone, PartialEq)]
pub struct Report<P> {
    pub checked: Vec<Checked<P>>,
    pub offenses: Vec<Offense<P>>,
    pub skipped: Vec<Skipped>,
    pub failures: Vec<Failure>,
}

impl<P> Keyed for Checked<P> {
    open spec fn key_spec(&self) -> Seq<Seq<char>> {
        seq![self.path@]
    }

    fn key(&self) -> (r: Vec<Vec<char>>) {
        let mut r: Vec<Vec<char>> = Vec::new();
        r.push(chars_of(self.path.as_str()));
        assert(deep(r@) =~= self.key_spec());
        r
    }
}

impl<P> Keyed for Offense<P> {
    open spec fn key_spec(&self) -> Seq<Seq<char>> {
        seq![self.path@, self.rule@]
    }

    fn key(&self) -> (r: Vec<Vec<char>>) {
        let mut r: Vec<Vec<char>> = Vec::new();
        r.push(chars_of(self.path.as_str()));
        r.push(chars_of(self.rule.as_str()));
        assert(deep(r@) =~= self.key_spec());
        r
    }
}

impl Keyed for Skipped {
    open spec fn key_spec(&self) -> Seq<Seq<char>> {
        seq![self.path@]
    }

    fn key(&self) -> (r: Vec<Vec<char>>) {
        let mut r: Vec<Vec<char>> = Vec::new();
        r.push(chars_of(self.path.as_str()));
        assert(deep(r@) =~= self.key_spec());
        r
    }
}

impl Keyed for Failure {
    open spec fn key_spec(&self) -> Seq<Seq<char>> {
        seq![self.path@]
    }

    fn key(&self) -> (r: Vec<Vec<char>>) {
        let mut r: Vec<Vec<char>> = Vec::new();
        r.push(chars_of(self.path.as_str()));
        assert(deep(r@) =~= self.key_spec());
        r
    }
}

/// What checking one file came to.
pub enum Outcome<P> {
    Checked(Checked<P>, Vec<Offense<P>>),
    Skipped(Skipped),
    Failed(Failure),
}

/// The exit status a report gives.
pub open spec fn exit_status_spec(failures: nat, offenses: nat) -> i32 {
    if failures > 0 {
        2
    } else if offenses > 0 {
        1
    } else {
        0
    }
}

impl<P> Report<P> {
    pub fn new() -> (r: Report<P>)
        ensures
            r.checked@.len() == 0,
            r.offenses@.len() == 0,
            r.skipped@.len() == 0,
            r.failures@.len() == 0,
    {
        Report { checked: Vec::new(), offenses: Vec::new(), skipped: Vec::new(), failures: Vec::new() }
    }

    /// Records what checking one file came to.
    pub fn add(&mut self, outcome: Outcome<P>)
        ensures
            match outcome {
                Outcome::Checked(c, o) => {
                    &&& final(self).checked@ == old(self).checked@.push(c)
                    &&& final(self).offenses@ == old(self).offenses@ + o@
                    &&& final(self).skipped@ == old(self).skipped@
                    &&& final(self).failures@ == old(self).failures@
                },
                Outcome::Skipped(s) => {
                    &&& final(self).checked@ == old(self).checked@
                    &&& final(self).offenses@ == old(self).offenses@
                    &&& final(self).skipped@ == old(self).skipped@.push(s)
                    &&& final(self).failures@ == old(self).failures@
                },
                Outcome::Failed(f) => {
                    &&& final(self).checked@ == old(self).checked@
                    &&& final(self).offenses@ == old(self).offenses@
                    &&& final(self).skipped@ == old(self).skipped@
                    &&& final(self).failures@ == old(self).failures@.push(f)
                },
            },
    {
        match outcome {
            Outcome::Checked(c, mut o) => {
                self.checked.push(c);
                self.offenses.append(&mut o);
            },
            Outcome::Skipped(s) => self.skipped.push(s),
            Outcome::Failed(f) => self.failures.push(f),
        }
    }

    /// Puts every list in a stable order, whatever order the files finished in:
    /// by path, and offenses by path then rule.
    pub fn sort(&mut self)
        ensures
            final(self).checked@ == sort_spec(old(self).checked@),
            final(self).offenses@ == sort_spec(old(self).offenses@),
            final(self).skipped@ == sort_spec(old(self).skipped@),
            final(self).failures@ == sort_spec(old(self).failures@),
    {
        stable_sort(&mut self.checked);
        stable_sort(&mut self.offenses);
        stable_sort(&mut self.skipped);
        stable_sort(&mut self.failures);
    }

    /// 2 when a file could not be checked, 1 when there are offenses, else 0.
    pub fn exit_status(&self) -> (r: i32)
        ensures
            r == exit_status_spec(self.failures@.len(), self.offenses@.len()),
    {
        if self.failures.len() > 0 {
            2
        } else if self.offenses.len() > 0 {
            1
        } else {
            0
        }
    }
}

} // verus!
