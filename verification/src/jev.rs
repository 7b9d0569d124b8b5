//! A typed client for the Typesafe Jev model API, as far as it is logic: the
//! questions, the queries, and the errors. Sending a query is the caller's.
//!
//! A [`Query`](query::Query) is a piece of text (the *state*) and a set of
//! named questions about it. Each question has a type, which fixes the shape
//! of its answer: a noul (a true/false judgement, answered with a
//! probability), a choice (one option out of a set) or a score (a level on a
//! scale of 2 to 10).

pub mod error;
pub mod query;
pub mod question;
