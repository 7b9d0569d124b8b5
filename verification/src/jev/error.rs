//! Errors from building a query and from talking to the API.

use vstd::prelude::*;

use crate::text::{append, chars_of, push_nat, string_of};

verus! {

/// Everything that can go wrong building a query or talking to the API.
#[derive(Debug, Clone, PartialEq, Eq)]
#[non_exhaustive]
pub enum Error {
    /// The client was given an empty API key.
    MissingApiKey,
    /// The API answered with an error status.
    Api(ApiError),
    /// The API could not be reached, or the connection broke.
    Transport(String),
    /// The API answered successfully with something that is not a Jev response.
    InvalidResponse(String),
    /// A question was badly formed, such as a choice with no options.
    InvalidQuestion(String),
    /// Two questions of one query share an identifier.
    DuplicateQuestion(String),
    /// The response has no answer for this question.
    Unanswered(String),
    /// The question was asked as another type than the one requested.
    WrongType { id: String, asked: &'static str, requested: &'static str },
}

/// An error status from the API, with the body it came with.
#[derive(Debug, Clone, PartialEq, Eq)]
pub struct ApiError {
    pub status: u16,
    pub body: String,
}

/// What an [`ApiError`] status means.
#[derive(Debug, Clone, Copy, PartialEq, Eq)]
pub enum ApiErrorKind {
    /// 401: the API key was refused.
    Authentication,
    /// 422: the query was refused.
    Validation,
    /// 429: too many requests.
    RateLimit,
    /// 529: the model is overloaded.
    Overloaded,
    /// Any other error status.
    Other,
}

pub open spec fn kind_of(status: u16) -> ApiErrorKind {
    if status == 401 {
        ApiErrorKind::Authentication
    } else if status == 422 {
        ApiErrorKind::Validation
    } else if status == 429 {
        ApiErrorKind::RateLimit
    } else if status == 529 {
        ApiErrorKind::Overloaded
    } else {
        ApiErrorKind::Other
    }
}

pub open spec fn api_message(e: ApiError) -> Seq<char> {
    "Jev API error "@ + crate::text::nat_text(e.status as nat) + ": "@ + e.body@
}

/// How an error is printed.
pub open spec fn message_spec(e: Error) -> Seq<char> {
    match e {
        Error::MissingApiKey => "missing API key: pass the key of your Typesafe account to Client::new"@,
        Error::Api(a) => api_message(a),
        Error::Transport(m) => "could not reach the Jev API: "@ + m@,
        Error::InvalidResponse(m) => "unexpected response from the Jev API: "@ + m@,
        Error::InvalidQuestion(m) => m@,
        Error::DuplicateQuestion(id) => id@ + " has already been asked"@,
        Error::Unanswered(id) => id@ + " has not been answered"@,
        Error::WrongType { id, asked, requested } => id@ + " was asked as a "@ + asked@ + " question, not a "@
            + requested@ + " one"@,
    }
}

impl ApiError {
    pub fn kind(&self) -> (k: ApiErrorKind)
        ensures
            k == kind_of(self.status),
    {
        match self.status {
            401 => ApiErrorKind::Authentication,
            422 => ApiErrorKind::Validation,
            429 => ApiErrorKind::RateLimit,
            529 => ApiErrorKind::Overloaded,
            _ => ApiErrorKind::Other,
        }
    }

    /// How the error is printed.
    pub fn message(&self) -> (r: String)
        ensures
            r@ == api_message(*self),
    {
        let mut m = chars_of("Jev API error ");
        push_nat(&mut m, self.status as u64);
        append(&mut m, ": ");
        append(&mut m, self.body.as_str());
        string_of(m.as_slice())
    }
}

impl Error {
    /// The API error behind this error, if it is one.
    pub fn api(&self) -> (r: Option<&ApiError>)
        ensures
            match self {
                Error::Api(a) => r == Some(a),
                _ => r.is_none(),
            },
    {
        match self {
            Error::Api(error) => Some(error),
            _ => None,
        }
    }

    /// Whether the same request may succeed if sent again later: the API was
    /// rate limiting or overloaded.
    pub fn is_retryable(&self) -> (r: bool)
        ensures
            r == (self is Api && (self->Api_0.status == 429 || self->Api_0.status == 529)),
    {
        match self.api() {
            Some(error) => match error.kind() {
                ApiErrorKind::RateLimit => true,
                ApiErrorKind::Overloaded => true,
                _ => false,
            },
            None => false,
        }
    }

    /// How the error is printed.
    pub fn message(&self) -> (r: String)
        ensures
            r@ == message_spec(*self),
    {
        let mut m: Vec<char> = Vec::new();
        match self {
            Error::MissingApiKey => {
                append(&mut m, "missing API key: pass the key of your Typesafe account to Client::new");
            },
            Error::Api(a) => {
                return a.message();
            },
            Error::Transport(t) => {
                append(&mut m, "could not reach the Jev API: ");
                append(&mut m, t.as_str());
            },
            Error::InvalidResponse(t) => {
                append(&mut m, "unexpected response from the Jev API: ");
                append(&mut m, t.as_str());
            },
            Error::InvalidQuestion(t) => {
                append(&mut m, t.as_str());
            },
            Error::DuplicateQuestion(id) => {
                append(&mut m, id.as_str());
                append(&mut m, " has already been asked");
            },
            Error::Unanswered(id) => {
                append(&mut m, id.as_str());
                append(&mut m, " has not been answered");
            },
            Error::WrongType { id, asked, requested } => {
                append(&mut m, id.as_str());
                append(&mut m, " was asked as a ");
                append(&mut m, asked);
                append(&mut m, " question, not a ");
                append(&mut m, requested);
                append(&mut m, " one");
            },
        }
        string_of(m.as_slice())
    }
}

/// The error for a question without a usable answer of the requested type:
/// the types differ when the question was asked as another type, else it went
/// unanswered.
pub fn missing_answer(asked: Option<&'static str>, id: &str, requested: &'static str) -> (e: Error)
    ensures
        match asked {
            Some(a) => if a@ != requested@ {
                e == Error::WrongType { id: e->id, asked: a, requested } && e->id@ == id@
            } else {
                e is Unanswered && e->Unanswered_0@ == id@
            },
            None => e is Unanswered && e->Unanswered_0@ == id@,
        },
{
    let id = string_of(chars_of(id).as_slice());
    match asked {
        Some(a) => {
            if !crate::text::str_eq(a, requested) {
                return Error::WrongType { id, asked: a, requested };
            }
        },
        None => {},
    }
    Error::Unanswered(id)
}

} // verus!
