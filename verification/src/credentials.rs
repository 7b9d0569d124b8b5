//! Which Jev API key a run uses, and how it is shown.
//!
//! The key comes from, in order: `--api-key`, the `JEV_API_KEY` environment
//! variable, then the credentials file that `lintus auth login` writes. The
//! caller reads the environment and the file; this module decides.

use vstd::prelude::*;

use crate::error::Error;
use crate::paths::{join_path, join_spec};
use crate::text::{append, chars_of, string_of};

verus! {

pub const ENV_VAR: &'static str = "JEV_API_KEY";

/// Where a key came from.
#[derive(Debug, Clone, PartialEq, Eq)]
pub enum Source {
    Flag,
    Env,
    /// The credentials file, by its path.
    File(String),
}

#[derive(Debug, Clone, PartialEq, Eq)]
pub struct ApiKey {
    pub key: String,
    pub source: Source,
}

/// The key a run should use: the flag, else a non-empty environment variable,
/// else the saved key with the file it was read from.
pub open spec fn resolve_spec(
    flag: Option<Seq<char>>,
    env: Option<Seq<char>>,
    saved: Option<(Seq<char>, Seq<char>)>,
) -> Option<(Seq<char>, Option<Seq<char>>, bool)> {
    match flag {
        Some(k) => Some((k, None, true)),
        None => match env {
            Some(k) => if k.len() > 0 {
                Some((k, None, false))
            } else {
                match saved {
                    Some((k, p)) => Some((k, Some(p), false)),
                    None => None,
                }
            },
            None => match saved {
                Some((k, p)) => Some((k, Some(p), false)),
                None => None,
            },
        },
    }
}

/// A key as (key, file it was saved in, whether it came from the flag).
pub open spec fn key_view(k: ApiKey) -> (Seq<char>, Option<Seq<char>>, bool) {
    (
        k.key@,
        match k.source {
            Source::File(p) => Some(p@),
            _ => None,
        },
        k.source is Flag,
    )
}

pub open spec fn opt_str_view(s: Option<String>) -> Option<Seq<char>> {
    match s {
        Some(x) => Some(x@),
        None => None,
    }
}

/// The key a run should use: the flag, else the environment variable when it
/// is set and not empty, else the saved key and the file it was read from.
pub fn resolve(flag: Option<String>, env: Option<String>, saved: Option<(String, String)>) -> (r: Option<ApiKey>)
    ensures
        match r {
            Some(k) => {
                &&& resolve_spec(opt_str_view(flag), opt_str_view(env), match saved {
                    Some((k, p)) => Some((k@, p@)),
                    None => None,
                }) == Some(key_view(k))
                &&& (k.source is Env) == (flag.is_none() && env is Some && env->0@.len() > 0)
            },
            None => resolve_spec(opt_str_view(flag), opt_str_view(env), match saved {
                Some((k, p)) => Some((k@, p@)),
                None => None,
            }).is_none(),
        },
{
    match flag {
        Some(key) => return Some(ApiKey { key, source: Source::Flag }),
        None => {},
    }
    match env {
        Some(key) => {
            if key.as_str().unicode_len() > 0 {
                return Some(ApiKey { key, source: Source::Env });
            }
        },
        None => {},
    }
    match saved {
        Some((key, path)) => Some(ApiKey { key, source: Source::File(path) }),
        None => None,
    }
}

/// Whether resolving a key reads the saved one: only when there is no flag
/// and the environment variable is unset or empty, so a broken credentials
/// file does not stop a run that does not use it.
pub fn needs_saved(flag: &Option<String>, env: &Option<String>) -> (r: bool)
    ensures
        r == (flag.is_none() && match env {
            Some(k) => k@.len() == 0,
            None => true,
        }),
        !r ==> forall|saved: Option<(Seq<char>, Seq<char>)>|
            #[trigger] resolve_spec(opt_str_view(*flag), opt_str_view(*env), saved) == resolve_spec(
                opt_str_view(*flag),
                opt_str_view(*env),
                None,
            ),
{
    match flag {
        Some(_) => false,
        None => match env {
            Some(k) => k.as_str().unicode_len() == 0,
            None => true,
        },
    }
}

/// The message when no key is found for a run.
pub open spec fn no_key_message() -> Seq<char> {
    "no API key: set "@ + "JEV_API_KEY"@ + ", pass --api-key, or run `lintus auth login` to save one"@
}

/// The key a run uses: an empty key counts as none.
pub fn key_for_run(flag: Option<String>, env: Option<String>, saved: Option<(String, String)>) -> (r: Result<
    ApiKey,
    Error,
>)
    ensures
        match r {
            Ok(k) => k.key@.len() > 0 && resolve_spec(opt_str_view(flag), opt_str_view(env), match saved {
                Some((k, p)) => Some((k@, p@)),
                None => None,
            }) == Some(key_view(k)),
            Err(e) => e@ == no_key_message() && match resolve_spec(opt_str_view(flag), opt_str_view(env), match saved {
                Some((k, p)) => Some((k@, p@)),
                None => None,
            }) {
                Some((k, _, _)) => k.len() == 0,
                None => true,
            },
        },
{
    match resolve(flag, env, saved) {
        Some(k) => {
            if k.key.as_str().unicode_len() > 0 {
                return Ok(k);
            }
        },
        None => {},
    }
    let mut m = chars_of("no API key: set ");
    append(&mut m, ENV_VAR);
    append(&mut m, ", pass --api-key, or run `lintus auth login` to save one");
    Err(Error::new(string_of(m.as_slice())))
}

impl Source {
    /// How the source is named in messages.
    pub fn describe(&self) -> (r: String)
        ensures
            r@ == match self {
                Source::Flag => "--api-key"@,
                Source::Env => "JEV_API_KEY"@,
                Source::File(p) => p@,
            },
    {
        match self {
            Source::Flag => string_of(chars_of("--api-key").as_slice()),
            Source::Env => string_of(chars_of(ENV_VAR).as_slice()),
            Source::File(p) => p.clone(),
        }
    }
}

/// Enough of a key to recognise it, never enough to use it: the first 3 and
/// last 4 characters of a key of at least 12, else as many `*` as it has
/// characters, at most 8.
pub open spec fn mask_spec(key: Seq<char>) -> Seq<char> {
    if key.len() < 12 {
        Seq::new(if key.len() < 8 { key.len() } else { 8 }, |i: int| '*')
    } else {
        key.subrange(0, 3) + seq!['…'] + key.subrange(key.len() - 4, key.len() as int)
    }
}

/// Enough of a key to recognise it, never enough to use it.
pub fn mask(key: &str) -> (r: String)
    ensures
        r@ == mask_spec(key@),
        r@.len() <= 8,
        key@.len() < 12 ==> forall|i: int| 0 <= i < r@.len() ==> r@[i] == '*',
{
    let chars = chars_of(key);
    let n = chars.len();
    let mut out: Vec<char> = Vec::new();
    if n < 12 {
        let stars = if n < 8 { n } else { 8 };
        let mut i: usize = 0;
        while i < stars
            invariant
                i <= stars,
                out@ =~= Seq::new(i as nat, |k: int| '*'),
            decreases stars - i,
        {
            out.push('*');
            i += 1;
        }
        return string_of(out.as_slice());
    }
    crate::text::push_range(&mut out, chars.as_slice(), 0, 3);
    out.push('…');
    crate::text::push_range(&mut out, chars.as_slice(), n - 4, n);
    string_of(out.as_slice())
}

/// The directory the credentials file is kept in: `$XDG_CONFIG_HOME` when
/// set, else `%APPDATA%` on Windows and `$HOME/.config` elsewhere. Each
/// variable is given only when it holds an absolute path.
pub fn config_dir(xdg: Option<String>, appdata: Option<String>, home: Option<String>, windows: bool) -> (r: Option<
    String,
>)
    ensures
        opt_str_view(r) == match xdg {
            Some(x) => Some(x@),
            None => if windows {
                opt_str_view(appdata)
            } else {
                match home {
                    Some(h) => Some(join_spec(h@, ".config"@)),
                    None => None,
                }
            },
        },
{
    match xdg {
        Some(x) => Some(x),
        None => if windows {
            appdata
        } else {
            match home {
                Some(h) => Some(join_path(h.as_str(), ".config")),
                None => None,
            }
        },
    }
}

/// The credentials file within the configuration directory.
pub fn credentials_file(config_dir: &str) -> (r: String)
    ensures
        r@ == join_spec(join_spec(config_dir@, "lintus"@), "credentials.json"@),
{
    let dir = join_path(config_dir, "lintus");
    join_path(dir.as_str(), "credentials.json")
}

/// What serde_json reads in `text`: the message of its error when `text` is
/// not JSON, else the string under `key` in the top-level object, if there
/// is one.
pub uninterp spec fn json_string_field(text: Seq<char>, key: Seq<char>) -> Result<Option<Seq<char>>, Seq<char>>;

pub open spec fn field_view(r: Result<Option<String>, String>) -> Result<Option<Seq<char>>, Seq<char>> {
    match r {
        Ok(Some(s)) => Ok(Some(s@)),
        Ok(None) => Ok(None),
        Err(m) => Err(m@),
    }
}

/// `serde_json::from_str` into a `serde_json::Value`, then `get(key)` and
/// `as_str` on it: the string field `key` of a JSON object, or why the text
/// is not JSON. The result depends on the text and the key alone.
#[verifier::external_body]
fn string_field(text: &str, key: &str) -> (r: Result<Option<String>, String>)
    ensures
        field_view(r) == json_string_field(text@, key@),
{
    match serde_json::from_str::<serde_json::Value>(text) {
        Ok(v) => Ok(v.get(key).and_then(|k| k.as_str()).map(|k| k.to_string())),
        Err(e) => Err(e.to_string()),
    }
}

pub open spec fn unreadable_message(path: Seq<char>, reason: Seq<char>) -> Seq<char> {
    "could not read the saved API key in "@ + path + ": "@ + reason + ". Run `lintus auth login` to save it again"@
}

/// The error for a credentials file that holds no usable key.
pub fn unreadable(path: &str, reason: &str) -> (e: Error)
    ensures
        e@ == unreadable_message(path@, reason@),
{
    let mut m = chars_of("could not read the saved API key in ");
    append(&mut m, path);
    append(&mut m, ": ");
    append(&mut m, reason);
    append(&mut m, ". Run `lintus auth login` to save it again");
    Error::new(string_of(m.as_slice()))
}

/// The key saved in the credentials file at `path`, whose text is `text`:
/// the non-empty string `jev_api_key` of its JSON object.
pub fn saved_key(path: &str, text: &str) -> (r: Result<String, Error>)
    ensures
        match json_string_field(text@, "jev_api_key"@) {
            Ok(Some(k)) => if k.len() > 0 {
                r matches Ok(s) && s@ == k
            } else {
                r matches Err(e) && e@ == unreadable_message(path@, "no `jev_api_key` in it"@)
            },
            Ok(None) => r matches Err(e) && e@ == unreadable_message(path@, "no `jev_api_key` in it"@),
            Err(m) => r matches Err(e) && e@ == unreadable_message(path@, m),
        },
{
    match string_field(text, "jev_api_key") {
        Ok(Some(k)) => {
            if k.as_str().unicode_len() > 0 {
                Ok(k)
            } else {
                Err(unreadable(path, "no `jev_api_key` in it"))
            }
        },
        Ok(None) => Err(unreadable(path, "no `jev_api_key` in it")),
        Err(m) => Err(unreadable(path, m.as_str())),
    }
}

} // verus!
