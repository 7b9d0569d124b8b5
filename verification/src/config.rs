//! The parsed config file. Its directory is the root every path is relative to.

use vstd::prelude::*;

use indexmap::IndexMap;

use crate::error::Error;
use crate::glob::{glob_alternatives, glob_matches, matches_any, Glob};
use crate::jev::question::Noul;
use crate::ordered::{new_string_map, str_insert, string_entries, string_map_entry, string_map_insert, string_map_len};
use crate::text::{append, chars_of, deep, extend, int_text, join, push_int, push_join, str_eq, string_of};
use crate::yaml::{
    class_name_spec, copy_value, float_in_unit, inspect_spec, inspect_str_spec, lemma_pairs_view,
    pairs_view, push_inspect, push_inspect_str, to_s_spec, value_view, FloatFact, FloatFacts, FloatLit,
    Mapping, Value, ValueV,
};

verus! {

pub const DEFAULT_MAX_FILE_SIZE: u64 = 100000;

/// The names a config file may have, in the order they are looked for.
pub open spec fn config_filenames_spec() -> Seq<Seq<char>> {
    seq![".lintus.yml"@, "lintus.yml"@, ".lintus.yaml"@, "lintus.yaml"@]
}

/// The keys a config file may have.
pub open spec fn config_keys() -> Seq<Seq<char>> {
    seq!["rules"@, "paths"@, "exclude"@, "max_file_size"@]
}

/// The keys a rule may have.
pub open spec fn rule_keys() -> Seq<Seq<char>> {
    seq!["question"@, "description"@, "criteria"@, "threshold"@, "paths"@, "exclude"@, "offense_when"@]
}

// ---------------------------------------------------------------------------
// Entries keyed by strings.
// ---------------------------------------------------------------------------

pub open spec fn entry_find(es: Seq<(Seq<char>, ValueV)>, k: Seq<char>, i: int) -> Option<int>
    decreases es.len() - i,
{
    if i < 0 || i >= es.len() {
        None
    } else if es[i].0 == k {
        Some(i)
    } else {
        entry_find(es, k, i + 1)
    }
}

pub open spec fn entry_insert(es: Seq<(Seq<char>, ValueV)>, k: Seq<char>, v: ValueV) -> Seq<(Seq<char>, ValueV)> {
    match entry_find(es, k, 0) {
        Some(i) => es.update(i, (es[i].0, v)),
        None => es.push((k, v)),
    }
}

/// A map's entries with their keys as strings. Keys equal once stringified
/// collapse into one, keeping the first position and the last value.
pub open spec fn string_keys_spec(ps: Seq<(ValueV, ValueV)>, f: Seq<FloatFact>) -> Seq<(Seq<char>, ValueV)>
    decreases ps.len(),
{
    if ps.len() == 0 {
        Seq::empty()
    } else {
        entry_insert(string_keys_spec(ps.drop_last(), f), to_s_spec(ps.last().0, f), ps.last().1)
    }
}

pub open spec fn get_spec(es: Seq<(Seq<char>, ValueV)>, k: Seq<char>) -> Option<ValueV> {
    match entry_find(es, k, 0) {
        Some(i) => Some(es[i].1),
        None => None,
    }
}

pub open spec fn contains_str(list: Seq<Seq<char>>, k: Seq<char>) -> bool {
    exists|i: int| 0 <= i < list.len() && list[i] == k
}

/// The keys that are not allowed, in order.
pub open spec fn unknown_keys(es: Seq<(Seq<char>, ValueV)>, allowed: Seq<Seq<char>>) -> Seq<Seq<char>>
    decreases es.len(),
{
    if es.len() == 0 {
        Seq::empty()
    } else if contains_str(allowed, es.last().0) {
        unknown_keys(es.drop_last(), allowed)
    } else {
        unknown_keys(es.drop_last(), allowed).push(es.last().0)
    }
}

/// The error for keys that are not allowed, if there are any.
pub open spec fn check_keys_spec(es: Seq<(Seq<char>, ValueV)>, allowed: Seq<Seq<char>>, context: Seq<char>) -> Option<
    Seq<char>,
> {
    let unknown = unknown_keys(es, allowed);
    if unknown.len() == 0 {
        None
    } else {
        Some(
            context + ": unknown key(s) "@ + join(unknown, ", "@) + " (expected "@ + join(allowed, ", "@)
                + ")"@,
        )
    }
}

/// Ruby's `Array(value).map(&:to_s)`: nothing, one value, or a list of them.
pub open spec fn string_list_spec(v: Option<ValueV>, f: Seq<FloatFact>) -> Seq<Seq<char>> {
    match v {
        None => Seq::empty(),
        Some(ValueV::Null) => Seq::empty(),
        Some(ValueV::Array(items)) => items.map_values(|x: ValueV| to_s_spec(x, f)),
        Some(ValueV::Hash(ps)) => ps.map_values(|p: (ValueV, ValueV)| to_s_spec(ValueV::Array(seq![p.0, p.1]), f)),
        Some(other) => seq![to_s_spec(other, f)],
    }
}

/// The whitespace Ruby's `String#strip` knows.
pub open spec fn is_space(c: char) -> bool {
    c == ' ' || c == '\t' || c == '\n' || c == '\x0B' || c == '\x0C' || c == '\r'
}

pub open spec fn strip_start(s: Seq<char>) -> Seq<char>
    decreases s.len(),
{
    if s.len() > 0 && is_space(s[0]) {
        strip_start(s.subrange(1, s.len() as int))
    } else {
        s
    }
}

pub open spec fn strip_end(s: Seq<char>) -> Seq<char>
    decreases s.len(),
{
    if s.len() > 0 && (is_space(s.last()) || s.last() == '\0') {
        strip_end(s.drop_last())
    } else {
        s
    }
}

/// Ruby's `String#strip`, which only knows ASCII whitespace (and trailing NULs).
pub open spec fn ruby_strip_spec(s: Seq<char>) -> Seq<char> {
    strip_end(strip_start(s))
}

/// ASCII whitespace: space, tab, line feed, vertical tab, form feed and
/// carriage return.
pub open spec fn ascii_whitespace(c: char) -> bool {
    c == ' ' || c == '\t' || c == '\n' || c == '\u{b}' || c == '\u{c}' || c == '\r'
}

proof fn lemma_strip_start(s: Seq<char>) -> (a: int)
    ensures
        0 <= a <= s.len(),
        strip_start(s) == s.subrange(a, s.len() as int),
        forall|i: int| 0 <= i < a ==> ascii_whitespace(#[trigger] s[i]),
        a < s.len() ==> !ascii_whitespace(s[a]),
    decreases s.len(),
{
    if s.len() > 0 && is_space(s[0]) {
        let rest = s.subrange(1, s.len() as int);
        let b = lemma_strip_start(rest);
        assert forall|i: int| 0 <= i < b + 1 implies ascii_whitespace(#[trigger] s[i]) by {
            if i > 0 {
                assert(s[i] == rest[i - 1]);
            }
        }
        assert(rest.subrange(b, rest.len() as int) =~= s.subrange(b + 1, s.len() as int));
        b + 1
    } else {
        assert(s.subrange(0, s.len() as int) =~= s);
        0
    }
}

proof fn lemma_strip_end(s: Seq<char>) -> (b: int)
    ensures
        0 <= b <= s.len(),
        strip_end(s) == s.subrange(0, b),
        forall|i: int| b <= i < s.len() ==> ascii_whitespace(#[trigger] s[i]) || s[i] == '\0',
        b > 0 ==> !ascii_whitespace(s[b - 1]) && s[b - 1] != '\0',
    decreases s.len(),
{
    if s.len() > 0 && (is_space(s.last()) || s.last() == '\0') {
        let init = s.drop_last();
        let b = lemma_strip_end(init);
        assert forall|i: int| b <= i < s.len() implies ascii_whitespace(#[trigger] s[i]) || s[i] == '\0' by {
            if i < init.len() {
                assert(s[i] == init[i]);
            }
        }
        assert(init.subrange(0, b) =~= s.subrange(0, b));
        if b > 0 {
            assert(s[b - 1] == init[b - 1]);
        }
        b
    } else {
        assert(s.subrange(0, s.len() as int) =~= s);
        s.len() as int
    }
}

/// Stripping takes a slice out of the text: it removes ASCII whitespace from
/// the front and ASCII whitespace or NULs from the back, nothing else, and
/// leaves none of them at either end.
pub proof fn law_strip_removes_only_surrounding_whitespace(s: Seq<char>)
    ensures
        exists|a: int, b: int|
            0 <= a <= b <= s.len() && ruby_strip_spec(s) == s.subrange(a, b) && (forall|i: int|
                0 <= i < a ==> ascii_whitespace(#[trigger] s[i])) && (forall|i: int|
                b <= i < s.len() ==> ascii_whitespace(#[trigger] s[i]) || s[i] == '\0'),
        ruby_strip_spec(s).len() > 0 ==> !ascii_whitespace(ruby_strip_spec(s)[0]) && !ascii_whitespace(
            ruby_strip_spec(s).last(),
        ) && ruby_strip_spec(s).last() != '\0',
{
    let a = lemma_strip_start(s);
    let t = s.subrange(a, s.len() as int);
    let b = lemma_strip_end(t);
    let r = ruby_strip_spec(s);
    assert(r == s.subrange(a, a + b)) by {
        assert(t.subrange(0, b) =~= s.subrange(a, a + b));
    }
    assert forall|i: int| a + b <= i < s.len() implies ascii_whitespace(#[trigger] s[i]) || s[i] == '\0' by {
        assert(s[i] == t[i - a]);
    }
    if r.len() > 0 {
        assert(r[0] == s[a]);
        assert(r.last() == t[b - 1]);
    }
}

// ---------------------------------------------------------------------------
// Rules.
// ---------------------------------------------------------------------------

pub open spec fn is_id_char(c: char) -> bool {
    ('a' <= c && c <= 'z') || ('0' <= c && c <= '9') || c == '_'
}

/// A snake_case rule id: a lowercase letter, then letters, digits and underscores.
pub open spec fn valid_id(id: Seq<char>) -> bool {
    id.len() > 0 && 'a' <= id[0] && id[0] <= 'z' && forall|i: int| 0 <= i < id.len() ==> is_id_char(#[trigger] id[i])
}

pub open spec fn rule_message(id: Seq<char>, message: Seq<char>) -> Seq<char> {
    "rule "@ + id + ": "@ + message
}

/// A rule: `paths` and `exclude` are the globs, each as the patterns it stands for.
pub struct RuleV {
    pub id: Seq<char>,
    pub description: Seq<char>,
    pub question: Seq<char>,
    pub criteria: Option<Seq<(Seq<char>, Seq<char>)>>,
    pub threshold: Option<Seq<char>>,
    pub offense_when: bool,
    pub paths: Seq<Seq<Seq<char>>>,
    pub exclude: Seq<Seq<Seq<char>>>,
}

/// The criteria map: each key and value as strings, in order.
pub open spec fn criteria_spec(ps: Seq<(ValueV, ValueV)>, f: Seq<FloatFact>) -> Seq<(Seq<char>, Seq<char>)>
    decreases ps.len(),
{
    if ps.len() == 0 {
        Seq::empty()
    } else {
        str_insert(criteria_spec(ps.drop_last(), f), to_s_spec(ps.last().0, f), to_s_spec(ps.last().1, f))
    }
}

/// A threshold between 0 and 1, as a float literal: `Err` for anything else.
pub open spec fn threshold_spec(v: Option<ValueV>, f: Seq<FloatFact>) -> Result<Option<Seq<char>>, ()> {
    match v {
        None => Ok(None),
        Some(ValueV::Null) => Ok(None),
        Some(ValueV::Int(t)) => if 0 <= t <= 1 { Ok(Some(int_text(t))) } else { Err(()) },
        Some(ValueV::Float(t)) => if float_in_unit(f, t) { Ok(Some(t)) } else { Err(()) },
        _ => Err(()),
    }
}

pub open spec fn globs_of(patterns: Seq<Seq<char>>) -> Seq<Seq<Seq<char>>> {
    patterns.map_values(|p: Seq<char>| glob_alternatives(p))
}

/// One entry of the `rules:` map, or the error it is refused with.
pub open spec fn rule_spec(
    id: Seq<char>,
    attrs: ValueV,
    default_paths: Seq<Seq<char>>,
    default_exclude: Seq<Seq<char>>,
    f: Seq<FloatFact>,
) -> Result<RuleV, Seq<char>> {
    if !valid_id(id) {
        Err("invalid rule id "@ + inspect_str_spec(id) + ": use snake_case (letters, digits, underscores)"@)
    } else {
        match attrs {
            ValueV::Hash(ps) => {
                let es = string_keys_spec(ps, f);
                match check_keys_spec(es, rule_keys(), "rule "@ + id) {
                    Some(m) => Err(m),
                    None => {
                        let question = match get_spec(es, "question"@) {
                            Some(q) => ruby_strip_spec(to_s_spec(q, f)),
                            None => Seq::empty(),
                        };
                        let description = match get_spec(es, "description"@) {
                            Some(d) => to_s_spec(d, f),
                            None => question,
                        };
                        let criteria = match get_spec(es, "criteria"@) {
                            None => Ok(None),
                            Some(ValueV::Null) => Ok(None),
                            Some(ValueV::Hash(cps)) => Ok(Some(criteria_spec(cps, f))),
                            Some(_) => Err(()),
                        };
                        let threshold = threshold_spec(get_spec(es, "threshold"@), f);
                        let paths = match get_spec(es, "paths"@) {
                            Some(p) => string_list_spec(Some(p), f),
                            None => default_paths,
                        };
                        let exclude = default_exclude + string_list_spec(get_spec(es, "exclude"@), f);
                        let offense_when = get_spec(es, "offense_when"@);
                        if question.len() == 0 {
                            Err(rule_message(id, "`question` is required"@))
                        } else if criteria is Err {
                            Err(rule_message(id, "`criteria` must be a map with `true` and `false` keys"@))
                        } else if threshold is Err {
                            Err(rule_message(id, "`threshold` must be a number between 0 and 1"@))
                        } else if offense_when is Some && !(offense_when->0 is Bool) {
                            Err(rule_message(id, "`offense_when` must be true or false"@))
                        } else {
                            Ok(
                                RuleV {
                                    id,
                                    description,
                                    question,
                                    criteria: criteria->Ok_0,
                                    threshold: threshold->Ok_0,
                                    offense_when: match offense_when {
                                        Some(ValueV::Bool(b)) => b,
                                        _ => true,
                                    },
                                    paths: globs_of(paths),
                                    exclude: globs_of(exclude),
                                },
                            )
                        }
                    },
                }
            },
            _ => Err(rule_message(id, "expected a map of attributes, got "@ + inspect_spec(attrs, f))),
        }
    }
}

/// The rules of the `rules:` map, in order, or the first error.
pub open spec fn rules_spec(
    rs: Seq<(ValueV, ValueV)>,
    default_paths: Seq<Seq<char>>,
    default_exclude: Seq<Seq<char>>,
    f: Seq<FloatFact>,
) -> Result<Seq<RuleV>, Seq<char>>
    decreases rs.len(),
{
    if rs.len() == 0 {
        Ok(Seq::empty())
    } else {
        match rules_spec(rs.drop_last(), default_paths, default_exclude, f) {
            Err(m) => Err(m),
            Ok(done) => match rule_spec(to_s_spec(rs.last().0, f), rs.last().1, default_paths, default_exclude, f) {
                Err(m) => Err(m),
                Ok(r) => Ok(done.push(r)),
            },
        }
    }
}

pub struct ConfigV {
    pub root: Seq<char>,
    pub max_file_size: int,
    pub rules: Seq<RuleV>,
}

/// The config a YAML document describes, or the error it is refused with.
pub open spec fn from_yaml_spec(data: ValueV, root: Seq<char>, f: Seq<FloatFact>) -> Result<ConfigV, Seq<char>> {
    let entries = match data {
        ValueV::Null => Some(Seq::empty()),
        ValueV::Bool(b) => if b { None } else { Some(Seq::empty()) },
        ValueV::Hash(ps) => Some(string_keys_spec(ps, f)),
        _ => None,
    };
    match entries {
        None => Err("config must be a map, got "@ + class_name_spec(data)),
        Some(es) => match check_keys_spec(es, config_keys(), "config"@) {
            Some(m) => Err(m),
            None => {
                let paths = string_list_spec(get_spec(es, "paths"@), f);
                let exclude = string_list_spec(get_spec(es, "exclude"@), f);
                let size = match get_spec(es, "max_file_size"@) {
                    None => Some(100000int),
                    Some(ValueV::Int(n)) => if n > 0 { Some(n) } else { None },
                    _ => None,
                };
                if size is None {
                    Err("`max_file_size` must be a positive integer of bytes"@)
                } else {
                    match get_spec(es, "rules"@) {
                        Some(ValueV::Hash(rs)) => if rs.len() == 0 {
                            Err("`rules` is empty: nothing to lint"@)
                        } else {
                            match rules_spec(rs, paths, exclude, f) {
                                Err(m) => Err(m),
                                Ok(rules) => Ok(ConfigV { root, max_file_size: size->0, rules }),
                            }
                        },
                        _ => Err("`rules` must be a map of rule id => attributes"@),
                    }
                }
            },
        },
    }
}

/// A rule applies to a path that no exclude glob matches, and that one of its
/// globs matches, if it has any.
pub open spec fn applies_spec(r: RuleV, path: Seq<char>) -> bool {
    &&& !(exists|i: int| 0 <= i < r.exclude.len() && glob_matches(#[trigger] r.exclude[i], path))
    &&& (r.paths.len() == 0 || exists|i: int| 0 <= i < r.paths.len() && glob_matches(#[trigger] r.paths[i], path))
}

/// Some pattern of the list matches the path.
pub open spec fn any_matches(patterns: Seq<Seq<char>>, path: Seq<char>) -> bool {
    exists|i: int| 0 <= i < patterns.len() && glob_matches(glob_alternatives(#[trigger] patterns[i]), path)
}

/// A rule applies to a file exactly when no exclude matches it, the
/// config's or the rule's own, and either it has no paths at all or one of
/// its paths matches. The rule's own `paths` replaces the config's whenever
/// the key is there, even null or empty (then every file not excluded).
pub proof fn law_when_a_rule_applies(
    id: Seq<char>,
    attrs: Seq<(ValueV, ValueV)>,
    default_paths: Seq<Seq<char>>,
    default_exclude: Seq<Seq<char>>,
    f: Seq<FloatFact>,
    path: Seq<char>,
)
    requires
        rule_spec(id, ValueV::Hash(attrs), default_paths, default_exclude, f) is Ok,
    ensures
        ({
            let r = rule_spec(id, ValueV::Hash(attrs), default_paths, default_exclude, f)->Ok_0;
            let es = string_keys_spec(attrs, f);
            let paths = match get_spec(es, "paths"@) {
                Some(p) => string_list_spec(Some(p), f),
                None => default_paths,
            };
            let exclude = default_exclude + string_list_spec(get_spec(es, "exclude"@), f);
            &&& applies_spec(r, path) == (!any_matches(exclude, path) && (paths.len() == 0 || any_matches(paths, path)))
            &&& get_spec(es, "paths"@) == Some(ValueV::Null) ==> applies_spec(r, path) == !any_matches(exclude, path)
        }),
{
    let r = rule_spec(id, ValueV::Hash(attrs), default_paths, default_exclude, f)->Ok_0;
    let es = string_keys_spec(attrs, f);
    let paths = match get_spec(es, "paths"@) {
        Some(p) => string_list_spec(Some(p), f),
        None => default_paths,
    };
    let exclude = default_exclude + string_list_spec(get_spec(es, "exclude"@), f);
    assert(r.paths == globs_of(paths));
    assert(r.exclude == globs_of(exclude));
    if exists|i: int| 0 <= i < r.exclude.len() && glob_matches(#[trigger] r.exclude[i], path) {
        let i = choose|i: int| 0 <= i < r.exclude.len() && glob_matches(#[trigger] r.exclude[i], path);
        assert(glob_matches(glob_alternatives(exclude[i]), path));
    }
    if any_matches(exclude, path) {
        let i = choose|i: int| 0 <= i < exclude.len() && glob_matches(glob_alternatives(#[trigger] exclude[i]), path);
        assert(glob_matches(r.exclude[i], path));
    }
    if exists|i: int| 0 <= i < r.paths.len() && glob_matches(#[trigger] r.paths[i], path) {
        let i = choose|i: int| 0 <= i < r.paths.len() && glob_matches(#[trigger] r.paths[i], path);
        assert(glob_matches(glob_alternatives(paths[i]), path));
    }
    if any_matches(paths, path) {
        let i = choose|i: int| 0 <= i < paths.len() && glob_matches(glob_alternatives(#[trigger] paths[i]), path);
        assert(glob_matches(r.paths[i], path));
    }
}

/// The positions of the rules that apply to `path`, in config order.
pub open spec fn rules_for_spec(rules: Seq<RuleV>, path: Seq<char>) -> Seq<int>
    decreases rules.len(),
{
    if rules.len() == 0 {
        Seq::empty()
    } else if applies_spec(rules.last(), path) {
        rules_for_spec(rules.drop_last(), path).push(rules.len() - 1)
    } else {
        rules_for_spec(rules.drop_last(), path)
    }
}


// ---------------------------------------------------------------------------
// The code: entries keyed by strings.
// ---------------------------------------------------------------------------

pub open spec fn entries_view(es: Seq<(String, Value)>) -> Seq<(Seq<char>, ValueV)> {
    es.map_values(|e: (String, Value)| (e.0@, e.1@))
}

pub open spec fn strings_view(v: Seq<String>) -> Seq<Seq<char>> {
    v.map_values(|s: String| s@)
}

pub open spec fn opt_view(v: Option<&Value>) -> Option<ValueV> {
    match v {
        Some(x) => Some(x@),
        None => None,
    }
}

fn entry_insert_exec(entries: &mut Vec<(String, Value)>, key: String, value: Value)
    ensures
        entries_view(final(entries)@) == entry_insert(entries_view(old(entries)@), key@, value@),
{
    let ghost es = entries_view(entries@);
    let mut i: usize = 0;
    while i < entries.len()
        invariant
            i <= entries.len(),
            es == entries_view(entries@),
            entries@ == old(entries)@,
            entry_find(es, key@, 0) == entry_find(es, key@, i as int),
        decreases entries.len() - i,
    {
        if str_eq(entries[i].0.as_str(), key.as_str()) {
            assert(es[i as int].0 == key@);
            assert(entry_find(es, key@, i as int) == Some(i as int));
            let k = entries[i].0.clone();
            entries.set(i, (k, value));
            assert(entries_view(entries@) =~= es.update(i as int, (es[i as int].0, value@)));
            return;
        }
        i += 1;
    }
    entries.push((key, value));
    assert(entries_view(entries@) =~= es.push((key@, value@)));
}

/// A map's entries with their keys as strings. Keys equal once stringified
/// collapse into one, keeping the first position and the last value.
pub fn string_keys(map: &Mapping, floats: &FloatFacts) -> (r: Vec<(String, Value)>)
    ensures
        entries_view(r@) == string_keys_spec(map@, floats.facts@),
{
    proof { lemma_pairs_view(map.0@); }
    let mut entries: Vec<(String, Value)> = Vec::new();
    let mut i: usize = 0;
    assert(entries_view(entries@) =~= Seq::<(Seq<char>, ValueV)>::empty());
    while i < map.0.len()
        invariant
            i <= map.0.len(),
            map@ == pairs_view(map.0@),
            pairs_view(map.0@).len() == map.0@.len(),
            forall|j: int|
                0 <= j < map.0@.len() ==> #[trigger] pairs_view(map.0@)[j] == (
                    value_view(map.0@[j].0),
                    value_view(map.0@[j].1),
                ),
            entries_view(entries@) == string_keys_spec(map@.subrange(0, i as int), floats.facts@),
        decreases map.0.len() - i,
    {
        let key = map.0[i].0.to_s(floats);
        let value = copy_value(&map.0[i].1);
        proof {
            assert(map@.subrange(0, i + 1).drop_last() == map@.subrange(0, i as int));
            assert(map@.subrange(0, i + 1).last() == map@[i as int]);
        }
        entry_insert_exec(&mut entries, key, value);
        i += 1;
    }
    assert(map@.subrange(0, map@.len() as int) == map@);
    entries
}

/// The value under a key.
pub fn get<'a>(entries: &'a Vec<(String, Value)>, key: &str) -> (r: Option<&'a Value>)
    ensures
        opt_view(r) == get_spec(entries_view(entries@), key@),
{
    let ghost es = entries_view(entries@);
    let mut i: usize = 0;
    while i < entries.len()
        invariant
            i <= entries.len(),
            es == entries_view(entries@),
            entry_find(es, key@, 0) == entry_find(es, key@, i as int),
        decreases entries.len() - i,
    {
        if str_eq(entries[i].0.as_str(), key) {
            return Some(&entries[i].1);
        }
        i += 1;
    }
    None
}

fn contains_chars(list: &Vec<Vec<char>>, k: &Vec<char>) -> (r: bool)
    ensures
        r == contains_str(deep(list@), k@),
{
    let mut i: usize = 0;
    while i < list.len()
        invariant
            i <= list.len(),
            forall|j: int| 0 <= j < i ==> deep(list@)[j] != k@,
        decreases list.len() - i,
    {
        let mut same = list[i].len() == k.len();
        let mut j: usize = 0;
        while same && j < k.len()
            invariant
                i < list.len(),
                j <= k.len(),
                same ==> list[i as int].len() == k.len(),
                same ==> forall|m: int| 0 <= m < j ==> list[i as int]@[m] == k@[m],
                !same ==> list[i as int]@ != k@,
            decreases k.len() - j,
        {
            if list[i][j] != k[j] {
                same = false;
            }
            j += 1;
        }
        if same {
            assert(list[i as int]@ =~= k@);
            assert(deep(list@)[i as int] == k@);
            return true;
        }
        i += 1;
    }
    false
}

fn config_key_list() -> (r: Vec<Vec<char>>)
    ensures
        deep(r@) == config_keys(),
{
    let mut r: Vec<Vec<char>> = Vec::new();
    r.push(chars_of("rules"));
    r.push(chars_of("paths"));
    r.push(chars_of("exclude"));
    r.push(chars_of("max_file_size"));
    assert(deep(r@) =~= config_keys());
    r
}

fn rule_key_list() -> (r: Vec<Vec<char>>)
    ensures
        deep(r@) == rule_keys(),
{
    let mut r: Vec<Vec<char>> = Vec::new();
    r.push(chars_of("question"));
    r.push(chars_of("description"));
    r.push(chars_of("criteria"));
    r.push(chars_of("threshold"));
    r.push(chars_of("paths"));
    r.push(chars_of("exclude"));
    r.push(chars_of("offense_when"));
    assert(deep(r@) =~= rule_keys());
    r
}

/// The error for keys that are not allowed, if there are any.
fn check_keys(entries: &Vec<(String, Value)>, allowed: &Vec<Vec<char>>, context: &Vec<char>) -> (r: Option<Error>)
    ensures
        match r {
            Some(e) => check_keys_spec(entries_view(entries@), deep(allowed@), context@) == Some(e@),
            None => check_keys_spec(entries_view(entries@), deep(allowed@), context@).is_none(),
        },
{
    let ghost es = entries_view(entries@);
    let mut unknown: Vec<Vec<char>> = Vec::new();
    let mut i: usize = 0;
    while i < entries.len()
        invariant
            i <= entries.len(),
            es == entries_view(entries@),
            deep(unknown@) == unknown_keys(es.subrange(0, i as int), deep(allowed@)),
        decreases entries.len() - i,
    {
        let k = chars_of(entries[i].0.as_str());
        proof {
            assert(es.subrange(0, i + 1).drop_last() == es.subrange(0, i as int));
            assert(es.subrange(0, i + 1).last().0 == k@);
        }
        if !contains_chars(allowed, &k) {
            unknown.push(k);
            assert(deep(unknown@) =~= unknown_keys(es.subrange(0, i + 1), deep(allowed@)));
        }
        i += 1;
    }
    assert(es.subrange(0, es.len() as int) == es);
    if unknown.len() == 0 {
        return None;
    }
    let mut m: Vec<char> = Vec::new();
    extend(&mut m, context.as_slice());
    append(&mut m, ": unknown key(s) ");
    push_join(&mut m, &unknown, ", ");
    append(&mut m, " (expected ");
    push_join(&mut m, allowed, ", ");
    append(&mut m, ")");
    Some(Error::new(string_of(m.as_slice())))
}

/// Ruby's `Array(value).map(&:to_s)`: nothing, one value, or a list of them.
pub fn string_list(value: Option<&Value>, floats: &FloatFacts) -> (r: Vec<String>)
    ensures
        strings_view(r@) == string_list_spec(opt_view(value), floats.facts@),
{
    let ghost f = floats.facts@;
    let mut out: Vec<String> = Vec::new();
    match value {
        None => {
            assert(strings_view(out@) =~= Seq::<Seq<char>>::empty());
        },
        Some(Value::Null) => {
            assert(strings_view(out@) =~= Seq::<Seq<char>>::empty());
        },
        Some(Value::Array(items)) => {
            proof { crate::yaml::lemma_values_view(items@); }
            let mut i: usize = 0;
            while i < items.len()
                invariant
                    i <= items.len(),
                    f == floats.facts@,
                    crate::yaml::values_view(items@).len() == items@.len(),
                    forall|j: int| 0 <= j < items@.len() ==> #[trigger] crate::yaml::values_view(items@)[j] == value_view(items@[j]),
                    out@.len() == i,
                    forall|j: int| 0 <= j < i ==> #[trigger] out@[j]@ == to_s_spec(crate::yaml::values_view(items@)[j], f),
                decreases items.len() - i,
            {
                let t = items[i].to_s(floats);
                out.push(t);
                i += 1;
            }
            assert(strings_view(out@) =~= string_list_spec(opt_view(value), f));
        },
        Some(Value::Hash(m)) => {
            proof { lemma_pairs_view(m.0@); }
            let mut i: usize = 0;
            while i < m.0.len()
                invariant
                    i <= m.0.len(),
                    f == floats.facts@,
                    pairs_view(m.0@).len() == m.0@.len(),
                    forall|j: int|
                        0 <= j < m.0@.len() ==> #[trigger] pairs_view(m.0@)[j] == (
                            value_view(m.0@[j].0),
                            value_view(m.0@[j].1),
                        ),
                    out@.len() == i,
                    forall|j: int| 0 <= j < i ==> #[trigger] out@[j]@ == to_s_spec(
                        ValueV::Array(seq![pairs_view(m.0@)[j].0, pairs_view(m.0@)[j].1]),
                        f,
                    ),
                decreases m.0.len() - i,
            {
                let mut pair: Vec<Value> = Vec::new();
                pair.push(copy_value(&m.0[i].0));
                pair.push(copy_value(&m.0[i].1));
                proof {
                    crate::yaml::lemma_values_view(pair@);
                    assert(crate::yaml::values_view(pair@) =~= seq![m.0@[i as int].0@, m.0@[i as int].1@]);
                }
                let v = Value::Array(pair);
                let t = v.to_s(floats);
                out.push(t);
                i += 1;
            }
            assert(strings_view(out@) =~= string_list_spec(opt_view(value), f));
        },
        Some(other) => {
            let t = other.to_s(floats);
            out.push(t);
            assert(strings_view(out@) =~= seq![to_s_spec(other@, f)]);
        },
    }
    out
}

fn is_space_char(c: char) -> (r: bool)
    ensures
        r == is_space(c),
{
    c == ' ' || c == '\t' || c == '\n' || c == '\x0B' || c == '\x0C' || c == '\r'
}

/// Ruby's `String#strip`, which only knows ASCII whitespace (and trailing NULs).
pub fn ruby_strip(text: &String) -> (r: String)
    ensures
        r@ == ruby_strip_spec(text@),
{
    let c = chars_of(text.as_str());
    assert(c@.subrange(0, c@.len() as int) == c@);
    let mut a: usize = 0;
    while a < c.len() && is_space_char(c[a])
        invariant
            a <= c.len(),
            strip_start(c@) == strip_start(c@.subrange(a as int, c@.len() as int)),
        decreases c.len() - a,
    {
        assert(c@.subrange(a as int, c@.len() as int).subrange(1, c@.len() - a) == c@.subrange(a + 1, c@.len() as int));
        a += 1;
    }
    assert(c@.subrange(0, c@.len() as int) == c@);
    let mut b: usize = c.len();
    while b > a && (is_space_char(c[b - 1]) || c[b - 1] == '\0')
        invariant
            a <= b <= c.len(),
            strip_start(c@) == c@.subrange(a as int, c@.len() as int),
            strip_end(strip_start(c@)) == strip_end(c@.subrange(a as int, b as int)),
        decreases b - a,
    {
        assert(c@.subrange(a as int, b as int).drop_last() == c@.subrange(a as int, b - 1));
        b -= 1;
    }
    let mut r: Vec<char> = Vec::new();
    crate::text::push_range(&mut r, c.as_slice(), a, b);
    string_of(r.as_slice())
}


// ---------------------------------------------------------------------------
// The code: rules.
// ---------------------------------------------------------------------------

/// One entry of the `rules:` map.
///
/// A rule is a noul question, asked against every file whose path matches its
/// globs. The file is an offense when the answer equals `offense_when` (true by
/// default, so questions are phrased to describe the offense: "Does this file
/// call sleep?").
#[derive(Debug)]
pub struct Rule {
    pub id: String,
    pub description: String,
    pub question: String,
    pub criteria: Option<IndexMap<String, String>>,
    /// The threshold above which the answer counts as true, as written.
    pub threshold: Option<FloatLit>,
    pub offense_when: bool,
    paths: Vec<Glob>,
    exclude: Vec<Glob>,
}

impl View for Rule {
    type V = RuleV;

    closed spec fn view(&self) -> RuleV {
        RuleV {
            id: self.id@,
            description: self.description@,
            question: self.question@,
            criteria: match self.criteria {
                Some(m) => Some(string_entries(m)),
                None => None,
            },
            threshold: match self.threshold {
                Some(t) => Some(t.text@),
                None => None,
            },
            offense_when: self.offense_when,
            paths: self.paths@.map_values(|g: Glob| g@),
            exclude: self.exclude@.map_values(|g: Glob| g@),
        }
    }
}

fn append_strings(dst: &mut Vec<String>, src: &Vec<String>)
    ensures
        strings_view(final(dst)@) == strings_view(old(dst)@) + strings_view(src@),
{
    let ghost start = dst@;
    let mut i: usize = 0;
    while i < src.len()
        invariant
            i <= src.len(),
            dst@.len() == start.len() + i,
            forall|j: int| 0 <= j < start.len() ==> #[trigger] dst@[j]@ == start[j]@,
            forall|j: int| 0 <= j < i ==> #[trigger] dst@[start.len() + j]@ == src@[j]@,
        decreases src.len() - i,
    {
        dst.push(src[i].clone());
        i += 1;
    }
    let ghost want = strings_view(start) + strings_view(src@);
    assert forall|j: int| 0 <= j < dst@.len() implies strings_view(dst@)[j] == want[j] by {
        if j >= start.len() {
            assert(dst@[start.len() + (j - start.len())]@ == src@[j - start.len()]@);
        }
    }
    assert(strings_view(dst@) =~= want);
}

fn rule_error(id: &str, message: &str) -> (e: Error)
    ensures
        e@ == rule_message(id@, message@),
{
    let mut m = chars_of("rule ");
    append(&mut m, id);
    append(&mut m, ": ");
    append(&mut m, message);
    Error::new(string_of(m.as_slice()))
}

fn globs(patterns: &Vec<String>) -> (r: Vec<Glob>)
    ensures
        r@.map_values(|g: Glob| g@) == globs_of(strings_view(patterns@)),
{
    let mut out: Vec<Glob> = Vec::new();
    let mut i: usize = 0;
    while i < patterns.len()
        invariant
            i <= patterns.len(),
            out@.len() == i,
            forall|j: int| 0 <= j < i ==> #[trigger] out@[j]@ == glob_alternatives(patterns@[j]@),
        decreases patterns.len() - i,
    {
        out.push(Glob::new(patterns[i].as_str()));
        i += 1;
    }
    assert(out@.map_values(|g: Glob| g@) =~= globs_of(strings_view(patterns@)));
    out
}

fn criteria_map(m: &Mapping, floats: &FloatFacts) -> (r: IndexMap<String, String>)
    ensures
        string_entries(r) == criteria_spec(m@, floats.facts@),
{
    proof { lemma_pairs_view(m.0@); }
    let mut out = new_string_map();
    let mut i: usize = 0;
    while i < m.0.len()
        invariant
            i <= m.0.len(),
            m@ == pairs_view(m.0@),
            pairs_view(m.0@).len() == m.0@.len(),
            forall|j: int|
                0 <= j < m.0@.len() ==> #[trigger] pairs_view(m.0@)[j] == (
                    value_view(m.0@[j].0),
                    value_view(m.0@[j].1),
                ),
            string_entries(out) == criteria_spec(m@.subrange(0, i as int), floats.facts@),
        decreases m.0.len() - i,
    {
        let k = m.0[i].0.to_s(floats);
        let v = m.0[i].1.to_s(floats);
        proof {
            assert(m@.subrange(0, i + 1).drop_last() == m@.subrange(0, i as int));
            assert(m@.subrange(0, i + 1).last() == m@[i as int]);
        }
        string_map_insert(&mut out, k, v);
        i += 1;
    }
    assert(m@.subrange(0, m@.len() as int) == m@);
    out
}

fn valid_id_exec(id: &str) -> (r: bool)
    ensures
        r == valid_id(id@),
{
    let c = chars_of(id);
    if c.len() == 0 || !('a' <= c[0] && c[0] <= 'z') {
        return false;
    }
    let mut i: usize = 0;
    while i < c.len()
        invariant
            i <= c.len(),
            c@ == id@,
            forall|j: int| 0 <= j < i ==> is_id_char(#[trigger] c@[j]),
        decreases c.len() - i,
    {
        let x = c[i];
        if !(('a' <= x && x <= 'z') || ('0' <= x && x <= '9') || x == '_') {
            return false;
        }
        i += 1;
    }
    true
}

impl Rule {
    /// One entry of the `rules:` map, as [`rule_spec`] says.
    pub fn new(
        id: &str,
        attrs: &Value,
        default_paths: &Vec<String>,
        default_exclude: &Vec<String>,
        floats: &FloatFacts,
    ) -> (r: Result<Rule, Error>)
        ensures
            match r {
                Ok(rule) => rule_spec(id@, attrs@, strings_view(default_paths@), strings_view(default_exclude@), floats.facts@) == Ok::<RuleV, Seq<char>>(rule@),
                Err(e) => rule_spec(id@, attrs@, strings_view(default_paths@), strings_view(default_exclude@), floats.facts@) == Err::<RuleV, Seq<char>>(e@),
            },
    {
        let ghost f = floats.facts@;
        if !valid_id_exec(id) {
            let mut m = chars_of("invalid rule id ");
            let id_string = string_of(chars_of(id).as_slice());
            push_inspect_str(&mut m, &id_string);
            append(&mut m, ": use snake_case (letters, digits, underscores)");
            return Err(Error::new(string_of(m.as_slice())));
        }
        let map = match attrs {
            Value::Hash(map) => map,
            _ => {
                let mut m = chars_of("expected a map of attributes, got ");
                push_inspect(attrs, floats, &mut m);
                let message = string_of(m.as_slice());
                return Err(rule_error(id, message.as_str()));
            },
        };
        let entries = string_keys(map, floats);
        let ghost es = entries_view(entries@);
        let mut context = chars_of("rule ");
        append(&mut context, id);
        let allowed = rule_key_list();
        match check_keys(&entries, &allowed, &context) {
            Some(e) => return Err(e),
            None => {},
        }
        let question = match get(&entries, "question") {
            Some(q) => ruby_strip(&q.to_s(floats)),
            None => string_of(Vec::<char>::new().as_slice()),
        };
        if question.as_str().unicode_len() == 0 {
            return Err(rule_error(id, "`question` is required"));
        }
        let description = match get(&entries, "description") {
            Some(d) => d.to_s(floats),
            None => question.clone(),
        };
        let criteria = match get(&entries, "criteria") {
            None => None,
            Some(Value::Null) => None,
            Some(Value::Hash(c)) => Some(criteria_map(c, floats)),
            Some(_) => {
                return Err(rule_error(id, "`criteria` must be a map with `true` and `false` keys"));
            },
        };
        let threshold = match get(&entries, "threshold") {
            None => None,
            Some(Value::Null) => None,
            Some(Value::Int(t)) => {
                if 0 <= *t && *t <= 1 {
                    let mut text: Vec<char> = Vec::new();
                    push_int(&mut text, *t);
                    Some(FloatLit { text: string_of(text.as_slice()) })
                } else {
                    return Err(rule_error(id, "`threshold` must be a number between 0 and 1"));
                }
            },
            Some(Value::Float(t)) => {
                if floats.in_unit(&t.text) {
                    Some(FloatLit { text: t.text.clone() })
                } else {
                    return Err(rule_error(id, "`threshold` must be a number between 0 and 1"));
                }
            },
            Some(_) => {
                return Err(rule_error(id, "`threshold` must be a number between 0 and 1"));
            },
        };
        let paths = match get(&entries, "paths") {
            Some(p) => string_list(Some(p), floats),
            None => {
                let mut copy: Vec<String> = Vec::new();
                append_strings(&mut copy, default_paths);
                copy
            },
        };
        let mut exclude: Vec<String> = Vec::new();
        append_strings(&mut exclude, default_exclude);
        let extra = string_list(get(&entries, "exclude"), floats);
        append_strings(&mut exclude, &extra);
        let offense_when = match get(&entries, "offense_when") {
            None => true,
            Some(Value::Bool(b)) => *b,
            Some(_) => {
                return Err(rule_error(id, "`offense_when` must be true or false"));
            },
        };
        let path_globs = globs(&paths);
        let exclude_globs = globs(&exclude);
        let rule = Rule {
            id: string_of(chars_of(id).as_slice()),
            description,
            question,
            criteria,
            threshold,
            offense_when,
            paths: path_globs,
            exclude: exclude_globs,
        };
        assert(rule@.paths =~= globs_of(strings_view(paths@)));
        assert(rule@.exclude =~= globs_of(strings_view(exclude@)));
        proof {
            let dp = strings_view(default_paths@);
            let de = strings_view(default_exclude@);
            assert(rule@.id == id@);
            assert(valid_id(id@));
            assert(check_keys_spec(es, rule_keys(), "rule "@ + id@).is_none());
            assert(question@ == match get_spec(es, "question"@) {
                Some(q) => ruby_strip_spec(to_s_spec(q, f)),
                None => Seq::empty(),
            });
            assert(description@ == match get_spec(es, "description"@) {
                Some(d) => to_s_spec(d, f),
                None => question@,
            });
            assert(strings_view(paths@) == match get_spec(es, "paths"@) {
                Some(p) => string_list_spec(Some(p), f),
                None => dp,
            });
            assert(strings_view(exclude@) == de + string_list_spec(get_spec(es, "exclude"@), f));
        }
        Ok(rule)
    }

    pub fn id(&self) -> (r: &str)
        ensures
            r@ == self@.id,
    {
        self.id.as_str()
    }

    pub fn description(&self) -> (r: &str)
        ensures
            r@ == self@.description,
    {
        self.description.as_str()
    }

    /// Whether the rule applies to a repository-relative path.
    pub fn applies_to(&self, path: &str) -> (r: bool)
        ensures
            r == applies_spec(self@, path@),
    {
        if matches_any(self.exclude.as_slice(), path) {
            assert(self@.exclude[choose|i: int| 0 <= i < self.exclude@.len() && glob_matches(#[trigger] self.exclude@[i]@, path@)] == self.exclude@[choose|i: int| 0 <= i < self.exclude@.len() && glob_matches(#[trigger] self.exclude@[i]@, path@)]@);
            return false;
        }
        assert(self@.exclude.len() == self.exclude@.len());
        assert forall|i: int| 0 <= i < self@.exclude.len() implies !glob_matches(#[trigger] self@.exclude[i], path@) by {
            assert(self@.exclude[i] == self.exclude@[i]@);
        }
        if self.paths.len() == 0 {
            return true;
        }
        let m = matches_any(self.paths.as_slice(), path);
        proof {
            if m {
                let i = choose|i: int| 0 <= i < self.paths@.len() && glob_matches(#[trigger] self.paths@[i]@, path@);
                assert(self@.paths[i] == self.paths@[i]@);
            } else {
                assert forall|i: int| 0 <= i < self@.paths.len() implies !glob_matches(#[trigger] self@.paths[i], path@) by {
                    assert(self@.paths[i] == self.paths@[i]@);
                }
            }
        }
        m
    }

    /// Whether an answer makes the file an offense: `result` is whether the
    /// model's probability is above the rule's threshold.
    pub fn is_offense(&self, result: bool) -> (r: bool)
        ensures
            r == (result == self@.offense_when),
    {
        result == self.offense_when
    }
}


// ---------------------------------------------------------------------------
// The code: the config.
// ---------------------------------------------------------------------------

#[derive(Debug)]
pub struct Config {
    /// The directory holding the config file.
    pub root: String,
    pub max_file_size: u64,
    pub rules: Vec<Rule>,
}

impl View for Config {
    type V = ConfigV;

    open spec fn view(&self) -> ConfigV {
        ConfigV {
            root: self.root@,
            max_file_size: self.max_file_size as int,
            rules: self.rules@.map_values(|r: Rule| r@),
        }
    }
}

fn rules_from(
    rs: &Mapping,
    default_paths: &Vec<String>,
    default_exclude: &Vec<String>,
    floats: &FloatFacts,
) -> (r: Result<Vec<Rule>, Error>)
    ensures
        match r {
            Ok(rules) => rules_spec(rs@, strings_view(default_paths@), strings_view(default_exclude@), floats.facts@) == Ok::<Seq<RuleV>, Seq<char>>(rules@.map_values(|x: Rule| x@)),
            Err(e) => rules_spec(rs@, strings_view(default_paths@), strings_view(default_exclude@), floats.facts@) == Err::<Seq<RuleV>, Seq<char>>(e@),
        },
{
    proof { lemma_pairs_view(rs.0@); }
    let ghost dp = strings_view(default_paths@);
    let ghost de = strings_view(default_exclude@);
    let ghost f = floats.facts@;
    let mut rules: Vec<Rule> = Vec::new();
    let mut i: usize = 0;
    assert(rules@.map_values(|x: Rule| x@) =~= Seq::<RuleV>::empty());
    while i < rs.0.len()
        invariant
            i <= rs.0.len(),
            dp == strings_view(default_paths@),
            de == strings_view(default_exclude@),
            f == floats.facts@,
            rs@ == pairs_view(rs.0@),
            pairs_view(rs.0@).len() == rs.0@.len(),
            forall|j: int|
                0 <= j < rs.0@.len() ==> #[trigger] pairs_view(rs.0@)[j] == (
                    value_view(rs.0@[j].0),
                    value_view(rs.0@[j].1),
                ),
            rules_spec(rs@.subrange(0, i as int), dp, de, f) == Ok::<Seq<RuleV>, Seq<char>>(rules@.map_values(|x: Rule| x@)),
        decreases rs.0.len() - i,
    {
        proof {
            assert(rs@.subrange(0, i + 1).drop_last() == rs@.subrange(0, i as int));
            assert(rs@.subrange(0, i + 1).last() == rs@[i as int]);
        }
        let id = rs.0[i].0.to_s(floats);
        match Rule::new(id.as_str(), &rs.0[i].1, default_paths, default_exclude, floats) {
            Err(e) => {
                proof {
                    let pre = rs@.subrange(0, i + 1);
                    let whole = rs@;
                    lemma_rules_spec_err(whole, (i + 1) as int, dp, de, f);
                }
                return Err(e);
            },
            Ok(rule) => {
                let ghost before = rules@;
                rules.push(rule);
                assert(rules@.map_values(|x: Rule| x@) =~= before.map_values(|x: Rule| x@).push(rule@));
            },
        }
        i += 1;
    }
    assert(rs@.subrange(0, rs@.len() as int) == rs@);
    Ok(rules)
}

/// An error in the rules up to `i` is the error of all of them.
proof fn lemma_rules_spec_err(
    rs: Seq<(ValueV, ValueV)>,
    i: int,
    dp: Seq<Seq<char>>,
    de: Seq<Seq<char>>,
    f: Seq<FloatFact>,
)
    requires
        0 <= i <= rs.len(),
        rules_spec(rs.subrange(0, i), dp, de, f) is Err,
    ensures
        rules_spec(rs, dp, de, f) == rules_spec(rs.subrange(0, i), dp, de, f),
    decreases rs.len() - i,
{
    if i < rs.len() {
        assert(rs.subrange(0, i + 1).drop_last() == rs.subrange(0, i));
        lemma_rules_spec_err(rs, i + 1, dp, de, f);
    } else {
        assert(rs.subrange(0, i) == rs);
    }
}

impl Config {
    /// The config a YAML document describes, as [`from_yaml_spec`] says.
    /// `root` is the directory holding the config file.
    pub fn from_yaml(data: Value, root: String, floats: &FloatFacts) -> (r: Result<Config, Error>)
        ensures
            match r {
                Ok(c) => from_yaml_spec(data@, root@, floats.facts@) == Ok::<ConfigV, Seq<char>>(c@),
                Err(e) => from_yaml_spec(data@, root@, floats.facts@) == Err::<ConfigV, Seq<char>>(e@),
            },
    {
        let ghost f = floats.facts@;
        let entries: Vec<(String, Value)> = match &data {
            Value::Null => Vec::new(),
            Value::Bool(false) => Vec::new(),
            Value::Hash(map) => string_keys(map, floats),
            other => {
                let mut m = chars_of("config must be a map, got ");
                append(&mut m, other.class_name());
                return Err(Error::new(string_of(m.as_slice())));
            },
        };
        assert(entries_view(entries@) == match data@ {
            ValueV::Hash(ps) => string_keys_spec(ps, f),
            _ => Seq::<(Seq<char>, ValueV)>::empty(),
        });
        let allowed = config_key_list();
        let context = chars_of("config");
        match check_keys(&entries, &allowed, &context) {
            Some(e) => return Err(e),
            None => {},
        }
        let paths = string_list(get(&entries, "paths"), floats);
        let exclude = string_list(get(&entries, "exclude"), floats);
        let max_file_size: u64 = match get(&entries, "max_file_size") {
            None => DEFAULT_MAX_FILE_SIZE,
            Some(Value::Int(size)) => {
                if *size > 0 {
                    *size as u64
                } else {
                    return Err(Error::new(string_of(chars_of("`max_file_size` must be a positive integer of bytes").as_slice())));
                }
            },
            Some(_) => {
                return Err(Error::new(string_of(chars_of("`max_file_size` must be a positive integer of bytes").as_slice())));
            },
        };
        let rules = match get(&entries, "rules") {
            Some(Value::Hash(rs)) => {
                if rs.is_empty() {
                    return Err(Error::new(string_of(chars_of("`rules` is empty: nothing to lint").as_slice())));
                }
                match rules_from(rs, &paths, &exclude, floats) {
                    Ok(rules) => rules,
                    Err(e) => return Err(e),
                }
            },
            _ => {
                return Err(Error::new(string_of(chars_of("`rules` must be a map of rule id => attributes").as_slice())));
            },
        };
        Ok(Config { root, max_file_size, rules })
    }

    /// The rules that apply to a repository-relative path, in config order.
    pub fn rules_for(&self, path: &str) -> (r: Vec<&Rule>)
        ensures
            r@.len() == rules_for_spec(self@.rules, path@).len(),
            forall|i: int| 0 <= i < r@.len() ==> #[trigger] r@[i]@ == self@.rules[rules_for_spec(self@.rules, path@)[i]],
    {
        let ghost rules = self@.rules;
        let mut out: Vec<&Rule> = Vec::new();
        let mut i: usize = 0;
        while i < self.rules.len()
            invariant
                i <= self.rules.len(),
                rules == self@.rules,
                rules.len() == self.rules@.len(),
                forall|j: int| 0 <= j < self.rules@.len() ==> #[trigger] rules[j] == self.rules@[j]@,
                out@.len() == rules_for_spec(rules.subrange(0, i as int), path@).len(),
                forall|k: int| 0 <= k < out@.len() ==> 0 <= #[trigger] rules_for_spec(rules.subrange(0, i as int), path@)[k] < i,
                forall|k: int| 0 <= k < out@.len() ==> #[trigger] out@[k]@ == rules[rules_for_spec(rules.subrange(0, i as int), path@)[k]],
            decreases self.rules.len() - i,
        {
            let ghost pre = rules.subrange(0, i as int);
            let ghost next = rules.subrange(0, i + 1);
            assert(next.drop_last() == pre);
            assert(next.last() == rules[i as int]);
            if self.rules[i].applies_to(path) {
                out.push(&self.rules[i]);
            }
            assert forall|k: int| 0 <= k < out@.len() implies 0 <= #[trigger] rules_for_spec(next, path@)[k] < i + 1 by {}
            i += 1;
        }
        assert(rules.subrange(0, rules.len() as int) == rules);
        out
    }
}


/// The entries inserted one by one into a map that starts empty.
pub open spec fn reinsert(c: Seq<(Seq<char>, Seq<char>)>) -> Seq<(Seq<char>, Seq<char>)>
    decreases c.len(),
{
    if c.len() == 0 {
        Seq::empty()
    } else {
        str_insert(reinsert(c.drop_last()), c.last().0, c.last().1)
    }
}

/// The criteria a rule's noul carries: none unless the rule has some.
pub open spec fn noul_criteria(c: Option<Seq<(Seq<char>, Seq<char>)>>) -> Option<Seq<(Seq<char>, Seq<char>)>> {
    match c {
        Some(entries) => if entries.len() > 0 { Some(reinsert(entries)) } else { None },
        None => None,
    }
}

impl Rule {
    /// The question as it is sent to the model.
    pub fn to_noul(&self) -> (n: Noul)
        ensures
            n.instructions_spec() == self@.question,
            n.criteria_spec() == noul_criteria(self@.criteria),
            n.threshold_spec() == match self@.threshold {
                Some(t) => t,
                None => crate::jev::question::default_threshold(),
            },
    {
        let mut noul = Noul::new(self.question.clone());
        match &self.criteria {
            Some(criteria) => {
                let n = string_map_len(criteria);
                let mut i: usize = 0;
                while i < n
                    invariant
                        n == string_entries(*criteria).len(),
                        i <= n,
                        noul.instructions_spec() == self@.question,
                        noul.threshold_spec() == crate::jev::question::default_threshold(),
                        i == 0 ==> noul.criteria_spec().is_none(),
                        i > 0 ==> noul.criteria_spec() == Some(reinsert(string_entries(*criteria).subrange(0, i as int))),
                    decreases n - i,
                {
                    let (answer, meaning) = string_map_entry(criteria, i);
                    proof {
                        let c = string_entries(*criteria);
                        assert(c.subrange(0, i + 1).drop_last() == c.subrange(0, i as int));
                        assert(c.subrange(0, i + 1).last() == c[i as int]);
                        if i == 0 {
                            assert(c.subrange(0, 0).len() == 0);
                            assert(reinsert(c.subrange(0, 0)) == Seq::<(Seq<char>, Seq<char>)>::empty());
                        }
                    }
                    noul = noul.with_criterion(answer.clone(), meaning.clone());
                    i += 1;
                }
                proof {
                    assert(string_entries(*criteria).subrange(0, n as int) == string_entries(*criteria));
                }
            },
            None => {},
        }
        match &self.threshold {
            Some(t) => noul.with_threshold(FloatLit { text: t.text.clone() }),
            None => noul,
        }
    }
}


// ---------------------------------------------------------------------------
// Finding the config file.
// ---------------------------------------------------------------------------

/// The files a config may be in, nearest first: each name, in order, in the
/// directory and then in each of its parents, the way git finds `.git`.
pub open spec fn candidates_spec(dir: Seq<char>) -> Seq<Seq<char>> {
    let comps = crate::paths::components(dir);
    Seq::new(
        (crate::paths::ancestor_count(comps) * 4) as nat,
        |i: int| crate::paths::render(crate::paths::ancestor(comps, i / 4).push(config_filenames_spec()[i % 4])),
    )
}

fn config_name_list() -> (r: Vec<Vec<char>>)
    ensures
        crate::text::deep(r@) == config_filenames_spec(),
{
    let mut r: Vec<Vec<char>> = Vec::new();
    r.push(chars_of(".lintus.yml"));
    r.push(chars_of("lintus.yml"));
    r.push(chars_of(".lintus.yaml"));
    r.push(chars_of("lintus.yaml"));
    assert(crate::text::deep(r@) =~= config_filenames_spec());
    r
}

/// The files a config may be in, nearest first.
pub fn config_candidates(dir: &str) -> (r: Vec<String>)
    ensures
        r@.map_values(|s: String| s@) == candidates_spec(dir@),
{
    let comps = crate::paths::split(chars_of(dir).as_slice());
    let names = config_name_list();
    let ghost cv = crate::paths::components(dir@);
    let ancestors = crate::paths::ancestors(dir);
    let count: usize = ancestors.len();
    assert(crate::text::deep(names@).len() == names@.len());
    assert(count == crate::paths::ancestor_count(cv));
    let mut out: Vec<String> = Vec::new();
    let mut a: usize = 0;
    while a < count
        invariant
            a <= count,
            names@.len() == 4,
            count == crate::paths::ancestor_count(cv),
            count <= comps@.len() + 1,
            crate::text::deep(comps@) == cv,
            crate::text::deep(names@) == config_filenames_spec(),
            out@.len() == a * 4,
            forall|i: int| 0 <= i < out@.len() ==> (#[trigger] out@[i])@ == crate::paths::render(crate::paths::ancestor(cv, i / 4).push(config_filenames_spec()[i % 4])),
        decreases count - a,
    {
        let mut j: usize = 0;
        while j < 4
            invariant
                a < count,
                count <= comps@.len() + 1,
                j <= 4,
                names@.len() == 4,
                crate::text::deep(comps@) == cv,
                crate::text::deep(names@) == config_filenames_spec(),
                out@.len() == a * 4 + j,
                forall|i: int| 0 <= i < out@.len() ==> (#[trigger] out@[i])@ == crate::paths::render(crate::paths::ancestor(cv, i / 4).push(config_filenames_spec()[i % 4])),
            decreases 4 - j,
        {
            let keep = comps.len() - a;
            let mut parts: Vec<Vec<char>> = Vec::new();
            let mut k: usize = 0;
            while k < keep
                invariant
                    k <= keep <= comps.len(),
                    crate::text::deep(parts@) =~= crate::text::deep(comps@).subrange(0, k as int),
                decreases keep - k,
            {
                let x = crate::text::copy_chars(&comps[k]);
                proof { crate::text::lemma_deep_push(parts@, x); }
                parts.push(x);
                k += 1;
            }
            let x = crate::text::copy_chars(&names[j]);
            assert(names@[j as int]@ == crate::text::deep(names@)[j as int]);
            proof { crate::text::lemma_deep_push(parts@, x); }
            parts.push(x);
            let path = string_of(crate::paths::render_exec(&parts).as_slice());
            proof {
                let idx = a * 4 + j;
                assert(idx / 4 == a) by (nonlinear_arith) requires idx == a * 4 + j, j < 4;
                assert(idx % 4 == j) by (nonlinear_arith) requires idx == a * 4 + j, j < 4;
                assert(crate::text::deep(parts@) =~= crate::paths::ancestor(cv, a as int).push(config_filenames_spec()[j as int]));
            }
            out.push(path);
            j += 1;
        }
        a += 1;
    }
    assert(out@.map_values(|s: String| s@) =~= candidates_spec(dir@));
    out
}

pub fn config_not_found(path: &str) -> (e: Error)
    ensures
        e@ == "Config file not found: "@ + path@,
{
    let mut m = chars_of("Config file not found: ");
    append(&mut m, path);
    Error::new(string_of(m.as_slice()))
}

pub fn no_config_found(dir: &str) -> (e: Error)
    ensures
        e@ == "No config file found: looked for "@ + join(config_filenames_spec(), ", "@) + " in "@ + dir@
            + " and its parents"@,
{
    let mut m = chars_of("No config file found: looked for ");
    let names = config_name_list();
    push_join(&mut m, &names, ", ");
    append(&mut m, " in ");
    append(&mut m, dir);
    append(&mut m, " and its parents");
    Error::new(string_of(m.as_slice()))
}

pub fn invalid_yaml(path: &str, error: &str) -> (e: Error)
    ensures
        e@ == path@ + " is not valid YAML: "@ + error@,
{
    let mut m = chars_of(path);
    append(&mut m, " is not valid YAML: ");
    append(&mut m, error);
    Error::new(string_of(m.as_slice()))
}

} // verus!
