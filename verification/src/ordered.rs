//! Maps of strings that keep the order their keys were first inserted in,
//! held in indexmap's `IndexMap`.

use vstd::prelude::*;

use indexmap::IndexMap;

use crate::jev::question::Question;

verus! {

#[verifier::external_type_specification]
#[verifier::external_body]
#[verifier::reject_recursive_types(K)]
#[verifier::reject_recursive_types(V)]
#[verifier::reject_recursive_types(S)]
pub struct ExIndexMap<K, V, S>(IndexMap<K, V, S>);

/// The entries of a map of strings, in order.
pub uninterp spec fn string_entries(m: IndexMap<String, String>) -> Seq<(Seq<char>, Seq<char>)>;

/// The position of the first entry at or after `i` with key `k`.
pub open spec fn str_find(s: Seq<(Seq<char>, Seq<char>)>, k: Seq<char>, i: int) -> Option<int>
    decreases s.len() - i,
{
    if i < 0 || i >= s.len() {
        None
    } else if s[i].0 == k {
        Some(i)
    } else {
        str_find(s, k, i + 1)
    }
}

/// `IndexMap::insert`: an existing key keeps its place and takes the new
/// value; a new key goes last.
pub open spec fn str_insert(s: Seq<(Seq<char>, Seq<char>)>, k: Seq<char>, v: Seq<char>) -> Seq<
    (Seq<char>, Seq<char>),
> {
    match str_find(s, k, 0) {
        Some(i) => s.update(i, (s[i].0, v)),
        None => s.push((k, v)),
    }
}

/// `IndexMap::new`: a map with no entries.
#[verifier::external_body]
pub(crate) fn new_string_map() -> (m: IndexMap<String, String>)
    ensures
        string_entries(m) == Seq::<(Seq<char>, Seq<char>)>::empty(),
{
    IndexMap::new()
}

/// `IndexMap::insert`, as its documentation describes it: the key of an
/// existing entry stays in its place and its value is replaced, and a new
/// key is inserted last.
#[verifier::external_body]
pub(crate) fn string_map_insert(m: &mut IndexMap<String, String>, key: String, value: String)
    ensures
        string_entries(*final(m)) == str_insert(string_entries(*old(m)), key@, value@),
{
    m.insert(key, value);
}

/// `IndexMap::len`: the number of entries.
#[verifier::external_body]
pub(crate) fn string_map_len(m: &IndexMap<String, String>) -> (n: usize)
    ensures
        n == string_entries(*m).len(),
{
    m.len()
}

/// `IndexMap::get_index`: the entry at a position, which exists.
#[verifier::external_body]
pub(crate) fn string_map_entry(m: &IndexMap<String, String>, i: usize) -> (r: (&String, &String))
    requires
        i < string_entries(*m).len(),
    ensures
        r.0@ == string_entries(*m)[i as int].0,
        r.1@ == string_entries(*m)[i as int].1,
{
    m.get_index(i).unwrap()
}


/// The questions of a query by identifier, in order.
pub uninterp spec fn question_entries(m: IndexMap<String, Question>) -> Seq<(Seq<char>, Question)>;

/// The position of the question with identifier `k`, at or after `i`.
pub open spec fn question_find(s: Seq<(Seq<char>, Question)>, k: Seq<char>, i: int) -> Option<int>
    decreases s.len() - i,
{
    if i < 0 || i >= s.len() {
        None
    } else if s[i].0 == k {
        Some(i)
    } else {
        question_find(s, k, i + 1)
    }
}

/// `IndexMap::new`: a map with no questions.
#[verifier::external_body]
pub(crate) fn new_question_map() -> (m: IndexMap<String, Question>)
    ensures
        question_entries(m) == Seq::<(Seq<char>, Question)>::empty(),
{
    IndexMap::new()
}

/// `IndexMap::insert` of a key not yet in the map: it goes last.
#[verifier::external_body]
pub(crate) fn question_map_insert(m: &mut IndexMap<String, Question>, key: String, value: Question)
    requires
        question_find(question_entries(*old(m)), key@, 0).is_none(),
    ensures
        question_entries(*final(m)) == question_entries(*old(m)).push((key@, value)),
{
    m.insert(key, value);
}

/// `IndexMap::get_index_of`: the position of a key.
#[verifier::external_body]
pub(crate) fn question_map_find(m: &IndexMap<String, Question>, key: &str) -> (r: Option<usize>)
    ensures
        match r {
            Some(i) => question_find(question_entries(*m), key@, 0) == Some(i as int),
            None => question_find(question_entries(*m), key@, 0).is_none(),
        },
{
    m.get_index_of(key)
}

/// `IndexMap::len`: the number of questions.
#[verifier::external_body]
pub(crate) fn question_map_len(m: &IndexMap<String, Question>) -> (n: usize)
    ensures
        n == question_entries(*m).len(),
{
    m.len()
}

/// `IndexMap::get_index`: the question at a position, which exists.
#[verifier::external_body]
pub(crate) fn question_map_entry(m: &IndexMap<String, Question>, i: usize) -> (r: (&String, &Question))
    requires
        i < question_entries(*m).len(),
    ensures
        r.0@ == question_entries(*m)[i as int].0,
        *r.1 == question_entries(*m)[i as int].1,
{
    m.get_index(i).unwrap()
}

} // verus!
