//! YAML values as `serde_norway` holds them.
//!
//! Frontmatter is parsed and printed by `serde_norway`. Its `Value` and
//! `Mapping` are kept as they are; the library reads and changes them through
//! the small trusted wrappers below, whose contracts speak of a value's
//! abstract content [`YamlV`]: scalars by their text, collections in order.

use vstd::prelude::*;

use serde_norway::{Mapping, Value};

verus! {

#[verifier::external_type_specification]
#[verifier::external_body]
pub struct ExValue(Value);

#[verifier::external_type_specification]
#[verifier::external_body]
pub struct ExMapping(Mapping);

/// Abstract content of a YAML node.
pub enum YamlV {
    Null,
    Bool(bool),
    /// A number, by the text `serde_norway` displays for it.
    Num(Seq<char>),
    Str(Seq<char>),
    Sequence(Seq<YamlV>),
    /// Entries in document order.
    Dict(Seq<(YamlV, YamlV)>),
    /// A `!tag`ged node, by the tag's displayed text.
    Tagged(Seq<char>, Box<YamlV>),
}

/// The outermost layer of a YAML node, as [`yaml_open`] reports it.
#[derive(Debug)]
pub enum YamlHead {
    Null,
    Bool(bool),
    Num(String),
    Str(String),
    Sequence,
    Dict,
    Tagged(String),
}

/// Name for the content of a `serde_norway::Value`.
pub uninterp spec fn yaml_model(v: Value) -> YamlV;

/// Name for the entries of a `serde_norway::Mapping`, in order.
pub uninterp spec fn mapping_model(m: Mapping) -> Seq<(YamlV, YamlV)>;

/// Name for what `serde_norway::from_str::<Value>` gives for a text: the
/// content, or the error's message.
pub uninterp spec fn spec_yaml_parse(text: Seq<char>) -> Result<YamlV, Seq<char>>;

/// Name for what `serde_norway::to_string` prints for a mapping with these
/// entries (`None` where it refuses).
pub uninterp spec fn spec_yaml_dump(entries: Seq<(YamlV, YamlV)>) -> Option<Seq<char>>;

pub open spec fn models(vs: Seq<Value>) -> Seq<YamlV> {
    vs.map_values(|v: Value| yaml_model(v))
}

/// No two entries share a key.
pub open spec fn keys_distinct(e: Seq<(YamlV, YamlV)>) -> bool {
    forall|i: int, j: int| 0 <= i < j < e.len() ==> e[i].0 != e[j].0
}

/// Position of the first entry whose key is the string `key`.
pub open spec fn key_index(e: Seq<(YamlV, YamlV)>, key: Seq<char>) -> Option<int>
    decreases e.len(),
{
    if e.len() == 0 {
        None
    } else if e[0].0 == YamlV::Str(key) {
        Some(0)
    } else {
        match key_index(e.drop_first(), key) {
            Some(i) => Some(i + 1),
            None => None,
        }
    }
}

/// The value stored under the string `key`.
pub open spec fn lookup(e: Seq<(YamlV, YamlV)>, key: Seq<char>) -> Option<YamlV> {
    match key_index(e, key) {
        Some(i) => Some(e[i].1),
        None => None,
    }
}

/// Entries after setting `key` to `v`: in place where the key is, else appended.
pub open spec fn upsert(e: Seq<(YamlV, YamlV)>, key: Seq<char>, v: YamlV) -> Seq<(YamlV, YamlV)> {
    match key_index(e, key) {
        Some(i) => e.update(i, (YamlV::Str(key), v)),
        None => e.push((YamlV::Str(key), v)),
    }
}

/// Entries after removing position `i` the way `Vec::swap_remove` does.
pub open spec fn swap_removed<A>(e: Seq<A>, i: int) -> Seq<A> {
    if i == e.len() - 1 {
        e.drop_last()
    } else {
        e.update(i, e.last()).drop_last()
    }
}

/// Entries after removing the string key `key`, if present.
pub open spec fn without(e: Seq<(YamlV, YamlV)>, key: Seq<char>) -> Seq<(YamlV, YamlV)> {
    match key_index(e, key) {
        Some(i) => swap_removed(e, i),
        None => e,
    }
}

pub proof fn lemma_key_index(e: Seq<(YamlV, YamlV)>, key: Seq<char>)
    ensures
        key_index(e, key) matches Some(i) ==> 0 <= i < e.len() && e[i].0 == YamlV::Str(key)
            && forall|j: int| 0 <= j < i ==> e[j].0 != YamlV::Str(key),
        key_index(e, key) is None ==> forall|j: int| 0 <= j < e.len() ==> e[j].0 != YamlV::Str(
            key,
        ),
    decreases e.len(),
{
    if e.len() > 0 {
        let t = e.drop_first();
        lemma_key_index(t, key);
        if e[0].0 != YamlV::Str(key) {
            assert forall|j: int| 1 <= j < e.len() implies e[j] == t[j - 1] by {}
            if let Some(i) = key_index(t, key) {
                assert forall|j: int| 0 <= j < i + 1 implies e[j].0 != YamlV::Str(key) by {
                    if j > 0 {
                        assert(e[j] == t[j - 1]);
                    }
                }
            } else {
                assert forall|j: int| 0 <= j < e.len() implies e[j].0 != YamlV::Str(key) by {
                    if j > 0 {
                        assert(e[j] == t[j - 1]);
                    }
                }
            }
        }
    }
}

/// With distinct keys, any entry carrying the key is the one `key_index` finds.
pub proof fn lemma_key_index_unique(e: Seq<(YamlV, YamlV)>, key: Seq<char>, j: int)
    requires
        keys_distinct(e),
        0 <= j < e.len(),
        e[j].0 == YamlV::Str(key),
    ensures
        key_index(e, key) == Some(j),
{
    lemma_key_index(e, key);
}

/// Removing a key from distinct-keyed entries leaves no entry with that key.
pub proof fn lemma_without_absent(e: Seq<(YamlV, YamlV)>, key: Seq<char>)
    requires
        keys_distinct(e),
    ensures
        key_index(without(e, key), key) is None,
        keys_distinct(without(e, key)),
{
    lemma_key_index(e, key);
    let w = without(e, key);
    lemma_key_index(w, key);
    if let Some(i) = key_index(e, key) {
        assert forall|j: int| 0 <= j < w.len() implies w[j].0 != YamlV::Str(key) by {
            if j == i {
                assert(w[j] == e.last());
            }
        }
        assert forall|a: int, b: int| 0 <= a < b < w.len() implies w[a].0 != w[b].0 by {
            if a == i {
                assert(w[a] == e.last());
            }
            if b == i {
                assert(w[b] == e.last());
            }
        }
    }
    lemma_key_index(w, key);
}

/// Setting a key keeps the keys distinct and makes the key read back the value.
pub proof fn lemma_upsert(e: Seq<(YamlV, YamlV)>, key: Seq<char>, v: YamlV)
    requires
        keys_distinct(e),
    ensures
        keys_distinct(upsert(e, key, v)),
        lookup(upsert(e, key, v), key) == Some(v),
{
    lemma_key_index(e, key);
    let u = upsert(e, key, v);
    match key_index(e, key) {
        Some(i) => {
            assert(u[i].0 == YamlV::Str(key));
            lemma_key_index_unique(u, key, i);
        },
        None => {
            lemma_key_index_unique(u, key, e.len() as int);
        },
    }
}

/// Setting a key leaves the value under every other string key unchanged.
pub proof fn lemma_upsert_other(e: Seq<(YamlV, YamlV)>, key: Seq<char>, v: YamlV, other: Seq<char>)
    requires
        keys_distinct(e),
        other != key,
    ensures
        lookup(upsert(e, key, v), other) == lookup(e, other),
{
    lemma_key_index(e, key);
    lemma_key_index(e, other);
    lemma_upsert(e, key, v);
    let u = upsert(e, key, v);
    lemma_key_index(u, other);
    if let Some(j) = key_index(e, other) {
        lemma_key_index_unique(u, other, j);
    }
}

/// Removing a key leaves the value under every other string key unchanged.
pub proof fn lemma_without_other(e: Seq<(YamlV, YamlV)>, key: Seq<char>, other: Seq<char>)
    requires
        keys_distinct(e),
        other != key,
    ensures
        lookup(without(e, key), other) == lookup(e, other),
{
    lemma_key_index(e, key);
    lemma_key_index(e, other);
    lemma_without_absent(e, key);
    let w = without(e, key);
    lemma_key_index(w, other);
    if let Some(i) = key_index(e, key) {
        if let Some(j) = key_index(e, other) {
            if j == e.len() - 1 {
                lemma_key_index_unique(w, other, i);
            } else {
                lemma_key_index_unique(w, other, j);
            }
        } else {
            assert forall|a: int| 0 <= a < w.len() implies w[a].0 != YamlV::Str(other) by {
                if a == i {
                    assert(w[a] == e.last());
                }
            }
            lemma_key_index(w, other);
        }
    }
}

/// Parse YAML text into a value (`serde_norway::from_str::<Value>`); an error
/// comes back as its message.
#[verifier::external_body]
pub(crate) fn yaml_load(text: &str) -> (r: Result<Value, String>)
    ensures
        match r {
            Ok(v) => spec_yaml_parse(text@) == Ok::<YamlV, Seq<char>>(yaml_model(v)),
            Err(e) => spec_yaml_parse(text@) == Err::<YamlV, Seq<char>>(e@),
        },
{
    serde_norway::from_str::<Value>(text).map_err(|e| e.to_string())
}

/// Print a mapping as YAML text (`serde_norway::to_string`); `None` where it
/// refuses.
#[verifier::external_body]
pub(crate) fn yaml_dump(m: &Mapping) -> (r: Option<String>)
    ensures
        match r {
            Some(s) => spec_yaml_dump(mapping_model(*m)) == Some(s@),
            None => spec_yaml_dump(mapping_model(*m)) is None,
        },
{
    serde_norway::to_string(m).ok()
}

/// Split a value into its outermost layer and its children, each cloned:
/// a sequence's items, a mapping's keys and values alternately, a tagged
/// node's inner value. Numbers come as their displayed text, tags likewise.
#[verifier::external_body]
pub(crate) fn yaml_open(v: &Value) -> (r: (YamlHead, Vec<Value>))
    ensures
        match r.0 {
            YamlHead::Null => yaml_model(*v) == YamlV::Null && r.1.len() == 0,
            YamlHead::Bool(b) => yaml_model(*v) == YamlV::Bool(b) && r.1.len() == 0,
            YamlHead::Num(s) => yaml_model(*v) == YamlV::Num(s@) && r.1.len() == 0,
            YamlHead::Str(s) => yaml_model(*v) == YamlV::Str(s@) && r.1.len() == 0,
            YamlHead::Sequence => yaml_model(*v) == YamlV::Sequence(models(r.1@)),
            YamlHead::Dict => yaml_model(*v) matches YamlV::Dict(e) && r.1.len() == 2
                * e.len() && forall|i: int|
                0 <= i < e.len() ==> #[trigger] e[i] == (yaml_model(r.1[2 * i]), yaml_model(
                    r.1[2 * i + 1],
                )),
            YamlHead::Tagged(t) => r.1.len() == 1 && yaml_model(*v) == YamlV::Tagged(
                t@,
                Box::new(yaml_model(r.1[0])),
            ),
        },
{
    match v {
        Value::Null => (YamlHead::Null, vec![]),
        Value::Bool(b) => (YamlHead::Bool(*b), vec![]),
        Value::Number(n) => (YamlHead::Num(n.to_string()), vec![]),
        Value::String(s) => (YamlHead::Str(s.clone()), vec![]),
        Value::Sequence(s) => (YamlHead::Sequence, s.clone()),
        Value::Mapping(m) => (YamlHead::Dict, m.iter().flat_map(|(k, x)| [k.clone(), x.clone()]).collect()),
        Value::Tagged(t) => (YamlHead::Tagged(t.tag.to_string()), vec![t.value.clone()]),
    }
}

/// The mapping inside a value, if the value is one.
#[verifier::external_body]
pub(crate) fn value_into_mapping(v: Value) -> (r: Option<Mapping>)
    ensures
        r is Some <==> yaml_model(v) is Dict,
        r matches Some(m) ==> yaml_model(v) == YamlV::Dict(mapping_model(m)) && keys_distinct(
            mapping_model(m),
        ),
{
    match v {
        Value::Mapping(m) => Some(m),
        _ => None,
    }
}

/// Cloning a mapping (`Mapping::clone`, an `IndexMap` clone) keeps its entries.
pub assume_specification[ <serde_norway::Mapping as std::clone::Clone>::clone ](
    m: &serde_norway::Mapping,
) -> (r: serde_norway::Mapping)
    ensures
        mapping_model(r) == mapping_model(*m),
;

/// An empty mapping (`Mapping::new`).
#[verifier::external_body]
pub(crate) fn mapping_new() -> (r: Mapping)
    ensures
        mapping_model(r) == Seq::<(YamlV, YamlV)>::empty(),
{
    Mapping::new()
}

/// The value under a string key (`Mapping::get`).
#[verifier::external_body]
pub(crate) fn mapping_get<'a>(m: &'a Mapping, key: &str) -> (r: Option<&'a Value>)
    ensures
        match key_index(mapping_model(*m), key@) {
            Some(i) => r matches Some(v) && yaml_model(*v) == mapping_model(*m)[i].1,
            None => r is None,
        },
{
    m.get(key)
}

/// Set a string key (`Mapping::insert`): an existing key keeps its place,
/// a new one goes last.
#[verifier::external_body]
pub(crate) fn mapping_insert(m: &mut Mapping, key: &str, v: Value)
    ensures
        mapping_model(*final(m)) == upsert(mapping_model(*old(m)), key@, yaml_model(v)),
        keys_distinct(mapping_model(*final(m))),
{
    m.insert(Value::String(key.to_owned()), v);
}

/// Remove a string key (`Mapping::remove`, which swaps the last entry into
/// the freed place).
#[verifier::external_body]
pub(crate) fn mapping_remove(m: &mut Mapping, key: &str)
    ensures
        mapping_model(*final(m)) == without(mapping_model(*old(m)), key@),
        keys_distinct(mapping_model(*final(m))),
{
    m.remove(key);
}

/// The keys of a mapping in order, cloned (`Mapping::keys`).
#[verifier::external_body]
pub(crate) fn mapping_keys(m: &Mapping) -> (r: Vec<Value>)
    ensures
        r.len() == mapping_model(*m).len(),
        forall|i: int| 0 <= i < r.len() ==> yaml_model(#[trigger] r[i]) == mapping_model(*m)[i].0,
{
    m.keys().cloned().collect()
}

/// A string value (`Value::String`).
#[verifier::external_body]
pub(crate) fn value_string(s: &str) -> (r: Value)
    ensures
        yaml_model(r) == YamlV::Str(s@),
{
    Value::String(s.to_owned())
}

/// A sequence of string values (`Value::Sequence`).
#[verifier::external_body]
pub(crate) fn value_strings(items: &[String]) -> (r: Value)
    ensures
        yaml_model(r) == YamlV::Sequence(items@.map_values(|s: String| YamlV::Str(s@))),
{
    Value::Sequence(items.iter().map(|s| Value::String(s.clone())).collect())
}

/// An unsigned integer value (`Value::from(u64)`); `serde_norway` displays
/// it in plain decimal.
#[verifier::external_body]
pub(crate) fn value_u64(n: u64) -> (r: Value)
    ensures
        yaml_model(r) == YamlV::Num(crate::text::dec(n as nat)),
{
    Value::from(n)
}

} // verus!
