//! The YAML reading and writing that note headers need.

use vstd::prelude::*;

verus! {

/// What a YAML document holds under one key.
#[derive(Debug)]
pub enum YamlField {
    /// The text is not a YAML document; the parser's message.
    Malformed(String),
    /// The document is empty or an explicit null.
    EmptyDocument,
    /// The document is something other than a mapping.
    NotMapping,
    /// The mapping has no such key.
    Missing,
    /// The key is there with a null value.
    Null,
    /// The key is there with a string value.
    Text(String),
    /// The key is there with a number; the number as `serde_yaml` displays
    /// it.
    Number(String),
    /// The key is there with a truth value.
    Bool(bool),
    /// The key is there with a sequence, a mapping or a tagged value.
    Other,
}

/// `YamlField` over mathematical strings.
pub enum YamlFieldView {
    Malformed(Seq<char>),
    EmptyDocument,
    NotMapping,
    Missing,
    Null,
    Text(Seq<char>),
    Number(Seq<char>),
    Bool(bool),
    Other,
}

impl View for YamlField {
    type V = YamlFieldView;

    open spec fn view(&self) -> YamlFieldView {
        match *self {
            YamlField::Malformed(m) => YamlFieldView::Malformed(m@),
            YamlField::EmptyDocument => YamlFieldView::EmptyDocument,
            YamlField::NotMapping => YamlFieldView::NotMapping,
            YamlField::Missing => YamlFieldView::Missing,
            YamlField::Null => YamlFieldView::Null,
            YamlField::Text(t) => YamlFieldView::Text(t@),
            YamlField::Number(n) => YamlFieldView::Number(n@),
            YamlField::Bool(b) => YamlFieldView::Bool(b),
            YamlField::Other => YamlFieldView::Other,
        }
    }
}

/// What `serde_yaml` finds under `key` when it reads `text` as a document.
pub uninterp spec fn yaml_field(text: Seq<char>, key: Seq<char>) -> YamlFieldView;

/// The text that `serde_yaml` writes for the mapping with these string
/// entries, in this order.
pub uninterp spec fn yaml_mapping_text(entries: Seq<(Seq<char>, Seq<char>)>) -> Seq<char>;

/// The entries of a list of string pairs, as mathematical strings.
pub open spec fn entry_views(entries: Seq<(String, String)>) -> Seq<(Seq<char>, Seq<char>)> {
    Seq::new(entries.len(), |i: int| (entries[i].0@, entries[i].1@))
}

/// Calls `serde_yaml::from_str` for a `serde_yaml::Value` and, where the
/// document is a mapping, `Mapping::get` with `key`. The contract names the
/// outcome; the body only tells the variants of `Value` apart, and hands on
/// the parser's message, a string, a number by its `to_string`, or a truth
/// value.
#[verifier::external_body]
pub(crate) fn read_yaml_field(text: &str, key: &str) -> (field: YamlField)
    ensures
        field@ == yaml_field(text@, key@),
{
    match serde_yaml::from_str::<serde_yaml::Value>(text) {
        Err(e) => YamlField::Malformed(e.to_string()),
        Ok(serde_yaml::Value::Null) => YamlField::EmptyDocument,
        Ok(serde_yaml::Value::Mapping(entries)) => match entries.get(key) {
            None => YamlField::Missing,
            Some(serde_yaml::Value::Null) => YamlField::Null,
            Some(serde_yaml::Value::String(t)) => YamlField::Text(t.clone()),
            Some(serde_yaml::Value::Number(n)) => YamlField::Number(n.to_string()),
            Some(serde_yaml::Value::Bool(b)) => YamlField::Bool(*b),
            Some(_) => YamlField::Other,
        },
        Ok(_) => YamlField::NotMapping,
    }
}

/// Whether `serde_yaml` reads `text` as a map with string keys: it does so
/// for a mapping and for a document without content, and not for a scalar
/// such as `null`.
pub uninterp spec fn yaml_reads_as_map(text: Seq<char>) -> bool;

/// Calls `serde_yaml::from_str` for a `BTreeMap<String, serde_yaml::Value>`.
/// The contract names whether the call succeeds.
#[verifier::external_body]
pub(crate) fn reads_as_yaml_map(text: &str) -> (r: bool)
    ensures
        r == yaml_reads_as_map(text@),
{
    serde_yaml::from_str::<std::collections::BTreeMap<String, serde_yaml::Value>>(text).is_ok()
}

/// Builds a `serde_yaml::Mapping` of string keys and string values with
/// `Mapping::insert` and calls `serde_yaml::to_string` on it. The contract
/// names the text; where `to_string` fails the text is empty.
#[verifier::external_body]
pub(crate) fn write_yaml_mapping(entries: &Vec<(String, String)>) -> (text: String)
    ensures
        text@ == yaml_mapping_text(entry_views(entries@)),
{
    let mut mapping = serde_yaml::Mapping::new();
    for (key, value) in entries {
        mapping.insert(
            serde_yaml::Value::String(key.clone()),
            serde_yaml::Value::String(value.clone()),
        );
    }
    serde_yaml::to_string(&mapping).unwrap_or_default()
}

} // verus!
