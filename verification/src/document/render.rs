//! How YAML and JSON serializers write a value, and how a YAML reader reads
//! text back: named, not restated, and used by the verified rendering that
//! decides which of the writings a ledger gets.

use crate::chars::views;
use crate::document::yaml::produced;
use vstd::prelude::*;

verus! {

/// A row field's value: a string or a list of strings.
pub enum FieldValue {
    Text(String),
    List(Vec<String>),
}

/// A row field's value as a value.
pub enum FieldView {
    Text(Seq<char>),
    List(Seq<Seq<char>>),
}

impl View for FieldValue {
    type V = FieldView;

    open spec fn view(&self) -> FieldView {
        match self {
            FieldValue::Text(t) => FieldView::Text(t@),
            FieldValue::List(l) => FieldView::List(views(l@)),
        }
    }
}

/// What a serializer is handed: a string, a list of strings, or a mapping of
/// keys to field values in order.
pub enum Yaml {
    Text(String),
    List(Vec<String>),
    Mapping(Vec<(String, FieldValue)>),
}

/// A serializer's input as a value.
pub enum YamlView {
    Text(Seq<char>),
    List(Seq<Seq<char>>),
    Mapping(Seq<(Seq<char>, FieldView)>),
}

/// Mapping entries as values.
pub open spec fn entry_views(entries: Seq<(String, FieldValue)>) -> Seq<(Seq<char>, FieldView)> {
    entries.map_values(|e: (String, FieldValue)| (e.0@, e.1@))
}

impl View for Yaml {
    type V = YamlView;

    open spec fn view(&self) -> YamlView {
        match self {
            Yaml::Text(t) => YamlView::Text(t@),
            Yaml::List(l) => YamlView::List(views(l@)),
            Yaml::Mapping(m) => YamlView::Mapping(entry_views(m@)),
        }
    }
}

/// How `yaml_serde::to_string` writes a value.
pub uninterp spec fn yaml_rendering(value: YamlView) -> Result<Seq<char>, ()>;

/// How `serde_json::to_string` writes a value.
pub uninterp spec fn json_rendering(value: FieldView) -> Result<Seq<char>, ()>;

/// The strings `serde_yml::from_str` reads from a text as a list of strings,
/// when it reads one.
pub uninterp spec fn yml_string_list(text: Seq<char>) -> Option<Seq<Seq<char>>>;

/// Whether `serde_yml::from_str` reads a text as YAML at all.
pub uninterp spec fn yml_valid(text: Seq<char>) -> bool;

/// `yaml_serde::to_string`, on the value as `yaml_serde` would hold it: a
/// string, a list of strings, or a mapping in the given key order.
#[verifier::external_body]
pub(crate) fn yaml_text(value: &Yaml) -> (res: Result<String, ()>)
    ensures
        produced(res) == yaml_rendering(value@),
{
    let rendered = match value {
        Yaml::Text(t) => yaml_serde::to_string(t),
        Yaml::List(items) => yaml_serde::to_string(items),
        Yaml::Mapping(entries) => yaml_serde::to_string(&entries.iter().map(|(k, f)| (k.as_str().into(), match f {
            FieldValue::Text(t) => t.as_str().into(),
            FieldValue::List(l) => l.clone().into(),
        })).collect::<yaml_serde::Mapping>()),
    };
    rendered.map_err(|_| ())
}

/// `serde_json::to_string`, on a string or a list of strings.
#[verifier::external_body]
pub(crate) fn json_text(value: &FieldValue) -> (res: Result<String, ()>)
    ensures
        match res {
            Ok(t) => json_rendering(value@) == Ok::<Seq<char>, ()>(t@),
            Err(()) => json_rendering(value@) is Err,
        },
{
    let written = match value {
        FieldValue::Text(t) => serde_json::to_string(t),
        FieldValue::List(l) => serde_json::to_string(l),
    };
    match written { Ok(t) => Ok(t), Err(_) => Err(()) }
}

/// `serde_yml::from_str::<Vec<String>>`: the list of strings a text reads as.
#[verifier::external_body]
pub(crate) fn read_string_list(text: &str) -> (res: Option<Vec<String>>)
    ensures
        match res {
            Some(v) => yml_string_list(text@) == Some(views(v@)),
            None => yml_string_list(text@) is None,
        },
{
    serde_yml::from_str::<Vec<String>>(text).ok()
}

/// The unsigned number `serde_yml` reads at a top-level key of a text, when
/// it reads the text as YAML and the key holds one.
pub uninterp spec fn top_number(text: Seq<char>, key: Seq<char>) -> Option<u64>;

/// `serde_yml::from_str::<serde_yml::Value>`, then the value at a top-level
/// key as `u64`: `None` when the text does not read, the key is absent, or
/// its value is not an unsigned integer.
#[verifier::external_body]
pub(crate) fn read_top_number(text: &str, key: &str) -> (res: Option<u64>)
    ensures
        res == top_number(text@, key@),
{
    serde_yml::from_str::<serde_yml::Value>(text).ok()?.get(key)?.as_u64()
}

/// For each item of the list at a top-level key, as `serde_yml` reads the
/// text: whether the item holds `field`, and the string it holds there if it
/// is one. `None` when the text does not read or the key holds no list.
pub uninterp spec fn rows_field(text: Seq<char>, section: Seq<char>, field: Seq<char>) -> Option<Seq<Option<Option<Seq<char>>>>>;

/// The items of a list of field values, each taken as its characters.
pub open spec fn field_views(rows: Seq<Option<Option<String>>>) -> Seq<Option<Option<Seq<char>>>> {
    rows.map_values(|r: Option<Option<String>>| match r {
        Some(Some(t)) => Some(Some(t@)),
        Some(None) => Some(None),
        None => None,
    })
}

/// `serde_yml::from_str::<serde_yml::Value>`, then `get(section)` as a
/// sequence, and for each item `get(field)` with `as_str`.
#[verifier::external_body]
pub(crate) fn read_rows_field(text: &str, section: &str, field: &str) -> (res: Option<Vec<Option<Option<String>>>>)
    ensures
        match res {
            Some(rows) => rows_field(text@, section@, field@) == Some(field_views(rows@)),
            None => rows_field(text@, section@, field@) is None,
        },
{
    let parsed = serde_yml::from_str::<serde_yml::Value>(text).ok()?;
    let rows = parsed.get(section)?.as_sequence()?;
    Some(rows.iter().map(|row| row.get(field).map(|v| v.as_str().map(String::from))).collect())
}

/// `serde_yml::from_str::<serde_yml::Value>`: whether a text reads as YAML.
#[verifier::external_body]
pub(crate) fn reads_as_yaml(text: &str) -> (res: bool)
    ensures
        res == yml_valid(text@),
{
    serde_yml::from_str::<serde_yml::Value>(text).is_ok()
}

} // verus!
