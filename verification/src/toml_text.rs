//! TOML files as plain values: a table whose entries hold a text, a table of
//! lines, or something else.
use crate::text::same_str;
use vstd::prelude::*;

verus! {

/// A line of a table: its key, and its value where that is a string.
pub struct TomlLine {
    pub key: String,
    pub text: Option<String>,
}

/// What a top-level key holds.
pub enum TomlValue {
    Text(String),
    Table(Vec<TomlLine>),
    Other,
}

/// A top-level key with its value.
pub struct TomlEntry {
    pub key: String,
    pub value: TomlValue,
}

/// A line's contents.
#[verifier::ext_equal]
pub struct LineModel {
    pub key: Seq<char>,
    pub text: Option<Seq<char>>,
}

/// A value's contents.
#[verifier::ext_equal]
pub enum ValueModel {
    Text(Seq<char>),
    Table(Seq<LineModel>),
    Other,
}

/// An entry's contents.
#[verifier::ext_equal]
pub struct EntryModel {
    pub key: Seq<char>,
    pub value: ValueModel,
}

impl View for TomlLine {
    type V = LineModel;

    open spec fn view(&self) -> LineModel {
        LineModel {
            key: self.key@,
            text: match self.text {
                Some(t) => Some(t@),
                None => None,
            },
        }
    }
}

impl View for TomlValue {
    type V = ValueModel;

    open spec fn view(&self) -> ValueModel {
        match *self {
            TomlValue::Text(t) => ValueModel::Text(t@),
            TomlValue::Table(lines) => ValueModel::Table(lines_model(lines@)),
            TomlValue::Other => ValueModel::Other,
        }
    }
}

impl View for TomlEntry {
    type V = EntryModel;

    open spec fn view(&self) -> EntryModel {
        EntryModel { key: self.key@, value: self.value@ }
    }
}

/// The contents of lines.
pub open spec fn lines_model(lines: Seq<TomlLine>) -> Seq<LineModel> {
    lines.map_values(|l: TomlLine| l@)
}

/// The contents of entries.
pub open spec fn entries_model(entries: Seq<TomlEntry>) -> Seq<EntryModel> {
    entries.map_values(|e: TomlEntry| e@)
}

/// What `toml::from_str` makes of a text: the entries of the table in the
/// order of their keys, or its error as text.
pub uninterp spec fn toml_table(text: Seq<char>) -> Result<Seq<EntryModel>, Seq<char>>;

/// A parse result's contents.
pub open spec fn parse_model(r: Result<Vec<TomlEntry>, String>) -> Result<
    Seq<EntryModel>,
    Seq<char>,
> {
    match r {
        Ok(entries) => Ok(entries_model(entries@)),
        Err(e) => Err(e@),
    }
}

/// Calls `toml::from_str` for a `toml::Table` and takes the table apart: a
/// string is a text, a table its lines, any other value [`TomlValue::Other`].
/// What it makes of a text is named by [`toml_table`] and not spelled out.
#[verifier::external_body]
pub(crate) fn parse_toml(text: &str) -> (r: Result<Vec<TomlEntry>, String>)
    ensures
        parse_model(r) == toml_table(text@),
{
    let lines = |t: toml::Table| -> Vec<TomlLine> {
        t.into_iter()
            .map(|(key, v)| TomlLine { key, text: v.as_str().map(str::to_owned) })
            .collect()
    };
    let value = |v: toml::Value| match v {
        toml::Value::String(s) => TomlValue::Text(s),
        toml::Value::Table(t) => TomlValue::Table(lines(t)),
        _ => TomlValue::Other,
    };
    let table: toml::Table = toml::from_str(text).map_err(|e| e.to_string())?;
    Ok(table.into_iter().map(|(key, v)| TomlEntry { key, value: value(v) }).collect())
}

/// The lines of the table under `key`.
pub open spec fn table_under(entries: Seq<EntryModel>, key: Seq<char>) -> Option<Seq<LineModel>>
    decreases entries.len(),
{
    if entries.len() == 0 {
        None
    } else if entries[0].key == key {
        match entries[0].value {
            ValueModel::Table(lines) => Some(lines),
            _ => None,
        }
    } else {
        table_under(entries.drop_first(), key)
    }
}

/// The string under `key` in a table.
pub open spec fn text_under(lines: Seq<LineModel>, key: Seq<char>) -> Option<Seq<char>>
    decreases lines.len(),
{
    if lines.len() == 0 {
        None
    } else if lines[0].key == key {
        lines[0].text
    } else {
        text_under(lines.drop_first(), key)
    }
}

/// The string under `key` in a table.
pub fn line_text<'a>(lines: &'a Vec<TomlLine>, key: &str) -> (r: Option<&'a String>)
    ensures
        match r {
            Some(t) => text_under(lines_model(lines@), key@) == Some(t@),
            None => text_under(lines_model(lines@), key@) is None,
        },
{
    let ghost all = lines_model(lines@);
    let n: usize = lines.len();
    proof { assert(all.skip(0) =~= all); }
    for i in 0..n
        invariant
            n == lines.len(),
            all == lines_model(lines@),
            text_under(all, key@) == text_under(all.skip(i as int), key@),
    {
        proof {
            assert(all.skip(i as int)[0] == lines@[i as int]@);
            assert(all.skip(i as int).drop_first() =~= all.skip(i + 1));
        }
        if same_str(lines[i].key.as_str(), key) {
            return match &lines[i].text {
                Some(t) => Some(t),
                None => None,
            };
        }
    }
    None
}

/// The lines of the table under `key`.
pub fn table_lines<'a>(entries: &'a Vec<TomlEntry>, key: &str) -> (r: Option<&'a Vec<TomlLine>>)
    ensures
        match r {
            Some(t) => table_under(entries_model(entries@), key@) == Some(lines_model(t@)),
            None => table_under(entries_model(entries@), key@) is None,
        },
{
    let ghost all = entries_model(entries@);
    let n: usize = entries.len();
    proof { assert(all.skip(0) =~= all); }
    for i in 0..n
        invariant
            n == entries.len(),
            all == entries_model(entries@),
            table_under(all, key@) == table_under(all.skip(i as int), key@),
    {
        proof {
            assert(all.skip(i as int)[0] == entries@[i as int]@);
            assert(all.skip(i as int).drop_first() =~= all.skip(i + 1));
        }
        if same_str(entries[i].key.as_str(), key) {
            return match &entries[i].value {
                TomlValue::Table(lines) => Some(lines),
                _ => None,
            };
        }
    }
    None
}

} // verus!
