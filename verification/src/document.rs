//! A TOML document as the readers of the data files look at it.
//!
//! The parser hands over its tables as these values: every key with the byte offset it starts at,
//! every value with the byte offset it starts at, and the mistakes it found. Whole numbers keep
//! the digits they were written with, so reading them is the readers' own business. Everything
//! the readers never read as such, a date or a time, is [`Value::Other`].

use vstd::prelude::*;

use toml::de::{DeTable, DeValue};

use crate::diagnostics::{Diagnostic, DiagnosticView, Location, LocationView, Severity, breaks, place_of, since_break};
use crate::store::sessions::{utf8_len, utf8_width};
use crate::text::{chars_of, string_of};

verus! {

#[verifier::external_type_specification]
#[verifier::external_body]
pub struct ExDeValue<'i>(DeValue<'i>);

#[verifier::external_type_specification]
#[verifier::external_body]
#[verifier::reject_recursive_types(K)]
#[verifier::reject_recursive_types(V)]
pub struct ExTomlMap<K, V>(toml::map::Map<K, V>);

#[verifier::external_type_specification]
#[verifier::external_body]
#[verifier::reject_recursive_types(T)]
pub struct ExSpanned<T>(toml::Spanned<T>);

#[verifier::external_type_specification]
#[verifier::external_body]
pub struct ExTomlError(toml::de::Error);

/// One value of a document.
pub enum Value {
    /// A string.
    Text(String),
    /// A whole number, as its digits were written.
    Integer(String),
    /// A number with a fraction or an exponent, as it was written.
    Float(String),
    /// `true` or `false`.
    Boolean(bool),
    /// An array.
    List(Vec<Item>),
    /// A table, inline or not.
    Table(Vec<Entry>),
    /// Anything else: a date or a time.
    Other,
}

/// One element of an array, with the byte offset it starts at.
pub struct Item {
    pub at: usize,
    pub value: Value,
}

/// One key of a table with its value, and the byte offsets both start at.
pub struct Entry {
    pub key: String,
    pub key_at: usize,
    pub at: usize,
    pub value: Value,
}

/// A mistake the parser found, with the byte offset it starts at when it has one.
pub struct ParseError {
    pub at: Option<usize>,
    pub message: String,
}

/// A whole document: the entries of its root table, in the parser's order, and its mistakes.
pub struct Document {
    pub entries: Vec<Entry>,
    pub errors: Vec<ParseError>,
}

/// The index of the character that holds the byte `byte` of `text` in UTF-8, looking from the
/// character `k` on; the end of the text for a byte past it.
pub open spec fn char_at_byte(text: Seq<char>, byte: int, k: int) -> int
    decreases text.len() - k,
{
    if k < text.len() && utf8_len(text, k + 1) <= byte {
        char_at_byte(text, byte, k + 1)
    } else {
        k
    }
}

/// The place of the byte `byte` of `text` in the file `file`: an offset past the end points at
/// the end, and one inside a character at that character.
pub open spec fn locate(file: Seq<char>, text: Seq<char>, byte: int) -> LocationView {
    let place = place_of(text, char_at_byte(text, byte, 0));
    LocationView { file, line: place.0 as usize, column: place.1 as usize }
}

/// An error at the byte `byte`.
pub open spec fn error_at(file: Seq<char>, text: Seq<char>, byte: int, message: Seq<char>) -> DiagnosticView {
    DiagnosticView { severity: Severity::Error, location: Some(locate(file, text, byte)), message }
}

/// The diagnostics of the parser's mistakes, in order.
pub open spec fn error_notes(file: Seq<char>, text: Seq<char>, errors: Seq<ParseError>) -> Seq<DiagnosticView> {
    Seq::new(
        errors.len(),
        |i: int|
            DiagnosticView {
                severity: Severity::Error,
                location: match errors[i].at {
                    Some(at) => Some(locate(file, text, at as int)),
                    None => None,
                },
                message: errors[i].message@,
            },
    )
}

/// The first entry of `table` from `i` on whose key is `key`.
pub open spec fn find_from(table: Seq<Entry>, key: Seq<char>, i: int) -> Option<int>
    decreases table.len() - i,
{
    if i >= table.len() {
        None
    } else if table[i].key@ == key {
        Some(i)
    } else {
        find_from(table, key, i + 1)
    }
}

/// The first entry of `table` whose key is `key`.
pub open spec fn find(table: Seq<Entry>, key: Seq<char>) -> Option<int> {
    find_from(table, key, 0)
}

/// Whether `table` holds `key` once, with a value `fits` accepts. A table written by hand or by
/// the library never holds a key twice; the parser refuses such a table.
pub open spec fn holds_once(table: Seq<Entry>, key: Seq<char>, fits: spec_fn(Value) -> bool) -> bool {
    exists|i: int|
        0 <= i < table.len() && #[trigger] table[i].key@ == key && fits(table[i].value) && forall|j: int|
            0 <= j < table.len() && j != i ==> table[j].key@ != key
}

/// Whether `table` does not hold `key`.
pub open spec fn lacks(table: Seq<Entry>, key: Seq<char>) -> bool {
    forall|j: int| 0 <= j < table.len() ==> table[j].key@ != key
}

/// A string value that is `text`.
pub open spec fn text_is(text: Seq<char>) -> spec_fn(Value) -> bool {
    |v: Value|
        match v {
            Value::Text(s) => s@ == text,
            _ => false,
        }
}

/// A whole number written as the decimal digits of `n`.
pub open spec fn whole_is(n: int) -> spec_fn(Value) -> bool {
    |v: Value|
        match v {
            Value::Integer(digits) => digits@ == crate::text::signed_decimal(n),
            _ => false,
        }
}

/// A boolean value that is `b`.
pub open spec fn boolean_is(b: bool) -> spec_fn(Value) -> bool {
    |v: Value|
        match v {
            Value::Boolean(x) => x == b,
            _ => false,
        }
}

/// The first entry from `k` on with `key` is the one at `i` when none between them has it.
proof fn lemma_find_from_at(table: Seq<Entry>, key: Seq<char>, k: int, i: int)
    requires
        0 <= k <= i < table.len(),
        table[i].key@ == key,
        forall|j: int| k <= j < i ==> table[j].key@ != key,
    ensures
        find_from(table, key, k) == Some(i),
    decreases i - k,
{
    if k < i {
        lemma_find_from_at(table, key, k + 1, i);
    }
}

/// No entry from `k` on has `key` when none of the table has it.
proof fn lemma_find_from_none(table: Seq<Entry>, key: Seq<char>, k: int)
    requires
        0 <= k,
        lacks(table, key),
    ensures
        find_from(table, key, k) is None,
    decreases table.len() - k,
{
    if k < table.len() {
        lemma_find_from_none(table, key, k + 1);
    }
}

/// A key a table holds once is found where it is, with its value.
pub proof fn lemma_holds_once(table: Seq<Entry>, key: Seq<char>, fits: spec_fn(Value) -> bool)
    requires
        holds_once(table, key, fits),
    ensures
        find(table, key) is Some,
        0 <= find(table, key).unwrap() < table.len(),
        table[find(table, key).unwrap()].key@ == key,
        fits(table[find(table, key).unwrap()].value),
{
    let i = choose|i: int|
        0 <= i < table.len() && #[trigger] table[i].key@ == key && fits(table[i].value) && forall|j: int|
            0 <= j < table.len() && j != i ==> table[j].key@ != key;
    lemma_find_from_at(table, key, 0, i);
}

/// A key a table lacks is not found.
pub proof fn lemma_lacks(table: Seq<Entry>, key: Seq<char>)
    requires
        lacks(table, key),
    ensures
        find(table, key) is None,
{
    lemma_find_from_none(table, key, 0);
}

/// Where a table starts, for a value that is missing from it: its first key, or the start of the
/// file.
pub open spec fn table_start(table: Seq<Entry>) -> int {
    if table.len() > 0 {
        table[0].key_at as int
    } else {
        0
    }
}

/// The place of the byte `byte` of `text` in the file `file`.
pub fn location_at(file: &str, text: &Vec<char>, byte: usize) -> (location: Location)
    ensures
        location@ == locate(file@, text@, byte as int),
{
    let mut line: u128 = 1;
    let mut column: u128 = 1;
    let mut bytes: usize = 0;
    let mut i: usize = 0;
    while i < text.len()
        invariant
            i <= text@.len(),
            bytes == utf8_len(text@, i as int),
            bytes <= byte,
            char_at_byte(text@, byte as int, 0) == char_at_byte(text@, byte as int, i as int),
            line == breaks(text@.subrange(0, i as int)) + 1,
            column == since_break(text@.subrange(0, i as int)) + 1,
            line <= i + 1,
            column <= i + 1,
        ensures
            i <= text@.len(),
            char_at_byte(text@, byte as int, 0) == i,
            line == breaks(text@.subrange(0, i as int)) + 1,
            column == since_break(text@.subrange(0, i as int)) + 1,
        decreases text@.len() - i,
    {
        let c = text[i];
        let code = c as u32;
        let width: usize = if code < 0x80 {
            1
        } else if code < 0x800 {
            2
        } else if code < 0x10000 {
            3
        } else {
            4
        };
        assert(width == utf8_width(c));
        if width > byte - bytes {
            break;
        }
        assert(text@.subrange(0, i + 1).drop_last() =~= text@.subrange(0, i as int));
        if c == '\n' {
            line = line + 1;
            column = 1;
        } else {
            column = column + 1;
        }
        bytes = bytes + width;
        i = i + 1;
    }
    Location { file: string_of(&chars_of(file)), line: line as usize, column: column as usize }
}

/// The diagnostic of one of the parser's mistakes.
pub fn error_note(file: &str, text: &Vec<char>, error: &ParseError) -> (note: Diagnostic)
    ensures
        note@ == (DiagnosticView {
            severity: Severity::Error,
            location: match error.at {
                Some(at) => Some(locate(file@, text@, at as int)),
                None => None,
            },
            message: error.message@,
        }),
{
    let location = match error.at {
        Some(at) => Some(location_at(file, text, at)),
        None => None,
    };
    Diagnostic::error(location, string_of(&chars_of(error.message.as_str())))
}

/// An error at the byte `byte`.
pub fn error_at_byte(file: &str, text: &Vec<char>, byte: usize, message: String) -> (note: Diagnostic)
    ensures
        note@ == error_at(file@, text@, byte as int, message@),
{
    Diagnostic::error(Some(location_at(file, text, byte)), message)
}

/// The first entry of `table` whose key is `key`.
pub fn find_key(table: &Vec<Entry>, key: &str) -> (found: Option<usize>)
    ensures
        match found {
            Some(i) => i < table@.len() && find(table@, key@) == Some(i as int) && table@[i as int].key@ == key@,
            None => find(table@, key@) is None,
        },
{
    let mut i: usize = 0;
    while i < table.len()
        invariant
            i <= table@.len(),
            find(table@, key@) == find_from(table@, key@, i as int),
        decreases table@.len() - i,
    {
        let name = chars_of(table[i].key.as_str());
        if crate::text::chars_are(name.as_slice(), key) {
            return Some(i);
        }
        i = i + 1;
    }
    None
}

/// Where a table starts, for a value that is missing from it.
pub fn start_of_table(table: &Vec<Entry>) -> (start: usize)
    ensures
        start == table_start(table@),
{
    if table.len() > 0 {
        table[0].key_at
    } else {
        0
    }
}

/// The document the TOML parser makes of `text`: the entries of its root table in the parser's
/// order, each key and value with the byte offset it starts at, and every mistake it found.
pub uninterp spec fn toml_document(text: Seq<char>) -> Document;

/// A value of the parser as the document holds it: numbers as the text they were written with,
/// arrays and tables element by element, dates and times as [`Value::Other`].
#[verifier::external_body]
fn value_of(value: &DeValue<'_>) -> Value {
    match value {
        DeValue::String(text) => Value::Text(text.to_string()),
        DeValue::Integer(number) => Value::Integer(number.as_str().to_owned()),
        DeValue::Float(number) => Value::Float(number.as_str().to_owned()),
        DeValue::Boolean(flag) => Value::Boolean(*flag),
        DeValue::Array(items) => Value::List(items.iter().map(|item| Item { at: item.span().start, value: value_of(item.get_ref()) }).collect()),
        DeValue::Table(table) => Value::Table(entries_of(table)),
        _ => Value::Other,
    }
}

/// The entries of a table of the parser, each with where its key and its value start.
#[verifier::external_body]
fn entries_of(table: &DeTable<'_>) -> Vec<Entry> {
    table.iter().map(|(key, value)| Entry {
        key: key.get_ref().to_string(),
        key_at: key.span().start,
        at: value.span().start,
        value: value_of(value.get_ref()),
    }).collect()
}

/// The parser's mistakes, each with where it starts when it says so.
#[verifier::external_body]
fn errors_of(errors: &Vec<toml::de::Error>) -> Vec<ParseError> {
    errors.iter().map(|error| ParseError { at: error.span().map(|span| span.start), message: error.message().to_owned() }).collect()
}

/// `toml::de::DeTable::parse_recoverable`: parses `text` as far as it goes, and gives what could
/// be read and every mistake with where it is. The document depends on the text alone and is
/// named [`toml_document`]; nothing more is said of it.
#[verifier::external_body]
pub(crate) fn parse(text: &str) -> (doc: Document)
    ensures
        doc == toml_document(text@),
{
    let (root, errors) = DeTable::parse_recoverable(text);
    Document { entries: entries_of(root.get_ref()), errors: errors_of(&errors) }
}

} // verus!
