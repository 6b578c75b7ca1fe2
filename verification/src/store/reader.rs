//! Reading the values of one table of a document, turning every missing or mistyped one into a
//! diagnostic that points at the value, or at the start of the table when the value is not there
//! at all.

use vstd::prelude::*;

use crate::diagnostics::{Diagnostic, DiagnosticView};
use crate::document::{Entry, Value, error_at, error_at_byte, find, find_key, holds_once, lemma_holds_once, start_of_table, table_start, text_is, whole_is};
use crate::session::line::{diagnostic_views, quoted};
use crate::text::{chars_of, push_chars, push_str, signed_value, string_of, within};

verus! {

/// `text` without its underscores, as a whole number is read.
pub open spec fn without_underscores(text: Seq<char>) -> Seq<char>
    decreases text.len(),
{
    if text.len() == 0 {
        Seq::empty()
    } else if text.last() == '_' {
        without_underscores(text.drop_last())
    } else {
        without_underscores(text.drop_last()).push(text.last())
    }
}

/// `key is missing`.
pub open spec fn missing_message(key: Seq<char>) -> Seq<char> {
    key + " is missing"@
}

/// What reading a required text value gives: the text and where it is, and what went wrong.
pub open spec fn text_read(file: Seq<char>, src: Seq<char>, table: Seq<Entry>, key: Seq<char>) -> (
    Option<(Seq<char>, int)>,
    Seq<DiagnosticView>,
) {
    match find(table, key) {
        Some(i) => match table[i].value {
            Value::Text(s) => (Some((s@, table[i].at as int)), Seq::empty()),
            _ => (None, seq![error_at(file, src, table[i].at as int, key + " is not text"@)]),
        },
        None => (None, seq![error_at(file, src, table_start(table), missing_message(key))]),
    }
}

/// What reading a required whole number gives.
pub open spec fn integer_read(file: Seq<char>, src: Seq<char>, table: Seq<Entry>, key: Seq<char>) -> (
    Option<(int, int)>,
    Seq<DiagnosticView>,
) {
    match find(table, key) {
        Some(i) => match table[i].value {
            Value::Integer(digits) => match within(
                signed_value(without_underscores(digits@)),
                i64::MIN as int,
                i64::MAX as int,
            ) {
                Some(v) => (Some((v, table[i].at as int)), Seq::empty()),
                None => (None, seq![error_at(file, src, table[i].at as int, key + " is not a whole number"@)]),
            },
            _ => (None, seq![error_at(file, src, table[i].at as int, key + " is not a whole number"@)]),
        },
        None => (None, seq![error_at(file, src, table_start(table), missing_message(key))]),
    }
}

/// What reading an optional `true` or `false` gives; a wrong type is still a mistake.
pub open spec fn boolean_read(file: Seq<char>, src: Seq<char>, table: Seq<Entry>, key: Seq<char>) -> (
    Option<bool>,
    Seq<DiagnosticView>,
) {
    match find(table, key) {
        Some(i) => match table[i].value {
            Value::Boolean(b) => (Some(b), Seq::empty()),
            _ => (None, seq![error_at(file, src, table[i].at as int, key + " is not true or false"@)]),
        },
        None => (None, Seq::empty()),
    }
}

/// What reading a required count of seconds gives.
pub open spec fn seconds_read(file: Seq<char>, src: Seq<char>, table: Seq<Entry>, key: Seq<char>) -> (
    Option<u32>,
    Seq<DiagnosticView>,
) {
    let (number, notes) = integer_read(file, src, table, key);
    match number {
        Some((v, at)) => if 0 <= v <= u32::MAX {
            (Some(v as u32), notes)
        } else {
            (None, notes.push(error_at(file, src, at, key + " is not a count of seconds"@)))
        },
        None => (None, notes),
    }
}

/// What reading an optional count of seconds gives; a wrong type or a negative number is still
/// a mistake.
pub open spec fn optional_seconds_read(file: Seq<char>, src: Seq<char>, table: Seq<Entry>, key: Seq<char>) -> (
    Option<u32>,
    Seq<DiagnosticView>,
) {
    if find(table, key) is None {
        (None, Seq::empty())
    } else {
        seconds_read(file, src, table, key)
    }
}

/// What reading a required word that `named` knows gives.
pub open spec fn word_read<T>(
    file: Seq<char>,
    src: Seq<char>,
    table: Seq<Entry>,
    key: Seq<char>,
    named: spec_fn(Seq<char>) -> Option<T>,
) -> (Option<T>, Seq<DiagnosticView>) {
    let (found, notes) = text_read(file, src, table, key);
    match found {
        Some((text, at)) => match named(text) {
            Some(value) => (Some(value), notes),
            None => (None, notes.push(error_at(file, src, at, "unknown "@ + key + " "@ + quoted(text)))),
        },
        None => (None, notes),
    }
}

/// A required text value, and where it is.
pub fn read_text(file: &str, src: &Vec<char>, table: &Vec<Entry>, key: &str, notes: &mut Vec<Diagnostic>) -> (found: Option<(String, usize)>)
    ensures
        diagnostic_views(final(notes)@) == diagnostic_views(old(notes)@) + text_read(file@, src@, table@, key@).1,
        match found {
            Some((text, at)) => text_read(file@, src@, table@, key@).0 == Some((text@, at as int)),
            None => text_read(file@, src@, table@, key@).0 is None,
        },
{
    let ghost before = notes@;
    match find_key(table, key) {
        Some(i) => match &table[i].value {
            Value::Text(s) => {
                assert(diagnostic_views(notes@) =~= diagnostic_views(before) + Seq::empty());
                Some((string_of(&chars_of(s.as_str())), table[i].at))
            },
            _ => {
                let mut message: Vec<char> = Vec::new();
                push_str(&mut message, key);
                push_str(&mut message, " is not text");
                let note = error_at_byte(file, src, table[i].at, string_of(&message));
                notes.push(note);
                assert(diagnostic_views(notes@) =~= diagnostic_views(before) + text_read(file@, src@, table@, key@).1);
                None
            },
        },
        None => {
            let mut message: Vec<char> = Vec::new();
            push_str(&mut message, key);
            push_str(&mut message, " is missing");
            let note = error_at_byte(file, src, start_of_table(table), string_of(&message));
            notes.push(note);
            assert(diagnostic_views(notes@) =~= diagnostic_views(before) + text_read(file@, src@, table@, key@).1);
            None
        },
    }
}

/// `text` without its underscores.
fn strip_underscores(text: &Vec<char>) -> (out: Vec<char>)
    ensures
        out@ == without_underscores(text@),
{
    let mut out: Vec<char> = Vec::new();
    let mut i: usize = 0;
    while i < text.len()
        invariant
            i <= text@.len(),
            out@ == without_underscores(text@.subrange(0, i as int)),
        decreases text@.len() - i,
    {
        assert(text@.subrange(0, i + 1).drop_last() =~= text@.subrange(0, i as int));
        if text[i] != '_' {
            out.push(text[i]);
        }
        i = i + 1;
    }
    assert(text@.subrange(0, text@.len() as int) =~= text@);
    out
}

/// A required whole number, and where it is.
pub fn read_integer(file: &str, src: &Vec<char>, table: &Vec<Entry>, key: &str, notes: &mut Vec<Diagnostic>) -> (found: Option<(i64, usize)>)
    ensures
        diagnostic_views(final(notes)@) == diagnostic_views(old(notes)@) + integer_read(file@, src@, table@, key@).1,
        match found {
            Some((v, at)) => integer_read(file@, src@, table@, key@).0 == Some((v as int, at as int)),
            None => integer_read(file@, src@, table@, key@).0 is None,
        },
{
    let ghost before = notes@;
    match find_key(table, key) {
        Some(i) => {
            let parsed: Option<i128> = match &table[i].value {
                Value::Integer(digits) => {
                    let plain = strip_underscores(&chars_of(digits.as_str()));
                    crate::text::parse_signed(plain.as_slice(), 0x8000_0000_0000_0000, 0x7fff_ffff_ffff_ffff)
                },
                _ => None,
            };
            match parsed {
                Some(v) => {
                    assert(diagnostic_views(notes@) =~= diagnostic_views(before) + Seq::empty());
                    Some((v as i64, table[i].at))
                },
                None => {
                    let mut message: Vec<char> = Vec::new();
                    push_str(&mut message, key);
                    push_str(&mut message, " is not a whole number");
                    let note = error_at_byte(file, src, table[i].at, string_of(&message));
                    notes.push(note);
                    assert(diagnostic_views(notes@) =~= diagnostic_views(before) + integer_read(file@, src@, table@, key@).1);
                    None
                },
            }
        },
        None => {
            let mut message: Vec<char> = Vec::new();
            push_str(&mut message, key);
            push_str(&mut message, " is missing");
            let note = error_at_byte(file, src, start_of_table(table), string_of(&message));
            notes.push(note);
            assert(diagnostic_views(notes@) =~= diagnostic_views(before) + integer_read(file@, src@, table@, key@).1);
            None
        },
    }
}

/// An optional `true` or `false`.
pub fn read_boolean(file: &str, src: &Vec<char>, table: &Vec<Entry>, key: &str, notes: &mut Vec<Diagnostic>) -> (found: Option<bool>)
    ensures
        diagnostic_views(final(notes)@) == diagnostic_views(old(notes)@) + boolean_read(file@, src@, table@, key@).1,
        found == boolean_read(file@, src@, table@, key@).0,
{
    let ghost before = notes@;
    match find_key(table, key) {
        Some(i) => match &table[i].value {
            Value::Boolean(b) => {
                assert(diagnostic_views(notes@) =~= diagnostic_views(before) + Seq::empty());
                Some(*b)
            },
            _ => {
                let mut message: Vec<char> = Vec::new();
                push_str(&mut message, key);
                push_str(&mut message, " is not true or false");
                let note = error_at_byte(file, src, table[i].at, string_of(&message));
                notes.push(note);
                assert(diagnostic_views(notes@) =~= diagnostic_views(before) + boolean_read(file@, src@, table@, key@).1);
                None
            },
        },
        None => {
            assert(diagnostic_views(notes@) =~= diagnostic_views(before) + Seq::empty());
            None
        },
    }
}

/// A required count of seconds.
pub fn read_seconds(file: &str, src: &Vec<char>, table: &Vec<Entry>, key: &str, notes: &mut Vec<Diagnostic>) -> (found: Option<u32>)
    ensures
        diagnostic_views(final(notes)@) == diagnostic_views(old(notes)@) + seconds_read(file@, src@, table@, key@).1,
        found == seconds_read(file@, src@, table@, key@).0,
{
    let ghost before = notes@;
    match read_integer(file, src, table, key, notes) {
        Some((v, at)) => if 0 <= v && v <= u32::MAX as i64 {
            Some(v as u32)
        } else {
            let ghost middle = notes@;
            let mut message: Vec<char> = Vec::new();
            push_str(&mut message, key);
            push_str(&mut message, " is not a count of seconds");
            let note = error_at_byte(file, src, at, string_of(&message));
            notes.push(note);
            assert(diagnostic_views(notes@) =~= diagnostic_views(middle).push(note@));
            assert(diagnostic_views(notes@) =~= diagnostic_views(before) + seconds_read(file@, src@, table@, key@).1);
            None
        },
        None => None,
    }
}

/// An optional count of seconds.
pub fn read_optional_seconds(file: &str, src: &Vec<char>, table: &Vec<Entry>, key: &str, notes: &mut Vec<Diagnostic>) -> (found: Option<u32>)
    ensures
        diagnostic_views(final(notes)@) == diagnostic_views(old(notes)@) + optional_seconds_read(file@, src@, table@, key@).1,
        found == optional_seconds_read(file@, src@, table@, key@).0,
{
    if find_key(table, key).is_none() {
        assert(diagnostic_views(notes@) =~= diagnostic_views(notes@) + Seq::empty());
        return None;
    }
    read_seconds(file, src, table, key, notes)
}

/// The `Debug` form of `text`, as characters.
pub fn shown(text: &Vec<char>) -> (out: Vec<char>)
    ensures
        out@ == quoted(text@),
{
    crate::session::line::debug_quoted(text)
}

/// The message of a word nobody knows.
pub fn unknown_message(key: &str, text: &Vec<char>) -> (message: String)
    ensures
        message@ == "unknown "@ + key@ + " "@ + quoted(text@),
{
    let mut out: Vec<char> = Vec::new();
    push_str(&mut out, "unknown ");
    push_str(&mut out, key);
    push_str(&mut out, " ");
    push_chars(&mut out, &shown(text));
    string_of(&out)
}

/// Text without underscores is what a whole number keeps of it.
pub proof fn lemma_no_underscores(text: Seq<char>)
    requires
        forall|k: int| 0 <= k < text.len() ==> text[k] != '_',
    ensures
        without_underscores(text) == text,
    decreases text.len(),
{
    if text.len() > 0 {
        lemma_no_underscores(text.drop_last());
        assert(text.drop_last().push(text.last()) =~= text);
    }
}

/// A whole number held once, written as its decimal digits, reads back as itself.
pub proof fn lemma_whole_read(file: Seq<char>, src: Seq<char>, table: Seq<Entry>, key: Seq<char>, n: int)
    requires
        holds_once(table, key, whole_is(n)),
        i64::MIN <= n <= i64::MAX,
    ensures
        integer_read(file, src, table, key).0 is Some,
        integer_read(file, src, table, key).0.unwrap().0 == n,
        integer_read(file, src, table, key).1.len() == 0,
{
    lemma_holds_once(table, key, whole_is(n));
    crate::text::lemma_signed_decimal_chars(n);
    lemma_no_underscores(crate::text::signed_decimal(n));
    crate::text::lemma_signed_decimal_reads_back(n);
}

/// A text held once reads back as itself.
pub proof fn lemma_text_read(file: Seq<char>, src: Seq<char>, table: Seq<Entry>, key: Seq<char>, text: Seq<char>)
    requires
        holds_once(table, key, text_is(text)),
    ensures
        text_read(file, src, table, key).0 is Some,
        text_read(file, src, table, key).0.unwrap().0 == text,
        text_read(file, src, table, key).1.len() == 0,
{
    lemma_holds_once(table, key, text_is(text));
}

} // verus!
