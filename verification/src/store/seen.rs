//! The last moment something looked at a counter nobody measures.
//!
//! A counter the command line started has no process behind it, so nothing refreshes its running
//! file. The only proof that the machine was still on with the counter running is that a command
//! looked at it; it writes that moment here, in `seen-<machine>.toml`, beside the running file.
//! The counter's start is kept too, so a stamp left by an earlier counter is never taken for this
//! one's.
//!
//! The file is only a hint. One that is missing, broken or about another counter is no proof,
//! never an error anybody is told about.

use vstd::prelude::*;

use crate::document::{Document, Entry, Value, find, find_key};
use crate::store::reader::without_underscores;
use crate::text::{chars_of, push_i64, push_str, signed_decimal, signed_value, string_of, within};

verus! {

/// A moment a counter was seen alive.
#[derive(Debug, Clone, Copy, PartialEq, Eq, Structural)]
pub struct Seen {
    /// When the counter started, in seconds since the Unix epoch; says which counter was seen.
    pub started: i64,
    /// When it was seen, in seconds since the Unix epoch.
    pub seen: i64,
}

/// The text a stamp is written as.
pub open spec fn seen_text(seen: Seen) -> Seq<char> {
    "started = "@ + signed_decimal(seen.started as int) + "\nseen = "@ + signed_decimal(seen.seen as int) + "\n"@
}

impl Seen {
    /// The stamp as TOML.
    pub fn write(&self) -> (text: String)
        ensures
            text@ == seen_text(*self),
    {
        let mut out: Vec<char> = Vec::new();
        push_str(&mut out, "started = ");
        push_i64(&mut out, self.started);
        push_str(&mut out, "\nseen = ");
        push_i64(&mut out, self.seen);
        push_str(&mut out, "\n");
        string_of(&out)
    }
}

/// The whole number under `key`, when there is one.
pub open spec fn number_under(table: Seq<Entry>, key: Seq<char>) -> Option<i64> {
    match find(table, key) {
        Some(i) => match table[i].value {
            Value::Integer(digits) => match within(signed_value(without_underscores(digits@)), i64::MIN as int, i64::MAX as int) {
                Some(v) => Some(v as i64),
                None => None,
            },
            _ => None,
        },
        None => None,
    }
}

/// What reading a stamp from a parsed document gives.
pub open spec fn seen_read(doc: &Document) -> Option<Seen> {
    if doc.errors@.len() > 0 {
        None
    } else {
        match (number_under(doc.entries@, "started"@), number_under(doc.entries@, "seen"@)) {
            (Some(started), Some(seen)) => Some(Seen { started, seen }),
            _ => None,
        }
    }
}

/// The whole number under `key`, when there is one.
fn number_in(table: &Vec<Entry>, key: &str) -> (found: Option<i64>)
    ensures
        found == number_under(table@, key@),
{
    match find_key(table, key) {
        Some(i) => match &table[i].value {
            Value::Integer(digits) => {
                let chars = chars_of(digits.as_str());
                let mut plain: Vec<char> = Vec::new();
                let mut k: usize = 0;
                while k < chars.len()
                    invariant
                        k <= chars@.len(),
                        plain@ == without_underscores(chars@.subrange(0, k as int)),
                    decreases chars@.len() - k,
                {
                    assert(chars@.subrange(0, k + 1).drop_last() =~= chars@.subrange(0, k as int));
                    if chars[k] != '_' {
                        plain.push(chars[k]);
                    }
                    k = k + 1;
                }
                assert(chars@.subrange(0, chars@.len() as int) =~= chars@);
                match crate::text::parse_signed(plain.as_slice(), 0x8000_0000_0000_0000, 0x7fff_ffff_ffff_ffff) {
                    Some(v) => Some(v as i64),
                    None => None,
                }
            },
            _ => None,
        },
        None => None,
    }
}

impl Seen {
    /// Reads a stamp from the text of its file: the text is parsed as TOML, and what the parser
    /// made of it is read as [`Seen::read_document`] reads it.
    pub fn read(text: &str) -> (seen: Option<Self>)
        ensures
            seen == seen_read(&crate::document::toml_document(text@)),
    {
        let doc = crate::document::parse(text);
        Seen::read_document(&doc)
    }

    /// Reads a stamp from the parsed document of its file; `None` when the file has a mistake,
    /// or when either value is missing or is not a whole number.
    pub fn read_document(doc: &Document) -> (seen: Option<Self>)
        ensures
            seen == seen_read(doc),
    {
        if doc.errors.len() > 0 {
            return None;
        }
        match (number_in(&doc.entries, "started"), number_in(&doc.entries, "seen")) {
            (Some(started), Some(seen)) => Some(Seen { started, seen }),
            _ => None,
        }
    }
}

} // verus!
