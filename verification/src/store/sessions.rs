//! The month files: which one a session goes to and the line appended to it.
//!
//! A month file only ever grows. One session is one line, written with a single `write` call so
//! that a crash leaves either the whole line or nothing of it; a line that would not fit in one
//! call is refused before anything touches the disk.

use vstd::prelude::*;

use crate::calendar::{date_of_unix, local_moment};
use crate::id::Id;
use crate::session::{Session, SessionView};
use crate::session::line::{line_of, write_chars};
use crate::diagnostics::{Diagnostic, DiagnosticView, Location, LocationView, Severity};
use crate::store::purge::{utf8_decoded, utf8_text, utf8_valid_up_to};
use crate::text::{chars_of, decimal, push_chars, push_str, push_u64, string_of};

verus! {

/// The most bytes one line may take, its line ending included. Larger writes may be cut short by
/// the operating system, which would leave half a record in the file.
pub const MAX_LINE_BYTES: usize = 4096;

/// `std::io::Error`, carried through as it is.
#[verifier::external_type_specification]
#[verifier::external_body]
pub struct ExIoError(std::io::Error);

/// Why a session could not be appended. In every case the record stays with the caller; nothing
/// is thrown away.
#[derive(Debug)]
pub enum AppendError {
    /// The line would take more than [`MAX_LINE_BYTES`], so it was not written at all.
    TooLong {
        /// How many bytes the line takes.
        bytes: usize,
    },
    /// The operating system wrote only part of the line. The file now ends in a broken line that
    /// the reader will skip and report; the record itself has to be written again.
    Short {
        /// How many bytes reached the file.
        written: usize,
    },
    /// The file or its folder could not be opened or written.
    Io(String, std::io::Error),
    /// This store may not write: another instance holds the lock.
    ReadOnly,
    /// No record the operation could apply to carries this identifier.
    Missing(Id),
}

/// The local year and month a session started in: the month file it belongs to.
///
/// A correction is written to the same month as the record it corrects, so callers pass the
/// original session here, never the correction.
pub fn month_of(session: &Session) -> (month: (i32, u8))
    ensures
        month.0 == date_of_unix(session.started, session.offset_minutes).0,
        month.1 == date_of_unix(session.started, session.offset_minutes).1,
{
    let moment = local_moment(session.started, session.offset_minutes);
    (moment.year, moment.month)
}

/// Bytes `c` takes in UTF-8.
pub open spec fn utf8_width(c: char) -> nat {
    if (c as u32) < 0x80 {
        1
    } else if (c as u32) < 0x800 {
        2
    } else if (c as u32) < 0x10000 {
        3
    } else {
        4
    }
}

/// Bytes the first `n` characters of `text` take in UTF-8.
pub open spec fn utf8_len(text: Seq<char>, n: int) -> nat
    decreases n,
{
    if n <= 0 {
        0
    } else {
        utf8_len(text, n - 1) + utf8_width(text[n - 1])
    }
}

/// Bytes `text` takes in UTF-8, as far as a `usize` reaches.
pub(crate) fn byte_length(text: &Vec<char>) -> (bytes: usize)
    ensures
        bytes == (if utf8_len(text@, text@.len() as int) > usize::MAX { usize::MAX as nat } else { utf8_len(
            text@,
            text@.len() as int,
        ) }),
{
    let mut total: usize = 0;
    let mut i: usize = 0;
    while i < text.len()
        invariant
            i <= text@.len(),
            total == (if utf8_len(text@, i as int) > usize::MAX { usize::MAX as nat } else { utf8_len(text@, i as int) }),
        decreases text@.len() - i,
    {
        let c = text[i] as u32;
        let width: usize = if c < 0x80 {
            1
        } else if c < 0x800 {
            2
        } else if c < 0x10000 {
            3
        } else {
            4
        };
        total = if total > usize::MAX - width {
            usize::MAX
        } else {
            total + width
        };
        i = i + 1;
    }
    total
}

/// What [`line_to_append`] answers: the line with its ending, or how many bytes it would take
/// when that is more than [`MAX_LINE_BYTES`].
pub open spec fn append_of(session: SessionView) -> Result<Seq<char>, nat> {
    let text = line_of(session).push('\n');
    if utf8_len(text, text.len() as int) > MAX_LINE_BYTES {
        Err(utf8_len(text, text.len() as int))
    } else {
        Ok(text)
    }
}

/// The line `session` is appended as, its line ending included, or [`AppendError::TooLong`]
/// when it would take more than [`MAX_LINE_BYTES`] and must not be written at all.
pub fn line_to_append(session: &Session) -> (line: Result<String, AppendError>)
    ensures
        match line {
            Ok(text) => append_of(session@) == Ok::<Seq<char>, nat>(text@),
            Err(AppendError::TooLong { bytes }) => append_of(session@) matches Err(n) && (bytes == (if n > usize::MAX {
                usize::MAX as nat
            } else {
                n
            })),
            Err(_) => false,
        },
{
    let mut text = write_chars(session);
    text.push('\n');
    let bytes = byte_length(&text);
    if bytes > MAX_LINE_BYTES {
        return Err(AppendError::TooLong { bytes });
    }
    Ok(string_of(&text))
}

/// `bytes` cut at every line feed: one more piece than there are line feeds, the line feeds
/// dropped.
pub open spec fn byte_lines(bytes: Seq<u8>) -> Seq<Seq<u8>>
    decreases bytes.len(),
{
    if bytes.len() == 0 {
        seq![Seq::empty()]
    } else {
        let pieces = byte_lines(bytes.drop_last());
        if bytes.last() == 10 {
            pieces.push(Seq::empty())
        } else {
            pieces.update(pieces.len() - 1, pieces.last().push(bytes.last()))
        }
    }
}

/// The text a line of a month file stands for: the line itself when it is valid UTF-8, else an
/// empty one, so the lines after it keep their numbers.
pub open spec fn line_text(piece: Seq<u8>) -> Seq<char> {
    match utf8_decoded(piece) {
        Some(text) => text,
        None => Seq::empty(),
    }
}

/// The text of the first `n` lines, a line feed between two of them.
pub open spec fn lines_text(pieces: Seq<Seq<u8>>, n: int) -> Seq<char>
    decreases n,
{
    if n <= 0 {
        Seq::empty()
    } else if n == 1 {
        line_text(pieces[0])
    } else {
        lines_text(pieces, n - 1) + seq!['\n'] + line_text(pieces[n - 1])
    }
}

/// What is said of a line that is not valid UTF-8: where the first byte that is not lies.
pub open spec fn bad_line_message(valid: nat) -> Seq<char> {
    "not valid UTF-8 at byte "@ + decimal(valid + 1) + "; the line is skipped"@
}

/// What is said of the lines among the first `n` that are not valid UTF-8, each at its line of
/// the file `file`.
pub open spec fn bad_lines_upto(file: Seq<char>, pieces: Seq<Seq<u8>>, n: int) -> Seq<DiagnosticView>
    decreases n,
{
    if n <= 0 {
        Seq::empty()
    } else {
        let rest = bad_lines_upto(file, pieces, n - 1);
        if utf8_decoded(pieces[n - 1]) is None {
            rest.push(DiagnosticView {
                severity: Severity::Error,
                location: Some(LocationView { file, line: n as usize, column: 1 }),
                message: bad_line_message(utf8_valid_up_to(pieces[n - 1])),
            })
        } else {
            rest
        }
    }
}

/// Takes in the line `piece`, the `index`th of the file counted from zero: its text goes to
/// `text`, after a line feed unless it is the first, and a line that is not valid UTF-8 is said
/// so in `notes` and stands as an empty line.
fn take_line(file: &str, piece: &Vec<u8>, index: usize, text: &mut Vec<char>, notes: &mut Vec<Diagnostic>)
    requires
        index < usize::MAX,
    ensures
        final(text)@ == old(text)@ + (if index > 0 { seq!['\n'] } else { Seq::empty() }) + line_text(piece@),
        crate::session::line::diagnostic_views(final(notes)@) == crate::session::line::diagnostic_views(old(notes)@) + (
            if utf8_decoded(piece@) is None {
                seq![DiagnosticView {
                    severity: Severity::Error,
                    location: Some(LocationView { file: file@, line: (index + 1) as usize, column: 1 }),
                    message: bad_line_message(utf8_valid_up_to(piece@)),
                }]
            } else {
                Seq::empty()
            }
        ),
{
    if index > 0 {
        text.push('\n');
    }
    let ghost before = text@;
    match utf8_text(piece.as_slice()) {
        Ok(line) => {
            let chars = chars_of(line.as_str());
            push_chars(text, &chars);
            assert(notes@ =~= old(notes)@);
        },
        Err(valid) => {
            let mut message: Vec<char> = Vec::new();
            push_str(&mut message, "not valid UTF-8 at byte ");
            let length = piece.len();
            assert(valid < length);
            push_u64(&mut message, valid as u64 + 1);
            push_str(&mut message, "; the line is skipped");
            assert(message@ =~= bad_line_message(utf8_valid_up_to(piece@)));
            let location = Location { file: string_of(&chars_of(file)), line: index + 1, column: 1 };
            let note = Diagnostic::error(Some(location), string_of(&message));
            let ghost old_notes = notes@;
            notes.push(note);
            assert(crate::session::line::diagnostic_views(notes@) =~= crate::session::line::diagnostic_views(old_notes).push(note@));
            assert(text@ =~= before + Seq::<char>::empty());
        },
    }
}

/// `bytes` as text, with every line that is not valid UTF-8 replaced by an empty one and said so
/// in `notes`, at its line of the file `file`. The line numbers of the text are those of the
/// file, so a note from the session reader still points at the right line.
pub fn valid_lines(file: &str, bytes: &[u8], notes: &mut Vec<Diagnostic>) -> (text: String)
    requires
        bytes@.len() < usize::MAX,
    ensures
        text@ == lines_text(byte_lines(bytes@), byte_lines(bytes@).len() as int),
        crate::session::line::diagnostic_views(final(notes)@) == crate::session::line::diagnostic_views(old(notes)@)
            + bad_lines_upto(file@, byte_lines(bytes@), byte_lines(bytes@).len() as int),
{
    let mut text: Vec<char> = Vec::new();
    let mut piece: Vec<u8> = Vec::new();
    let mut index: usize = 0;
    let mut i: usize = 0;
    let ghost start_notes = crate::session::line::diagnostic_views(notes@);
    while i < bytes.len()
        invariant
            i <= bytes@.len() < usize::MAX,
            byte_lines(bytes@.subrange(0, i as int)).len() == index + 1,
            byte_lines(bytes@.subrange(0, i as int)).last() == piece@,
            index <= i,
            text@ == lines_text(byte_lines(bytes@.subrange(0, i as int)), index as int),
            crate::session::line::diagnostic_views(notes@) == start_notes + bad_lines_upto(
                file@,
                byte_lines(bytes@.subrange(0, i as int)),
                index as int,
            ),
        decreases bytes@.len() - i,
    {
        let ghost pieces = byte_lines(bytes@.subrange(0, i as int));
        let ghost next = byte_lines(bytes@.subrange(0, i + 1));
        assert(bytes@.subrange(0, i + 1).drop_last() =~= bytes@.subrange(0, i as int));
        if bytes[i] == 10 {
            take_line(file, &piece, index, &mut text, notes);
            proof {
                assert(next == pieces.push(Seq::empty()));
                assert(next.subrange(0, index + 1) =~= pieces);
                lemma_lines_prefix(file@, pieces, next, index as int + 1);
                assert(lines_text(next, index + 1) == lines_text(pieces, index + 1));
                assert(bad_lines_upto(file@, next, index + 1) == bad_lines_upto(file@, pieces, index + 1));
            }
            piece = Vec::new();
            index = index + 1;
        } else {
            piece.push(bytes[i]);
            proof {
                assert(next == pieces.update(pieces.len() - 1, pieces.last().push(bytes@[i as int])));
                lemma_lines_prefix(file@, pieces, next, index as int);
            }
        }
        i = i + 1;
    }
    assert(bytes@.subrange(0, bytes@.len() as int) =~= bytes@);
    take_line(file, &piece, index, &mut text, notes);
    string_of(&text)
}

/// The text and the notes of the first `n` lines depend on those lines alone.
proof fn lemma_lines_prefix(file: Seq<char>, a: Seq<Seq<u8>>, b: Seq<Seq<u8>>, n: int)
    requires
        0 <= n <= a.len(),
        n <= b.len(),
        forall|k: int| 0 <= k < n ==> a[k] == b[k],
    ensures
        lines_text(a, n) == lines_text(b, n),
        bad_lines_upto(file, a, n) == bad_lines_upto(file, b, n),
    decreases n,
{
    if n > 0 {
        lemma_lines_prefix(file, a, b, n - 1);
    }
}

} // verus!
