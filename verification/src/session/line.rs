//! Reading and writing the line a session is stored as.
//!
//! One session is one line. Fields are separated by `;` and the order never changes. Only the note
//! carries free text, so it is the only field that needs escaping.

use vstd::prelude::*;

use super::{Flag, Session, SessionView, Source, flag_named, flag_word, source_named, source_word};
use crate::id::{Id, LENGTH, crockford_text};
use crate::span::{ClockSource, Span, SpanKind};
use crate::arith::clamp_i64;
use crate::diagnostics::{Diagnostic, DiagnosticView, Location, LocationView, Severity, place_of};
use crate::id::parsed;
use crate::span::{check, problems};
use crate::text::{
    chars_are, chars_of, decimal, parse_signed, parse_unsigned, push_chars, push_i64, push_str, push_u64,
    signed_decimal, signed_value, split, split_on, string_of, unsigned_value, views, within,
};

verus! {

/// The format this version writes.
pub const VERSION: &'static str = "qf1";

/// The characters an identifier is written as.
pub open spec fn id_text(id: Id) -> Seq<char> {
    crockford_text(id.value() as nat, LENGTH as nat)
}

/// The letter a span kind is written as.
pub open spec fn kind_letter(kind: SpanKind) -> char {
    match kind {
        SpanKind::Work => 'w',
        SpanKind::Pause => 'p',
        SpanKind::Gap => 'g',
        SpanKind::Idle => 'i',
    }
}

/// The letter a clock is written as.
pub open spec fn clock_letter(clock: ClockSource) -> char {
    match clock {
        ClockSource::Mono => 'm',
        ClockSource::Boot => 'b',
        ClockSource::Wall => 'w',
    }
}

/// One span as `kind:offset:seconds:clock`.
pub open spec fn span_text(span: Span) -> Seq<char> {
    seq![kind_letter(span.kind), ':'] + decimal(span.offset as nat) + seq![':'] + decimal(span.seconds as nat)
        + seq![':', clock_letter(span.clock)]
}

/// `parts` with `sep` between each two of them.
pub open spec fn joined(parts: Seq<Seq<char>>, sep: char) -> Seq<char>
    decreases parts.len(),
{
    if parts.len() == 0 {
        Seq::empty()
    } else if parts.len() == 1 {
        parts[0]
    } else {
        joined(parts.drop_last(), sep).push(sep) + parts.last()
    }
}

/// The texts of `spans`, in order.
pub open spec fn span_texts(spans: Seq<Span>) -> Seq<Seq<char>> {
    Seq::new(spans.len(), |i: int| span_text(spans[i]))
}

/// The words of `flags`, in order.
pub open spec fn flag_words(flags: Seq<Flag>) -> Seq<Seq<char>> {
    Seq::new(flags.len(), |i: int| flag_word(flags[i]))
}

/// An identifier, or nothing when there is none.
pub open spec fn link_text(id: Option<Id>) -> Seq<char> {
    match id {
        Some(id) => id_text(id),
        None => Seq::empty(),
    }
}

/// One character of a note as it is written: the separator, the backslash and the line endings
/// behind a backslash, everything else as it is.
pub open spec fn escape_char(c: char) -> Seq<char> {
    if c == '\\' {
        seq!['\\', '\\']
    } else if c == ';' {
        seq!['\\', ';']
    } else if c == '\n' {
        seq!['\\', 'n']
    } else if c == '\r' {
        seq!['\\', 'r']
    } else {
        seq![c]
    }
}

/// A note as it is written.
pub open spec fn escaped(note: Seq<char>) -> Seq<char>
    decreases note.len(),
{
    if note.len() == 0 {
        Seq::empty()
    } else {
        escaped(note.drop_last()) + escape_char(note.last())
    }
}

/// The fields of the line `session` is stored as, in order.
pub open spec fn fields_of(session: SessionView) -> Seq<Seq<char>> {
    seq![
        VERSION@,
        id_text(session.id),
        decimal(session.revision as nat),
        signed_decimal(session.written as int),
        id_text(session.focus),
        signed_decimal(session.started as int),
        signed_decimal(session.offset_minutes as int),
        signed_decimal(session.ended as int),
        joined(span_texts(session.spans), ','),
        source_word(session.source),
        link_text(session.replaces),
        link_text(session.voids),
        link_text(session.continues),
        joined(flag_words(session.flags), ','),
        escaped(session.note),
    ]
}

/// The line `session` is stored as, without its line ending.
pub open spec fn line_of(session: SessionView) -> Seq<char> {
    joined(fields_of(session), ';')
}

/// The line a session is stored as, without its line ending.
pub fn write(session: &Session) -> (line: String)
    ensures
        line@ == line_of(session@),
{
    let out = write_chars(session);
    string_of(&out)
}

/// The line a session is stored as, as characters.
pub fn write_chars(session: &Session) -> (out: Vec<char>)
    ensures
        out@ == line_of(session@),
{
    let ghost fields = fields_of(session@);
    let mut out: Vec<char> = Vec::new();
    push_str(&mut out, VERSION);
    assert(out@ =~= joined(fields.subrange(0, 1), ';'));
    out.push(';');
    session.id.write_to(&mut out);
    proof { lemma_joined_step(fields, 2); }
    out.push(';');
    push_u64(&mut out, session.revision as u64);
    proof { lemma_joined_step(fields, 3); }
    out.push(';');
    push_i64(&mut out, session.written);
    proof { lemma_joined_step(fields, 4); }
    out.push(';');
    session.focus.write_to(&mut out);
    proof { lemma_joined_step(fields, 5); }
    out.push(';');
    push_i64(&mut out, session.started);
    proof { lemma_joined_step(fields, 6); }
    out.push(';');
    push_i64(&mut out, session.offset_minutes as i64);
    proof { lemma_joined_step(fields, 7); }
    out.push(';');
    push_i64(&mut out, session.ended);
    proof { lemma_joined_step(fields, 8); }
    out.push(';');
    write_spans(&mut out, &session.spans);
    proof { lemma_joined_step(fields, 9); }
    out.push(';');
    push_str(&mut out, session.source.as_str());
    proof { lemma_joined_step(fields, 10); }
    out.push(';');
    write_link(&mut out, session.replaces);
    proof { lemma_joined_step(fields, 11); }
    out.push(';');
    write_link(&mut out, session.voids);
    proof { lemma_joined_step(fields, 12); }
    out.push(';');
    write_link(&mut out, session.continues);
    proof { lemma_joined_step(fields, 13); }
    out.push(';');
    write_flags(&mut out, &session.flags);
    proof { lemma_joined_step(fields, 14); }
    out.push(';');
    escape(&mut out, &session.note);
    proof {
        lemma_joined_step(fields, 15);
        assert(fields.subrange(0, 15) =~= fields);
    }
    out
}

/// Joining one more part adds the separator and the part.
proof fn lemma_joined_step(parts: Seq<Seq<char>>, n: int)
    requires
        2 <= n <= parts.len(),
    ensures
        joined(parts.subrange(0, n), ';') == joined(parts.subrange(0, n - 1), ';').push(';') + parts[n - 1],
{
    assert(parts.subrange(0, n).drop_last() =~= parts.subrange(0, n - 1));
}

/// Appends one span as `kind:offset:seconds:clock`. It holds no free text, so it needs no
/// escaping.
fn write_span(out: &mut Vec<char>, span: &Span)
    ensures
        final(out)@ == old(out)@ + span_text(*span),
{
    let kind = match span.kind {
        SpanKind::Work => 'w',
        SpanKind::Pause => 'p',
        SpanKind::Gap => 'g',
        SpanKind::Idle => 'i',
    };
    let clock = match span.clock {
        ClockSource::Mono => 'm',
        ClockSource::Boot => 'b',
        ClockSource::Wall => 'w',
    };
    out.push(kind);
    out.push(':');
    push_u64(out, span.offset as u64);
    out.push(':');
    push_u64(out, span.seconds as u64);
    out.push(':');
    out.push(clock);
    assert(out@ =~= old(out)@ + span_text(*span));
}

/// Appends the spans separated by `,`.
fn write_spans(out: &mut Vec<char>, spans: &Vec<Span>)
    ensures
        final(out)@ == old(out)@ + joined(span_texts(spans@), ','),
{
    let ghost texts = span_texts(spans@);
    let mut i: usize = 0;
    while i < spans.len()
        invariant
            i <= spans@.len(),
            texts == span_texts(spans@),
            out@ == old(out)@ + joined(texts.subrange(0, i as int), ','),
        decreases spans@.len() - i,
    {
        let ghost before = out@;
        if i > 0 {
            out.push(',');
        }
        write_span(out, &spans[i]);
        proof {
            assert(texts.subrange(0, i + 1).drop_last() =~= texts.subrange(0, i as int));
            if i == 0 {
                assert(joined(texts.subrange(0, 0), ',') =~= Seq::<char>::empty());
            }
            assert(out@ =~= old(out)@ + joined(texts.subrange(0, i + 1), ','));
        }
        i = i + 1;
    }
    assert(texts.subrange(0, spans@.len() as int) =~= texts);
}

/// Appends the flags separated by `,`.
fn write_flags(out: &mut Vec<char>, flags: &Vec<Flag>)
    ensures
        final(out)@ == old(out)@ + joined(flag_words(flags@), ','),
{
    let ghost words = flag_words(flags@);
    let mut i: usize = 0;
    while i < flags.len()
        invariant
            i <= flags@.len(),
            words == flag_words(flags@),
            out@ == old(out)@ + joined(words.subrange(0, i as int), ','),
        decreases flags@.len() - i,
    {
        if i > 0 {
            out.push(',');
        }
        push_str(out, flags[i].as_str());
        proof {
            assert(words.subrange(0, i + 1).drop_last() =~= words.subrange(0, i as int));
            if i == 0 {
                assert(joined(words.subrange(0, 0), ',') =~= Seq::<char>::empty());
            }
            assert(out@ =~= old(out)@ + joined(words.subrange(0, i + 1), ','));
        }
        i = i + 1;
    }
    assert(words.subrange(0, flags@.len() as int) =~= words);
}

/// Appends an identifier, or nothing when there is none.
fn write_link(out: &mut Vec<char>, id: Option<Id>)
    ensures
        final(out)@ == old(out)@ + link_text(id),
{
    match id {
        Some(value) => value.write_to(out),
        None => {
            assert(out@ =~= old(out)@ + link_text(id));
        },
    }
}

/// Appends `note` with the separator and the line endings hidden behind a backslash.
fn escape(out: &mut Vec<char>, note: &String)
    ensures
        final(out)@ == old(out)@ + escaped(note@),
{
    let chars = crate::text::chars_of(note.as_str());
    let mut i: usize = 0;
    while i < chars.len()
        invariant
            i <= chars@.len(),
            chars@ == note@,
            out@ == old(out)@ + escaped(chars@.subrange(0, i as int)),
        decreases chars@.len() - i,
    {
        let c = chars[i];
        if c == '\\' {
            out.push('\\');
            out.push('\\');
        } else if c == ';' {
            out.push('\\');
            out.push(';');
        } else if c == '\n' {
            out.push('\\');
            out.push('n');
        } else if c == '\r' {
            out.push('\\');
            out.push('r');
        } else {
            out.push(c);
        }
        proof {
            assert(chars@.subrange(0, i + 1).drop_last() =~= chars@.subrange(0, i as int));
            assert(out@ =~= old(out)@ + escaped(chars@.subrange(0, i + 1)));
        }
        i = i + 1;
    }
    assert(chars@.subrange(0, chars@.len() as int) =~= chars@);
}


/// Fields one line holds.
pub const FIELDS: usize = 15;

/// Text as the `Debug` form of a string shows it: in quotes, with what cannot be shown escaped.
pub uninterp spec fn quoted(text: Seq<char>) -> Seq<char>;

/// The `Debug` form of the string `text`, as the standard library writes it.
#[verifier::external_body]
pub(crate) fn debug_quoted(text: &Vec<char>) -> (shown: Vec<char>)
    ensures
        shown@ == quoted(text@),
{
    let as_string: String = text.iter().collect();
    format!("{as_string:?}").chars().collect()
}

/// Why a line could not become a session.
pub enum Problem {
    /// A newer qfocus wrote it.
    UnknownVersion,
    /// It is not a session line this version can make sense of.
    Broken(Vec<char>),
}

/// Why a line could not become a session, as values.
pub enum ProblemView {
    UnknownVersion,
    Broken(Seq<char>),
}

/// A field that is not an identifier.
pub open spec fn not_an_identifier(name: Seq<char>) -> Seq<char> {
    name + " is not an identifier"@
}

/// A field that is not a number.
pub open spec fn not_a_number(name: Seq<char>) -> Seq<char> {
    name + " is not a number"@
}

/// What reading an identifier field gives.
pub open spec fn id_result(text: Seq<char>, name: Seq<char>) -> Result<Id, Seq<char>> {
    match parsed(text) {
        Some(v) => Ok(Id::of(v)),
        None => Err(not_an_identifier(name)),
    }
}

/// What reading an identifier field that may be empty gives.
pub open spec fn link_result(text: Seq<char>, name: Seq<char>) -> Result<Option<Id>, Seq<char>> {
    if text.len() == 0 {
        Ok(None)
    } else {
        match id_result(text, name) {
            Ok(id) => Ok(Some(id)),
            Err(e) => Err(e),
        }
    }
}

/// What reading a number field between `low` and `high` gives, signed or not.
pub open spec fn number_result(text: Seq<char>, name: Seq<char>, signed: bool, low: int, high: int) -> Result<int, Seq<char>> {
    match within(if signed { signed_value(text) } else { unsigned_value(text) }, low, high) {
        Some(v) => Ok(v),
        None => Err(not_a_number(name)),
    }
}

/// The span kind a one-letter word names.
pub open spec fn kind_named(word: Seq<char>) -> Option<SpanKind> {
    if word == seq!['w'] {
        Some(SpanKind::Work)
    } else if word == seq!['p'] {
        Some(SpanKind::Pause)
    } else if word == seq!['g'] {
        Some(SpanKind::Gap)
    } else if word == seq!['i'] {
        Some(SpanKind::Idle)
    } else {
        None
    }
}

/// The clock a one-letter word names.
pub open spec fn clock_named(word: Seq<char>) -> Option<ClockSource> {
    if word == seq!['m'] {
        Some(ClockSource::Mono)
    } else if word == seq!['b'] {
        Some(ClockSource::Boot)
    } else if word == seq!['w'] {
        Some(ClockSource::Wall)
    } else {
        None
    }
}

/// What reading one span of the spans field gives.
pub open spec fn span_result(text: Seq<char>) -> Result<Span, Seq<char>> {
    let parts = split_on(text, ':');
    if parts.len() != 4 {
        Err("span "@ + quoted(text) + " does not have four parts"@)
    } else {
        match kind_named(parts[0]) {
            None => Err("unknown span kind "@ + quoted(parts[0])),
            Some(kind) => match clock_named(parts[3]) {
                None => Err("unknown clock "@ + quoted(parts[3])),
                Some(clock) => match number_result(parts[1], "span offset"@, false, 0, u32::MAX as int) {
                    Err(e) => Err(e),
                    Ok(offset) => match number_result(parts[2], "span length"@, false, 0, u32::MAX as int) {
                        Err(e) => Err(e),
                        Ok(seconds) => Ok(Span { kind, offset: offset as u32, seconds: seconds as u32, clock }),
                    },
                },
            },
        }
    }
}

/// What reading the first `n` parts of the spans field gives: the spans, or the first mistake.
pub open spec fn spans_result_upto(parts: Seq<Seq<char>>, n: int) -> Result<Seq<Span>, Seq<char>>
    decreases n,
{
    if n <= 0 {
        Ok(Seq::empty())
    } else {
        match spans_result_upto(parts, n - 1) {
            Err(e) => Err(e),
            Ok(spans) => match span_result(parts[n - 1]) {
                Err(e) => Err(e),
                Ok(span) => Ok(spans.push(span)),
            },
        }
    }
}

/// What reading the spans field gives.
pub open spec fn spans_result(text: Seq<char>) -> Result<Seq<Span>, Seq<char>> {
    if text.len() == 0 {
        Ok(Seq::empty())
    } else {
        spans_result_upto(split_on(text, ','), split_on(text, ',').len() as int)
    }
}

/// What reading the first `n` words of the flags field gives.
pub open spec fn flags_result_upto(words: Seq<Seq<char>>, n: int) -> Result<Seq<Flag>, Seq<char>>
    decreases n,
{
    if n <= 0 {
        Ok(Seq::empty())
    } else {
        match flags_result_upto(words, n - 1) {
            Err(e) => Err(e),
            Ok(flags) => match flag_named(words[n - 1]) {
                None => Err("unknown flag "@ + quoted(words[n - 1])),
                Some(flag) => Ok(flags.push(flag)),
            },
        }
    }
}

/// What reading the flags field gives.
pub open spec fn flags_result(text: Seq<char>) -> Result<Seq<Flag>, Seq<char>> {
    if text.len() == 0 {
        Ok(Seq::empty())
    } else {
        flags_result_upto(split_on(text, ','), split_on(text, ',').len() as int)
    }
}

/// Whether a version word is one a newer qfocus writes: `qf` and a number.
pub open spec fn newer_version(word: Seq<char>) -> bool {
    word.len() > 2 && word[0] == 'q' && word[1] == 'f' && crate::text::all_digits(word.subrange(2, word.len() as int))
}

/// What reading the fields of a line of this version gives, the mistake in the first field
/// that has one when one does.
pub open spec fn session_result(f: Seq<Seq<char>>) -> Result<SessionView, Seq<char>> {
    match id_result(f[1], "id"@) {
        Err(e) => Err(e),
        Ok(id) => match number_result(f[2], "revision"@, false, 0, u32::MAX as int) {
            Err(e) => Err(e),
            Ok(revision) => match number_result(f[3], "written"@, true, i64::MIN as int, i64::MAX as int) {
                Err(e) => Err(e),
                Ok(written) => match id_result(f[4], "focus"@) {
                    Err(e) => Err(e),
                    Ok(focus) => match number_result(f[5], "start"@, true, i64::MIN as int, i64::MAX as int) {
                        Err(e) => Err(e),
                        Ok(started) => match number_result(f[6], "offset"@, true, i16::MIN as int, i16::MAX as int) {
                            Err(e) => Err(e),
                            Ok(offset_minutes) => match number_result(f[7], "end"@, true, i64::MIN as int, i64::MAX as int) {
                                Err(e) => Err(e),
                                Ok(ended) => match spans_result(f[8]) {
                                    Err(e) => Err(e),
                                    Ok(spans) => match source_named(f[9]) {
                                        None => Err("unknown source "@ + quoted(f[9])),
                                        Some(source) => match link_result(f[10], "replaces"@) {
                                            Err(e) => Err(e),
                                            Ok(replaces) => match link_result(f[11], "voids"@) {
                                                Err(e) => Err(e),
                                                Ok(voids) => match link_result(f[12], "continues"@) {
                                                    Err(e) => Err(e),
                                                    Ok(continues) => match flags_result(f[13]) {
                                                        Err(e) => Err(e),
                                                        Ok(flags) => Ok(SessionView {
                                                            id,
                                                            revision: revision as u32,
                                                            written: written as i64,
                                                            focus,
                                                            started: started as i64,
                                                            offset_minutes: offset_minutes as i16,
                                                            ended: ended as i64,
                                                            spans,
                                                            source,
                                                            replaces,
                                                            voids,
                                                            continues,
                                                            flags,
                                                            note: f[14],
                                                        }),
                                                    },
                                                },
                                            },
                                        },
                                    },
                                },
                            },
                        },
                    },
                },
            },
        },
    }
}

/// One character behind a backslash, as it is read back.
pub open spec fn unescape_char(c: char) -> char {
    if c == 'n' {
        '\n'
    } else if c == 'r' {
        '\r'
    } else {
        c
    }
}

/// The fields read so far from `line` and whether a backslash waits for its character.
pub open spec fn split_state(line: Seq<char>) -> (Seq<Seq<char>>, bool)
    decreases line.len(),
{
    if line.len() == 0 {
        (seq![Seq::empty()], false)
    } else {
        let (fields, escaped) = split_state(line.drop_last());
        let c = line.last();
        let last = (fields.len() - 1) as int;
        if escaped {
            (fields.update(last, fields[last].push(unescape_char(c))), false)
        } else if c == '\\' {
            (fields, true)
        } else if c == ';' {
            (fields.push(Seq::empty()), false)
        } else {
            (fields.update(last, fields[last].push(c)), false)
        }
    }
}

/// The fields of a line, with the escapes in the note undone.
pub open spec fn fields_read(line: Seq<char>) -> Seq<Seq<char>> {
    split_state(line).0
}

/// What reading one line gives.
pub open spec fn line_result(line: Seq<char>) -> Result<SessionView, ProblemView> {
    let fields = fields_read(line);
    let version = fields[0];
    if version != VERSION@ {
        if newer_version(version) {
            Err(ProblemView::UnknownVersion)
        } else {
            Err(ProblemView::Broken("not a session line"@))
        }
    } else if fields.len() != FIELDS {
        Err(ProblemView::Broken(decimal(fields.len()) + " fields, expected 15"@))
    } else {
        match session_result(fields) {
            Ok(session) => Ok(session),
            Err(e) => Err(ProblemView::Broken(e)),
        }
    }
}

/// The split state always holds at least one field.
proof fn lemma_split_state_not_empty(line: Seq<char>)
    ensures
        split_state(line).0.len() >= 1,
    decreases line.len(),
{
    if line.len() > 0 {
        lemma_split_state_not_empty(line.drop_last());
    }
}

/// The fields of a line, with the escapes in the note undone.
fn split_fields(line: &[char]) -> (fields: Vec<Vec<char>>)
    ensures
        views(fields@) == fields_read(line@),
        fields@.len() >= 1,
{
    let mut done: Vec<Vec<char>> = Vec::new();
    let mut current: Vec<char> = Vec::new();
    let mut escaped = false;
    let mut i: usize = 0;
    while i < line.len()
        invariant
            i <= line@.len(),
            split_state(line@.subrange(0, i as int)) == (views(done@).push(current@), escaped),
        decreases line@.len() - i,
    {
        let c = line[i];
        let ghost before = views(done@).push(current@);
        assert(line@.subrange(0, i + 1).drop_last() =~= line@.subrange(0, i as int));
        assert(line@.subrange(0, i + 1).last() == c);
        if escaped {
            let plain = if c == 'n' {
                '\n'
            } else if c == 'r' {
                '\r'
            } else {
                c
            };
            current.push(plain);
            escaped = false;
            assert(views(done@).push(current@) =~= before.update(before.len() - 1, before.last().push(plain)));
        } else if c == '\\' {
            escaped = true;
        } else if c == ';' {
            let field = current;
            done.push(field);
            current = Vec::new();
            assert(views(done@).push(current@) =~= before.push(Seq::empty()));
        } else {
            current.push(c);
            assert(views(done@).push(current@) =~= before.update(before.len() - 1, before.last().push(c)));
        }
        i = i + 1;
    }
    assert(line@.subrange(0, line@.len() as int) =~= line@);
    done.push(current);
    done
}

/// A message made of `text` and `tail`.
fn message(text: &Vec<char>, tail: &str) -> (out: Vec<char>)
    ensures
        out@ == text@ + tail@,
{
    let mut out: Vec<char> = Vec::new();
    push_chars(&mut out, text);
    push_str(&mut out, tail);
    out
}

/// A message made of `head` and `text`.
fn message_after(head: &str, text: &Vec<char>) -> (out: Vec<char>)
    ensures
        out@ == head@ + text@,
{
    let mut out: Vec<char> = Vec::new();
    push_str(&mut out, head);
    push_chars(&mut out, text);
    out
}

/// An identifier field.
fn id_field(text: &Vec<char>, name: &str) -> (id: Result<Id, Vec<char>>)
    ensures
        match id {
            Ok(v) => id_result(text@, name@) == Ok::<Id, Seq<char>>(v),
            Err(e) => id_result(text@, name@) == Err::<Id, Seq<char>>(e@),
        },
{
    match Id::parse_chars(text.as_slice()) {
        Some(id) => Ok(id),
        None => Err(message(&chars_of(name), " is not an identifier")),
    }
}

/// An identifier field that may be empty.
fn link_field(text: &Vec<char>, name: &str) -> (id: Result<Option<Id>, Vec<char>>)
    ensures
        match id {
            Ok(v) => link_result(text@, name@) == Ok::<Option<Id>, Seq<char>>(v),
            Err(e) => link_result(text@, name@) == Err::<Option<Id>, Seq<char>>(e@),
        },
{
    if text.len() == 0 {
        Ok(None)
    } else {
        match id_field(text, name) {
            Ok(id) => Ok(Some(id)),
            Err(e) => Err(e),
        }
    }
}

/// A number field between `-low` and `high`, signed or not.
fn number_field(text: &Vec<char>, name: &str, signed: bool, low: u128, high: u128) -> (value: Result<i128, Vec<char>>)
    requires
        9 <= low < 0x1_0000_0000_0000_0000_0000,
        9 <= high < 0x1_0000_0000_0000_0000_0000,
        !signed ==> low == 9,
    ensures
        match value {
            Ok(v) => number_result(text@, name@, signed, if signed { -low } else { 0 }, high as int) == Ok::<int, Seq<char>>(v as int),
            Err(e) => number_result(text@, name@, signed, if signed { -low } else { 0 }, high as int) == Err::<int, Seq<char>>(e@),
        },
{
    let parsed: Option<i128> = if signed {
        parse_signed(text.as_slice(), low, high)
    } else {
        match parse_unsigned(text.as_slice(), high) {
            Some(v) => Some(v as i128),
            None => None,
        }
    };
    match parsed {
        Some(v) => Ok(v),
        None => Err(message(&chars_of(name), " is not a number")),
    }
}


/// The span kind a one-letter word names.
fn kind_of(word: &Vec<char>) -> (kind: Option<SpanKind>)
    ensures
        kind == kind_named(word@),
{
    if word.len() != 1 {
        return None;
    }
    let c = word[0];
    assert(word@ =~= seq![c]);
    if c == 'w' {
        Some(SpanKind::Work)
    } else if c == 'p' {
        Some(SpanKind::Pause)
    } else if c == 'g' {
        Some(SpanKind::Gap)
    } else if c == 'i' {
        Some(SpanKind::Idle)
    } else {
        None
    }
}

/// The clock a one-letter word names.
fn clock_of(word: &Vec<char>) -> (clock: Option<ClockSource>)
    ensures
        clock == clock_named(word@),
{
    if word.len() != 1 {
        return None;
    }
    let c = word[0];
    assert(word@ =~= seq![c]);
    if c == 'm' {
        Some(ClockSource::Mono)
    } else if c == 'b' {
        Some(ClockSource::Boot)
    } else if c == 'w' {
        Some(ClockSource::Wall)
    } else {
        None
    }
}

/// One span of the spans field.
fn read_span(text: &Vec<char>) -> (span: Result<Span, Vec<char>>)
    ensures
        match span {
            Ok(v) => span_result(text@) == Ok::<Span, Seq<char>>(v),
            Err(e) => span_result(text@) == Err::<Span, Seq<char>>(e@),
        },
{
    let parts = split(text.as_slice(), ':');
    if parts.len() != 4 {
        let mut out: Vec<char> = Vec::new();
        push_str(&mut out, "span ");
        push_chars(&mut out, &debug_quoted(text));
        push_str(&mut out, " does not have four parts");
        return Err(out);
    }
    assert(parts[0]@ == split_on(text@, ':')[0]);
    assert(parts[1]@ == split_on(text@, ':')[1]);
    assert(parts[2]@ == split_on(text@, ':')[2]);
    assert(parts[3]@ == split_on(text@, ':')[3]);
    let kind = match kind_of(&parts[0]) {
        Some(kind) => kind,
        None => return Err(message_after("unknown span kind ", &debug_quoted(&parts[0]))),
    };
    let clock = match clock_of(&parts[3]) {
        Some(clock) => clock,
        None => return Err(message_after("unknown clock ", &debug_quoted(&parts[3]))),
    };
    let offset = match number_field(&parts[1], "span offset", false, 9, u32::MAX as u128) {
        Ok(v) => v,
        Err(e) => return Err(e),
    };
    let seconds = match number_field(&parts[2], "span length", false, 9, u32::MAX as u128) {
        Ok(v) => v,
        Err(e) => return Err(e),
    };
    Ok(Span::new(kind, offset as u32, seconds as u32, clock))
}

/// The spans field.
fn read_spans(text: &Vec<char>) -> (spans: Result<Vec<Span>, Vec<char>>)
    ensures
        match spans {
            Ok(v) => spans_result(text@) == Ok::<Seq<Span>, Seq<char>>(v@),
            Err(e) => spans_result(text@) == Err::<Seq<Span>, Seq<char>>(e@),
        },
{
    if text.len() == 0 {
        return Ok(Vec::new());
    }
    let parts = split(text.as_slice(), ',');
    let ghost words = split_on(text@, ',');
    let mut spans: Vec<Span> = Vec::new();
    let mut i: usize = 0;
    while i < parts.len()
        invariant
            i <= parts@.len(),
            views(parts@) == words,
            words == split_on(text@, ','),
            text@.len() > 0,
            spans_result_upto(words, i as int) == Ok::<Seq<Span>, Seq<char>>(spans@),
        decreases parts@.len() - i,
    {
        assert(parts[i as int]@ == words[i as int]);
        match read_span(&parts[i]) {
            Ok(span) => spans.push(span),
            Err(e) => {
                assert(spans_result_upto(words, i + 1) == Err::<Seq<Span>, Seq<char>>(e@));
                proof {
                    lemma_spans_result_stays_err(words, i + 1, words.len() as int);
                    assert(text@.len() != 0);
                    assert(spans_result(text@) == spans_result_upto(words, words.len() as int));
                }
                return Err(e);
            },
        }
        i = i + 1;
    }
    Ok(spans)
}

/// A mistake in one span stays the answer however many spans follow.
proof fn lemma_spans_result_stays_err(words: Seq<Seq<char>>, n: int, m: int)
    requires
        n <= m,
        spans_result_upto(words, n) is Err,
    ensures
        spans_result_upto(words, m) == spans_result_upto(words, n),
    decreases m - n,
{
    if n < m {
        lemma_spans_result_stays_err(words, n, m - 1);
    }
}

/// A mistake in one flag stays the answer however many flags follow.
proof fn lemma_flags_result_stays_err(words: Seq<Seq<char>>, n: int, m: int)
    requires
        n <= m,
        flags_result_upto(words, n) is Err,
    ensures
        flags_result_upto(words, m) == flags_result_upto(words, n),
    decreases m - n,
{
    if n < m {
        lemma_flags_result_stays_err(words, n, m - 1);
    }
}

/// The flags field.
fn read_flags(text: &Vec<char>) -> (flags: Result<Vec<Flag>, Vec<char>>)
    ensures
        match flags {
            Ok(v) => flags_result(text@) == Ok::<Seq<Flag>, Seq<char>>(v@),
            Err(e) => flags_result(text@) == Err::<Seq<Flag>, Seq<char>>(e@),
        },
{
    if text.len() == 0 {
        return Ok(Vec::new());
    }
    let parts = split(text.as_slice(), ',');
    let ghost words = split_on(text@, ',');
    let mut flags: Vec<Flag> = Vec::new();
    let mut i: usize = 0;
    while i < parts.len()
        invariant
            i <= parts@.len(),
            views(parts@) == words,
            words == split_on(text@, ','),
            text@.len() > 0,
            flags_result_upto(words, i as int) == Ok::<Seq<Flag>, Seq<char>>(flags@),
        decreases parts@.len() - i,
    {
        assert(parts[i as int]@ == words[i as int]);
        match Flag::parse_chars(parts[i].as_slice()) {
            Some(flag) => flags.push(flag),
            None => {
                let e = message_after("unknown flag ", &debug_quoted(&parts[i]));
                assert(flags_result_upto(words, i + 1) == Err::<Seq<Flag>, Seq<char>>(e@));
                proof {
                    lemma_flags_result_stays_err(words, i + 1, words.len() as int);
                    assert(text@.len() != 0);
                    assert(flags_result(text@) == flags_result_upto(words, words.len() as int));
                }
                return Err(e);
            },
        }
        i = i + 1;
    }
    Ok(flags)
}

/// The session the fields of a line of this version hold, or the first mistake in them.
fn read_fields(f: &Vec<Vec<char>>) -> (session: Result<Session, Vec<char>>)
    requires
        f@.len() == FIELDS,
    ensures
        match session {
            Ok(v) => session_result(views(f@)) == Ok::<SessionView, Seq<char>>(v@),
            Err(e) => session_result(views(f@)) == Err::<SessionView, Seq<char>>(e@),
        },
{
    let ghost g = views(f@);
    assert(forall|i: int| 0 <= i < 15 ==> f@[i]@ == #[trigger] g[i]);
    let id = match id_field(&f[1], "id") {
        Ok(v) => v,
        Err(e) => return Err(e),
    };
    let revision = match number_field(&f[2], "revision", false, 9, u32::MAX as u128) {
        Ok(v) => v,
        Err(e) => return Err(e),
    };
    let written = match number_field(&f[3], "written", true, 0x8000_0000_0000_0000, 0x7fff_ffff_ffff_ffff) {
        Ok(v) => v,
        Err(e) => return Err(e),
    };
    let focus = match id_field(&f[4], "focus") {
        Ok(v) => v,
        Err(e) => return Err(e),
    };
    let started = match number_field(&f[5], "start", true, 0x8000_0000_0000_0000, 0x7fff_ffff_ffff_ffff) {
        Ok(v) => v,
        Err(e) => return Err(e),
    };
    let offset_minutes = match number_field(&f[6], "offset", true, 32_768, 32_767) {
        Ok(v) => v,
        Err(e) => return Err(e),
    };
    let ended = match number_field(&f[7], "end", true, 0x8000_0000_0000_0000, 0x7fff_ffff_ffff_ffff) {
        Ok(v) => v,
        Err(e) => return Err(e),
    };
    let spans = match read_spans(&f[8]) {
        Ok(v) => v,
        Err(e) => return Err(e),
    };
    let source = match Source::parse_chars(f[9].as_slice()) {
        Some(v) => v,
        None => return Err(message_after("unknown source ", &debug_quoted(&f[9]))),
    };
    let replaces = match link_field(&f[10], "replaces") {
        Ok(v) => v,
        Err(e) => return Err(e),
    };
    let voids = match link_field(&f[11], "voids") {
        Ok(v) => v,
        Err(e) => return Err(e),
    };
    let continues = match link_field(&f[12], "continues") {
        Ok(v) => v,
        Err(e) => return Err(e),
    };
    let flags = match read_flags(&f[13]) {
        Ok(v) => v,
        Err(e) => return Err(e),
    };
    Ok(Session {
        id,
        revision: revision as u32,
        written: written as i64,
        focus,
        started: started as i64,
        offset_minutes: offset_minutes as i16,
        ended: ended as i64,
        spans,
        source,
        replaces,
        voids,
        continues,
        flags,
        note: string_of(&f[14]),
    })
}

/// One line as a session.
pub fn read_line(line: &[char]) -> (session: Result<Session, Problem>)
    ensures
        match session {
            Ok(v) => line_result(line@) == Ok::<SessionView, ProblemView>(v@),
            Err(Problem::UnknownVersion) => line_result(line@) == Err::<SessionView, ProblemView>(ProblemView::UnknownVersion),
            Err(Problem::Broken(e)) => line_result(line@) == Err::<SessionView, ProblemView>(ProblemView::Broken(e@)),
        },
{
    let fields = split_fields(line);
    assert(fields[0]@ == fields_read(line@)[0]);
    let version = &fields[0];
    if !chars_are(version.as_slice(), VERSION) {
        let newer = version.len() > 2 && version[0] == 'q' && version[1] == 'f' && all_digits_from(version, 2);
        return Err(if newer { Problem::UnknownVersion } else { Problem::Broken(chars_of("not a session line")) });
    }
    if fields.len() != FIELDS {
        let mut out: Vec<char> = Vec::new();
        push_u64(&mut out, fields.len() as u64);
        push_str(&mut out, " fields, expected 15");
        return Err(Problem::Broken(out));
    }
    match read_fields(&fields) {
        Ok(session) => Ok(session),
        Err(e) => Err(Problem::Broken(e)),
    }
}

/// Whether every character of `text` from `from` on is a decimal digit.
fn all_digits_from(text: &Vec<char>, from: usize) -> (digits: bool)
    requires
        from <= text@.len(),
    ensures
        digits == crate::text::all_digits(text@.subrange(from as int, text@.len() as int)),
{
    let mut i: usize = from;
    while i < text.len()
        invariant
            from <= i <= text@.len(),
            forall|j: int| from <= j < i ==> crate::text::is_digit(#[trigger] text@[j]),
        decreases text@.len() - i,
    {
        if !('0' <= text[i] && text[i] <= '9') {
            assert(text@.subrange(from as int, text@.len() as int)[i - from] == text@[i as int]);
            return false;
        }
        i = i + 1;
    }
    assert forall|j: int| 0 <= j < text@.len() - from implies crate::text::is_digit(
        #[trigger] text@.subrange(from as int, text@.len() as int)[j],
    ) by {
        assert(text@.subrange(from as int, text@.len() as int)[j] == text@[from + j]);
    }
    true
}


/// Whether `c` is white space, as Unicode's `White_Space` property says.
pub open spec fn is_white(c: char) -> bool {
    ('\u{9}' <= c && c <= '\u{d}') || c == ' ' || c == '\u{85}' || c == '\u{a0}' || c == '\u{1680}' || ('\u{2000}'
        <= c && c <= '\u{200a}') || c == '\u{2028}' || c == '\u{2029}' || c == '\u{202f}' || c == '\u{205f}' || c
        == '\u{3000}'
}

/// Whether `line` holds nothing but white space.
pub open spec fn blank(line: Seq<char>) -> bool {
    forall|i: int| 0 <= i < line.len() ==> is_white(#[trigger] line[i])
}

/// A line without the carriage return it may end in.
pub open spec fn stripped(line: Seq<char>) -> Seq<char> {
    if line.len() > 0 && line.last() == '\r' {
        line.drop_last()
    } else {
        line
    }
}

/// Seconds between the start and the end of `session`, as far as a `u32` reaches.
pub open spec fn span_total(session: SessionView) -> int {
    let d = clamp_i64(session.ended - session.started);
    if 0 <= d && d <= u32::MAX {
        d
    } else {
        u32::MAX as int
    }
}

/// What came out of a file, as values.
pub struct ReadingView {
    pub sessions: Seq<SessionView>,
    pub unknown_version: nat,
    pub diagnostics: Seq<DiagnosticView>,
}

/// Where the `k`th of `lines` starts in the text they were cut from.
pub open spec fn line_start(lines: Seq<Seq<char>>, k: int) -> int
    decreases k,
{
    if k <= 0 {
        0
    } else {
        line_start(lines, k - 1) + lines[k - 1].len() + 1
    }
}

/// The place in `text` of the file `file` that starts at `offset`.
pub open spec fn location_at(file: Seq<char>, text: Seq<char>, offset: int) -> LocationView {
    LocationView { file, line: place_of(text, offset).0 as usize, column: place_of(text, offset).1 as usize }
}

/// The problems of a session's spans, each a warning at `location`.
pub open spec fn warnings(messages: Seq<Seq<char>>, location: LocationView) -> Seq<DiagnosticView> {
    Seq::new(messages.len(), |i: int| DiagnosticView { severity: Severity::Warning, location: Some(location), message: messages[i] })
}

/// What the first `k` of the `lines` of `text` give.
pub open spec fn reading_upto(file: Seq<char>, text: Seq<char>, lines: Seq<Seq<char>>, k: int) -> ReadingView
    decreases k,
{
    if k <= 0 {
        ReadingView { sessions: Seq::empty(), unknown_version: 0, diagnostics: Seq::empty() }
    } else {
        let before = reading_upto(file, text, lines, k - 1);
        let line = stripped(lines[k - 1]);
        let location = location_at(file, text, line_start(lines, k - 1));
        if blank(line) {
            before
        } else {
            match line_result(line) {
                Ok(session) => ReadingView {
                    sessions: before.sessions.push(session),
                    diagnostics: before.diagnostics + warnings(problems(session.spans, span_total(session)), location),
                    ..before
                },
                Err(ProblemView::UnknownVersion) => ReadingView { unknown_version: before.unknown_version + 1, ..before },
                Err(ProblemView::Broken(reason)) => ReadingView {
                    diagnostics: before.diagnostics.push(
                        DiagnosticView { severity: Severity::Error, location: Some(location), message: reason },
                    ),
                    ..before
                },
            }
        }
    }
}

/// What reading the text `text` of the file `file` gives.
pub open spec fn reading_of(file: Seq<char>, text: Seq<char>) -> ReadingView {
    let lines = split_on(text, '\n');
    reading_upto(file, text, lines, lines.len() as int)
}

/// What came out of a file.
#[derive(Debug, Clone, Default)]
pub struct Reading {
    /// The sessions that could be read, in the order they appeared.
    pub sessions: Vec<Session>,
    /// Lines written by a newer qfocus. They are not broken; this one cannot read them yet.
    pub unknown_version: usize,
    /// Everything that went wrong, each pointing at a file, line and column.
    pub diagnostics: Vec<Diagnostic>,
}

/// The views of `sessions`.
pub open spec fn session_views(sessions: Seq<Session>) -> Seq<SessionView> {
    Seq::new(sessions.len(), |i: int| sessions[i]@)
}

/// The views of `diagnostics`.
pub open spec fn diagnostic_views(diagnostics: Seq<Diagnostic>) -> Seq<DiagnosticView> {
    Seq::new(diagnostics.len(), |i: int| diagnostics[i]@)
}

impl View for Reading {
    type V = ReadingView;

    open spec fn view(&self) -> ReadingView {
        ReadingView {
            sessions: session_views(self.sessions@),
            unknown_version: self.unknown_version as nat,
            diagnostics: diagnostic_views(self.diagnostics@),
        }
    }
}

/// Whether `c` is white space.
pub(crate) fn white(c: char) -> (found: bool)
    ensures
        found == is_white(c),
{
    ('\u{9}' <= c && c <= '\u{d}') || c == ' ' || c == '\u{85}' || c == '\u{a0}' || c == '\u{1680}' || ('\u{2000}'
        <= c && c <= '\u{200a}') || c == '\u{2028}' || c == '\u{2029}' || c == '\u{202f}' || c == '\u{205f}' || c
        == '\u{3000}'
}

/// Whether `line` holds nothing but white space.
fn is_blank(line: &Vec<char>) -> (found: bool)
    ensures
        found == blank(line@),
{
    let mut i: usize = 0;
    while i < line.len()
        invariant
            i <= line@.len(),
            forall|j: int| 0 <= j < i ==> is_white(#[trigger] line@[j]),
        decreases line@.len() - i,
    {
        if !white(line[i]) {
            return false;
        }
        i = i + 1;
    }
    true
}

/// Reads one line of a file into `reading`.
fn read_one(reading: &mut Reading, file: &str, text: &Vec<char>, raw: &Vec<char>, start: usize)
    requires
        raw@.len() > 0 ==> start < text@.len(),
        raw@.len() > 0 ==> old(reading)@.unknown_version < usize::MAX,
    ensures
        ({
            let before = old(reading)@;
            let line = stripped(raw@);
            let location = location_at(file@, text@, start as int);
            final(reading)@ == if blank(line) {
                before
            } else {
                match line_result(line) {
                    Ok(session) => ReadingView {
                        sessions: before.sessions.push(session),
                        diagnostics: before.diagnostics + warnings(problems(session.spans, span_total(session)), location),
                        ..before
                    },
                    Err(ProblemView::UnknownVersion) => ReadingView { unknown_version: before.unknown_version + 1, ..before },
                    Err(ProblemView::Broken(reason)) => ReadingView {
                        diagnostics: before.diagnostics.push(
                            DiagnosticView { severity: Severity::Error, location: Some(location), message: reason },
                        ),
                        ..before
                    },
                }
            }
        }),
{
    let mut line: Vec<char> = crate::session::copy_chars(raw);
    let n = line.len();
    if n > 0 && line[n - 1] == '\r' {
        line.pop();
        assert(line@ =~= raw@.drop_last());
    }
    if is_blank(&line) {
        return;
    }
    let location = Location::from_offset(file, text.as_slice(), start);
    let ghost before = reading@;
    match read_line(line.as_slice()) {
        Ok(session) => {
            let total = span_total_of(&session);
            let found = check(session.spans.as_slice(), total);
            let mut i: usize = 0;
            while i < found.len()
                invariant
                    i <= found@.len(),
                    reading.sessions@ == old(reading).sessions@,
                    reading.unknown_version == old(reading).unknown_version,
                    diagnostic_views(reading.diagnostics@) == before.diagnostics + warnings(
                        Seq::new(found@.len(), |j: int| found@[j]@).subrange(0, i as int),
                        location@,
                    ),
                decreases found@.len() - i,
            {
                let diagnostic = Diagnostic::warning(Some(location.copy()), found[i].clone());
                let ghost previous = diagnostic_views(reading.diagnostics@);
                reading.diagnostics.push(diagnostic);
                proof {
                    let msgs = Seq::new(found@.len(), |j: int| found@[j]@);
                    assert(diagnostic_views(reading.diagnostics@) =~= previous.push(diagnostic@));
                    assert(warnings(msgs.subrange(0, i + 1), location@) =~= warnings(msgs.subrange(0, i as int), location@).push(diagnostic@));
                }
                i = i + 1;
            }
            proof {
                let msgs = Seq::new(found@.len(), |j: int| found@[j]@);
                assert(msgs.subrange(0, found@.len() as int) =~= msgs);
                assert(msgs =~= problems(session@.spans, span_total(session@)));
            }
            let ghost mid = reading@;
            reading.sessions.push(session);
            assert(session_views(reading.sessions@) =~= mid.sessions.push(session@));
        },
        Err(Problem::UnknownVersion) => {
            reading.unknown_version = reading.unknown_version + 1;
        },
        Err(Problem::Broken(reason)) => {
            let diagnostic = Diagnostic::error(Some(location), string_of(&reason));
            reading.diagnostics.push(diagnostic);
            assert(diagnostic_views(reading.diagnostics@) =~= before.diagnostics.push(diagnostic@));
        },
    }
}

/// Seconds between the start and the end of `session`, as far as a `u32` reaches.
fn span_total_of(session: &Session) -> (total: u32)
    ensures
        total == span_total(session@),
{
    let d = crate::arith::sub_i64(session.ended, session.started);
    if 0 <= d && d <= u32::MAX as i64 { d as u32 } else { u32::MAX }
}

/// Reads every session in `text`, skipping the lines it cannot read.
///
/// A broken line never stops the reading and never removes anything: it is skipped, it becomes a
/// diagnostic, and the rest of the file is still used. A line written by a newer version is not
/// broken, so it is counted instead of reported.
pub fn read(file: &str, text: &str) -> (reading: Reading)
    ensures
        reading@ == reading_of(file@, text@),
{
    let chars = chars_of(text);
    let mut reading = Reading { sessions: Vec::new(), unknown_version: 0, diagnostics: Vec::new() };
    let mut current: Vec<char> = Vec::new();
    let mut done: usize = 0;
    let mut start: usize = 0;
    let mut i: usize = 0;
    let ghost lines = split_on(chars@, '\n');
    assert(reading@.sessions =~= Seq::<SessionView>::empty());
    assert(reading@.diagnostics =~= Seq::<DiagnosticView>::empty());
    assert(split_on(chars@.subrange(0, 0), '\n') =~= seq![Seq::<char>::empty()]);
    proof {
        crate::text::lemma_split_on_not_empty(chars@, '\n');
    }
    #[verifier::rlimit(60)]
    while i < chars.len()
        invariant
            i <= chars@.len(),
            chars@ == text@,
            lines == split_on(chars@, '\n'),
            split_on(chars@.subrange(0, i as int), '\n') == lines.subrange(0, done as int).push(current@),
            done < lines.len(),
            start == line_start(lines, done as int),
            start + current@.len() == i,
            reading@ == reading_upto(file@, chars@, lines, done as int),
            reading.unknown_version <= start,
            done <= start,
        decreases chars@.len() - i,
    {
        let ghost prefix = split_on(chars@.subrange(0, i as int), '\n');
        proof {
            lemma_split_on_prefix(chars@, '\n', i as int);
            lemma_split_on_prefix(chars@, '\n', i + 1);
            assert(chars@.subrange(0, i + 1).drop_last() =~= chars@.subrange(0, i as int));
            assert(chars@.subrange(0, i + 1).last() == chars@[i as int]);
        }
        if chars[i] == '\n' {
            proof {
                assert(current@ == prefix.last());
                assert(prefix.last() == lines[done as int]);
            }
            read_one(&mut reading, file, &chars, &current, start);
            current = Vec::new();
            done = done + 1;
            start = i + 1;
            proof {
                assert(lines.subrange(0, done as int) =~= lines.subrange(0, done - 1).push(lines[done - 1]));
                assert(split_on(chars@.subrange(0, i + 1), '\n') =~= lines.subrange(0, done as int).push(current@));
                assert(split_on(chars@.subrange(0, i + 1), '\n').len() <= lines.len());
            }
        } else {
            current.push(chars[i]);
            proof {
                assert(split_on(chars@.subrange(0, i + 1), '\n') =~= lines.subrange(0, done as int).push(current@));
            }
        }
        i = i + 1;
    }
    proof {
        assert(chars@.subrange(0, chars@.len() as int) =~= chars@);
        assert(done + 1 == lines.len());
        assert(current@ == lines[done as int]);
    }
    read_one(&mut reading, file, &chars, &current, start);
    reading
}

/// The parts of a prefix of `text` are the first parts of `text`, the last of them perhaps cut
/// short.
proof fn lemma_split_on_prefix(text: Seq<char>, sep: char, i: int)
    requires
        0 <= i <= text.len(),
    ensures
        split_on(text.subrange(0, i), sep).len() <= split_on(text, sep).len(),
        forall|k: int|
            0 <= k < split_on(text.subrange(0, i), sep).len() - 1 ==> split_on(text.subrange(0, i), sep)[k]
                == #[trigger] split_on(text, sep)[k],
        i < text.len() && text[i] == sep ==> split_on(text.subrange(0, i), sep).last() == split_on(
            text,
            sep,
        )[split_on(text.subrange(0, i), sep).len() - 1],
    decreases text.len() - i,
{
    crate::text::lemma_split_on_not_empty(text.subrange(0, i), sep);
    if i < text.len() {
        lemma_split_on_prefix(text, sep, i + 1);
        assert(text.subrange(0, i + 1).drop_last() =~= text.subrange(0, i));
        crate::text::lemma_split_on_not_empty(text.subrange(0, i + 1), sep);
    } else {
        assert(text.subrange(0, i) =~= text);
    }
}

} // verus!
