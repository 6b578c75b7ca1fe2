//! Sessions as CSV and JSON, for a spreadsheet or another program.
//!
//! Both are written by hand: the shapes are flat and small, and a note is the only field that
//! can carry anything awkward. CSV follows RFC 4180, so a note with a comma, a quote or a line
//! break comes out as one quoted field; JSON escapes what the standard says it must. Times are
//! written in the local time each session was lived in, with its offset beside them, so nothing
//! has to be worked out again on the other side.

use vstd::prelude::*;

use crate::arith::clamp_i64;
use crate::calendar::{Moment, local_moment, moment_at};
use crate::id::Id;
use crate::session::{Flag, Session, SessionView, flag_word, source_word};
use crate::session::line::id_text;
use crate::span::{ClockSource, Span, SpanKind, work_of};
use crate::store::paths::padded;
use crate::store::running::{clock_word_of, kind_word};
use crate::text::{chars_of, decimal, push_chars, push_i64, push_str, push_u64, signed_decimal, string_of, views};
use crate::tree::{Category, CategoryView, Tree, category_views};

verus! {

/// The header line of the CSV, one name per column.
pub const HEADER: &'static str = "id,category,focus,started,ended,offset_minutes,work_seconds,span_seconds,source,flags,note,spans";

/// The names a focus goes by in the catalogue: its category's and its own.
pub struct FocusName {
    /// The focus.
    pub focus: Id,
    /// The name of the category it sits in.
    pub category: String,
    /// Its own name.
    pub name: String,
}

/// Every focus of the catalogue with its names, category by category in the catalogue's order.
pub struct Names {
    pub entries: Vec<FocusName>,
}

/// A focus with its names, as values: the focus, its category's name and its own.
pub open spec fn name_triples(entries: Seq<FocusName>) -> Seq<(Id, Seq<char>, Seq<char>)> {
    entries.map_values(|entry: FocusName| (entry.focus, entry.category@, entry.name@))
}

/// The first `n` focuses of `category`, each with the category's name and its own.
pub open spec fn focus_names(category: CategoryView, n: int) -> Seq<(Id, Seq<char>, Seq<char>)>
    decreases n,
{
    if n <= 0 {
        Seq::empty()
    } else {
        focus_names(category, n - 1).push((category.focuses[n - 1].id, category.name, category.focuses[n - 1].name))
    }
}

/// Every focus of the first `n` categories with its names, category by category.
pub open spec fn catalogue_names(categories: Seq<CategoryView>, n: int) -> Seq<(Id, Seq<char>, Seq<char>)>
    decreases n,
{
    if n <= 0 {
        Seq::empty()
    } else {
        catalogue_names(categories, n - 1) + focus_names(categories[n - 1], categories[n - 1].focuses.len() as int)
    }
}

/// A copy of `text`.
fn copied(text: &String) -> (copy: String)
    ensures
        copy@ == text@,
{
    string_of(&chars_of(text.as_str()))
}

/// Appends every focus of `category` with its names.
fn push_category_names(entries: &mut Vec<FocusName>, category: &Category)
    ensures
        name_triples(final(entries)@) == name_triples(old(entries)@) + focus_names(category@, category.focuses@.len() as int),
{
    let ghost start = name_triples(entries@);
    let mut f: usize = 0;
    while f < category.focuses.len()
        invariant
            f <= category.focuses@.len(),
            name_triples(entries@) == start + focus_names(category@, f as int),
        decreases category.focuses@.len() - f,
    {
        let focus = &category.focuses[f];
        let ghost before = entries@;
        let entry = FocusName { focus: focus.id, category: copied(&category.name), name: copied(&focus.name) };
        entries.push(entry);
        assert(name_triples(entries@) =~= name_triples(before).push((focus.id, category.name@, focus.name@)));
        f = f + 1;
        assert(category@.focuses[f - 1] == focus@);
        assert(name_triples(entries@) =~= start + focus_names(category@, f as int));
    }
}

impl Names {
    /// Every focus of `tree` with its category's name and its own, category by category in the
    /// tree's order and each category's focuses in theirs.
    pub fn of(tree: &Tree) -> (names: Names)
        ensures
            name_triples(names.entries@) == catalogue_names(
                category_views(tree.categories@),
                tree.categories@.len() as int,
            ),
    {
        let mut entries: Vec<FocusName> = Vec::new();
        let mut c: usize = 0;
        while c < tree.categories.len()
            invariant
                c <= tree.categories@.len(),
                name_triples(entries@) == catalogue_names(category_views(tree.categories@), c as int),
            decreases tree.categories@.len() - c,
        {
            push_category_names(&mut entries, &tree.categories[c]);
            c = c + 1;
            assert(category_views(tree.categories@)[c - 1] == tree.categories@[c - 1]@);
        }
        assert(name_triples(entries@) =~= catalogue_names(category_views(tree.categories@), tree.categories@.len() as int));
        Names { entries }
    }
}

/// The names of the first focus among the first `n` entries that is `focus`, or two empty names.
pub open spec fn names_upto(entries: Seq<FocusName>, focus: Id, n: int) -> (Seq<char>, Seq<char>)
    decreases n,
{
    if n <= 0 {
        (Seq::empty(), Seq::empty())
    } else {
        let k = entries.len() - n;
        if entries[k].focus == focus {
            (entries[k].category@, entries[k].name@)
        } else {
            names_upto(entries, focus, n - 1)
        }
    }
}

/// The category and focus names of `focus`, empty when the catalogue no longer has it.
pub open spec fn names_of(entries: Seq<FocusName>, focus: Id) -> (Seq<char>, Seq<char>) {
    names_upto(entries, focus, entries.len() as int)
}

/// `parts` with `sep` between each two of them.
pub open spec fn joined_by(parts: Seq<Seq<char>>, sep: Seq<char>) -> Seq<char>
    decreases parts.len(),
{
    if parts.len() == 0 {
        Seq::empty()
    } else if parts.len() == 1 {
        parts[0]
    } else {
        joined_by(parts.drop_last(), sep) + sep + parts.last()
    }
}

/// A moment as `YYYY-MM-DD HH:MM:SS`.
pub open spec fn local_text(m: Moment) -> Seq<char> {
    padded(m.year as int, 4) + seq!['-'] + padded(m.month as int, 2) + seq!['-'] + padded(m.day as int, 2) + seq![' ']
        + padded(m.hour as int, 2) + seq![':'] + padded(m.minute as int, 2) + seq![':'] + padded(m.second as int, 2)
}

/// One span as `kind:offset:seconds:clock`.
pub open spec fn span_text(span: Span) -> Seq<char> {
    kind_word(span.kind) + seq![':'] + decimal(span.offset as nat) + seq![':'] + decimal(span.seconds as nat) + seq![':']
        + clock_word_of(span.clock)
}

/// Seconds between the start and the end of `session`, held to an `i64`.
pub open spec fn span_seconds_of(session: SessionView) -> int {
    clamp_i64(session.ended - session.started)
}

/// Whether a CSV field has to be quoted: it holds a comma, a quote or a line break.
pub open spec fn needs_quotes(text: Seq<char>) -> bool {
    exists|i: int| 0 <= i < text.len() && (text[i] == ',' || text[i] == '"' || text[i] == '\n' || text[i] == '\r')
}

/// The first `n` characters of `text` with every quote doubled.
pub open spec fn doubled_upto(text: Seq<char>, n: int) -> Seq<char>
    decreases n,
{
    if n <= 0 {
        Seq::empty()
    } else if text[n - 1] == '"' {
        doubled_upto(text, n - 1) + seq!['"', '"']
    } else {
        doubled_upto(text, n - 1).push(text[n - 1])
    }
}

/// One CSV field: quoted, with quotes doubled, whenever it holds a comma, a quote or a line
/// break; as it is otherwise.
pub open spec fn csv_text(text: Seq<char>) -> Seq<char> {
    if needs_quotes(text) {
        seq!['"'] + doubled_upto(text, text.len() as int) + seq!['"']
    } else {
        text
    }
}

/// One character of a JSON string as it is written.
pub open spec fn json_char(c: char) -> Seq<char> {
    if c == '"' {
        seq!['\\', '"']
    } else if c == '\\' {
        seq!['\\', '\\']
    } else if c == '\n' {
        seq!['\\', 'n']
    } else if c == '\r' {
        seq!['\\', 'r']
    } else if c == '\t' {
        seq!['\\', 't']
    } else if (c as u32) < 0x20 {
        seq!['\\', 'u', '0', '0', lower_hex((c as u32 / 16) as nat), lower_hex((c as u32 % 16) as nat)]
    } else {
        seq![c]
    }
}

/// The lower-case hexadecimal digit of `d`.
pub open spec fn lower_hex(d: nat) -> char {
    if d < 10 {
        (48 + d) as char
    } else {
        (87 + d) as char
    }
}

/// The first `n` characters of `text` as they are written inside a JSON string.
pub open spec fn json_upto(text: Seq<char>, n: int) -> Seq<char>
    decreases n,
{
    if n <= 0 {
        Seq::empty()
    } else {
        json_upto(text, n - 1) + json_char(text[n - 1])
    }
}

/// `text` as a JSON string with its quotes.
pub open spec fn json_text(text: Seq<char>) -> Seq<char> {
    seq!['"'] + json_upto(text, text.len() as int) + seq!['"']
}

/// The fields of the CSV line of `session`, in the order of the header.
pub open spec fn csv_fields(session: SessionView, entries: Seq<FocusName>) -> Seq<Seq<char>> {
    let (category, focus) = names_of(entries, session.focus);
    seq![
        id_text(session.id),
        category,
        focus,
        local_text(moment_at(session.started, session.offset_minutes)),
        local_text(moment_at(session.ended, session.offset_minutes)),
        signed_decimal(session.offset_minutes as int),
        decimal(work_of(session.spans) as nat),
        signed_decimal(span_seconds_of(session)),
        source_word(session.source),
        joined_by(Seq::new(session.flags.len(), |i: int| flag_word(session.flags[i])), " "@),
        session.note,
        joined_by(Seq::new(session.spans.len(), |i: int| span_text(session.spans[i])), " "@),
    ]
}

/// The CSV line of `session`, its ending included.
pub open spec fn csv_line(session: SessionView, entries: Seq<FocusName>) -> Seq<char> {
    let fields = csv_fields(session, entries);
    joined_by(Seq::new(fields.len(), |i: int| csv_text(fields[i])), ","@) + "\r\n"@
}

/// The CSV lines of the first `n` sessions.
pub open spec fn csv_lines_upto(sessions: Seq<SessionView>, entries: Seq<FocusName>, n: int) -> Seq<char>
    decreases n,
{
    if n <= 0 {
        Seq::empty()
    } else {
        csv_lines_upto(sessions, entries, n - 1) + csv_line(sessions[n - 1], entries)
    }
}

/// What [`csv`] writes.
pub open spec fn csv_of(sessions: Seq<SessionView>, entries: Seq<FocusName>) -> Seq<char> {
    HEADER@ + "\r\n"@ + csv_lines_upto(sessions, entries, sessions.len() as int)
}

/// One span as a JSON object.
pub open spec fn span_json(span: Span) -> Seq<char> {
    "{\"kind\": "@ + json_text(kind_word(span.kind)) + ", \"offset\": "@ + decimal(span.offset as nat) + ", \"seconds\": "@
        + decimal(span.seconds as nat) + ", \"clock\": "@ + json_text(clock_word_of(span.clock)) + "}"@
}

/// One `"key": value` line of a JSON object.
pub open spec fn pair(key: Seq<char>, value: Seq<char>) -> Seq<char> {
    "    \""@ + key + "\": "@ + value
}

/// The lines of the JSON object of `session`.
pub open spec fn json_pairs(session: SessionView, entries: Seq<FocusName>) -> Seq<Seq<char>> {
    let (category, focus) = names_of(entries, session.focus);
    seq![
        pair("id"@, json_text(id_text(session.id))),
        pair("category"@, json_text(category)),
        pair("focus"@, json_text(focus)),
        pair("started"@, json_text(local_text(moment_at(session.started, session.offset_minutes)))),
        pair("ended"@, json_text(local_text(moment_at(session.ended, session.offset_minutes)))),
        pair("started_unix"@, signed_decimal(session.started as int)),
        pair("ended_unix"@, signed_decimal(session.ended as int)),
        pair("offset_minutes"@, signed_decimal(session.offset_minutes as int)),
        pair("work_seconds"@, decimal(work_of(session.spans) as nat)),
        pair("span_seconds"@, signed_decimal(span_seconds_of(session))),
        pair("source"@, json_text(source_word(session.source))),
        pair("flags"@, "["@ + joined_by(Seq::new(session.flags.len(), |i: int| json_text(flag_word(session.flags[i]))), ", "@) + "]"@),
        pair("note"@, json_text(session.note)),
        pair("spans"@, "["@ + joined_by(Seq::new(session.spans.len(), |i: int| span_json(session.spans[i])), ", "@) + "]"@),
    ]
}

/// The JSON object of `session`, indented as an element of the array.
#[verifier::opaque]
pub open spec fn json_object(session: SessionView, entries: Seq<FocusName>) -> Seq<char> {
    "  {\n"@ + joined_by(json_pairs(session, entries), ",\n"@) + "\n  }"@
}

/// The JSON objects of the first `n` sessions, separated by `,` and a line break.
pub open spec fn json_objects_upto(sessions: Seq<SessionView>, entries: Seq<FocusName>, n: int) -> Seq<char>
    decreases n,
{
    if n <= 0 {
        Seq::empty()
    } else if n == 1 {
        json_object(sessions[0], entries)
    } else {
        json_objects_upto(sessions, entries, n - 1) + ",\n"@ + json_object(sessions[n - 1], entries)
    }
}

/// What [`json`] writes.
pub open spec fn json_of(sessions: Seq<SessionView>, entries: Seq<FocusName>) -> Seq<char> {
    if sessions.len() == 0 {
        "[]\n"@
    } else {
        "[\n"@ + json_objects_upto(sessions, entries, sessions.len() as int) + "\n]\n"@
    }
}

/// Whether every session's work fits in a `u64`, as the columns that carry it need.
pub open spec fn work_fits(sessions: Seq<SessionView>) -> bool {
    forall|i: int| 0 <= i < sessions.len() ==> work_of(#[trigger] sessions[i].spans) <= u64::MAX
}

/// Appends `parts` with `sep` between each two of them.
fn push_joined(out: &mut Vec<char>, parts: &Vec<Vec<char>>, sep: &str)
    ensures
        final(out)@ == old(out)@ + joined_by(views(parts@), sep@),
{
    let ghost start = out@;
    let mut i: usize = 0;
    while i < parts.len()
        invariant
            i <= parts@.len(),
            out@ == start + joined_by(views(parts@).subrange(0, i as int), sep@),
        decreases parts@.len() - i,
    {
        if i > 0 {
            push_str(out, sep);
        }
        push_chars(out, &parts[i]);
        proof {
            let vs = views(parts@);
            assert(vs.subrange(0, i + 1).drop_last() =~= vs.subrange(0, i as int));
            if i == 0 {
                assert(out@ =~= start + joined_by(vs.subrange(0, 1), sep@));
            } else {
                assert(out@ =~= start + joined_by(vs.subrange(0, i + 1), sep@));
            }
        }
        i = i + 1;
    }
    assert(views(parts@).subrange(0, parts@.len() as int) =~= views(parts@));
}

/// The category and focus names of `focus`, empty when the catalogue no longer has them.
fn names(catalog: &Names, focus: Id) -> (found: (Vec<char>, Vec<char>))
    ensures
        (found.0@, found.1@) == names_of(catalog.entries@, focus),
{
    let n = catalog.entries.len();
    let mut k: usize = 0;
    while k < n
        invariant
            n == catalog.entries@.len(),
            k <= n,
            names_of(catalog.entries@, focus) == names_upto(catalog.entries@, focus, (n - k) as int),
        decreases n - k,
    {
        if catalog.entries[k].focus == focus {
            return (chars_of(catalog.entries[k].category.as_str()), chars_of(catalog.entries[k].name.as_str()));
        }
        k = k + 1;
    }
    (Vec::new(), Vec::new())
}

/// Appends a moment as `YYYY-MM-DD HH:MM:SS` in the offset given.
fn push_local(out: &mut Vec<char>, seconds: i64, offset_minutes: i16)
    ensures
        final(out)@ == old(out)@ + local_text(moment_at(seconds, offset_minutes)),
{
    let m = local_moment(seconds, offset_minutes);
    let ghost start = out@;
    crate::store::paths::push_padded(out, m.year as i64, 4);
    out.push('-');
    crate::store::paths::push_padded(out, m.month as i64, 2);
    out.push('-');
    crate::store::paths::push_padded(out, m.day as i64, 2);
    out.push(' ');
    crate::store::paths::push_padded(out, m.hour as i64, 2);
    out.push(':');
    crate::store::paths::push_padded(out, m.minute as i64, 2);
    out.push(':');
    crate::store::paths::push_padded(out, m.second as i64, 2);
    assert(out@ =~= start + local_text(moment_at(seconds, offset_minutes)));
}

/// Appends one span as `kind:offset:seconds:clock`.
fn push_span_text(out: &mut Vec<char>, span: Span)
    ensures
        final(out)@ == old(out)@ + span_text(span),
{
    let ghost start = out@;
    push_str(out, crate::store::running::span_kind_word(span.kind));
    out.push(':');
    push_u64(out, span.offset as u64);
    out.push(':');
    push_u64(out, span.seconds as u64);
    out.push(':');
    push_str(out, crate::store::running::clock_word(span.clock));
    assert(out@ =~= start + span_text(span));
}

/// Seconds between the start and the end of `session`.
pub fn span_seconds(session: &Session) -> (seconds: i64)
    ensures
        seconds == span_seconds_of(session@),
{
    crate::arith::sub_i64(session.ended, session.started)
}

/// The CSV field of `text`, as characters.
fn csv_chars(text: &Vec<char>) -> (field: Vec<char>)
    ensures
        field@ == csv_text(text@),
{
    let mut quoted = false;
    let mut i: usize = 0;
    while i < text.len()
        invariant
            i <= text@.len(),
            quoted == exists|j: int| 0 <= j < i && (text@[j] == ',' || text@[j] == '"' || text@[j] == '\n' || text@[j] == '\r'),
        decreases text@.len() - i,
    {
        let c = text[i];
        if c == ',' || c == '"' || c == '\n' || c == '\r' {
            quoted = true;
        }
        i = i + 1;
    }
    if !quoted {
        let mut same: Vec<char> = Vec::new();
        push_chars(&mut same, text);
        return same;
    }
    let mut out: Vec<char> = Vec::new();
    out.push('"');
    let mut k: usize = 0;
    while k < text.len()
        invariant
            k <= text@.len(),
            out@ == seq!['"'] + doubled_upto(text@, k as int),
        decreases text@.len() - k,
    {
        if text[k] == '"' {
            out.push('"');
            out.push('"');
        } else {
            out.push(text[k]);
        }
        k = k + 1;
        assert(out@ =~= seq!['"'] + doubled_upto(text@, k as int));
    }
    out.push('"');
    out
}

/// One CSV field: quoted, with quotes doubled, whenever it holds a comma, a quote or a line
/// break; as it is otherwise.
pub fn csv_field(text: &str) -> (field: String)
    ensures
        field@ == csv_text(text@),
{
    let chars = chars_of(text);
    string_of(&csv_chars(&chars))
}

/// Appends one character as it is written inside a JSON string.
fn push_json_char(out: &mut Vec<char>, c: char)
    ensures
        final(out)@ == old(out)@ + json_char(c),
{
    if c == '"' {
        out.push('\\');
        out.push('"');
    } else if c == '\\' {
        out.push('\\');
        out.push('\\');
    } else if c == '\n' {
        out.push('\\');
        out.push('n');
    } else if c == '\r' {
        out.push('\\');
        out.push('r');
    } else if c == '\t' {
        out.push('\\');
        out.push('t');
    } else if (c as u32) < 0x20 {
        let v = c as u32;
        let high = v / 16;
        let low = v % 16;
        out.push('\\');
        out.push('u');
        out.push('0');
        out.push('0');
        out.push(if high < 10 { (48 + high) as u8 as char } else { (87 + high) as u8 as char });
        out.push(if low < 10 { (48 + low) as u8 as char } else { (87 + low) as u8 as char });
    } else {
        out.push(c);
    }
    assert(out@ =~= old(out)@ + json_char(c));
}

/// Appends `text` as a JSON string with its quotes.
fn push_json(out: &mut Vec<char>, text: &Vec<char>)
    ensures
        final(out)@ == old(out)@ + json_text(text@),
{
    let ghost start = out@;
    out.push('"');
    let mut i: usize = 0;
    while i < text.len()
        invariant
            i <= text@.len(),
            out@ == start + seq!['"'] + json_upto(text@, i as int),
        decreases text@.len() - i,
    {
        push_json_char(out, text[i]);
        i = i + 1;
        assert(out@ =~= start + seq!['"'] + json_upto(text@, i as int));
    }
    out.push('"');
    assert(out@ =~= start + json_text(text@));
}

/// `text` as a JSON string with its quotes.
pub fn json_string(text: &str) -> (json: String)
    ensures
        json@ == json_text(text@),
{
    let mut out: Vec<char> = Vec::new();
    push_json(&mut out, &chars_of(text));
    string_of(&out)
}

/// The views of a vector of texts grow by the view of what was pushed.
proof fn lemma_views_push(before: Seq<Vec<char>>, after: Seq<Vec<char>>)
    requires
        after.len() == before.len() + 1,
        forall|k: int| 0 <= k < before.len() ==> after[k] == before[k],
    ensures
        views(after) == views(before).push(after.last()@),
{
    assert(views(after) =~= views(before).push(after.last()@));
}

/// `parts` with `sep` between each two of them, as characters of their own.
fn joined_chars(parts: &Vec<Vec<char>>, sep: &str) -> (out: Vec<char>)
    ensures
        out@ == joined_by(views(parts@), sep@),
{
    let mut out: Vec<char> = Vec::new();
    push_joined(&mut out, parts, sep);
    assert(out@ =~= joined_by(views(parts@), sep@));
    out
}

/// The words of `flags`, each as characters of its own.
fn flag_parts(flags: &Vec<Flag>) -> (parts: Vec<Vec<char>>)
    ensures
        views(parts@) == Seq::new(flags@.len(), |i: int| flag_word(flags@[i])),
{
    let mut parts: Vec<Vec<char>> = Vec::new();
    let mut i: usize = 0;
    while i < flags.len()
        invariant
            i <= flags@.len(),
            views(parts@) == Seq::new(i as nat, |k: int| flag_word(flags@[k])),
        decreases flags@.len() - i,
    {
        let ghost before = parts@;
        parts.push(chars_of(flags[i].as_str()));
        proof {
            lemma_views_push(before, parts@);
        }
        i = i + 1;
        assert(views(parts@) =~= Seq::new(i as nat, |k: int| flag_word(flags@[k])));
    }
    parts
}

/// The JSON strings of the words of `flags`.
fn flag_json_parts(flags: &Vec<Flag>) -> (parts: Vec<Vec<char>>)
    ensures
        views(parts@) == Seq::new(flags@.len(), |i: int| json_text(flag_word(flags@[i]))),
{
    let mut parts: Vec<Vec<char>> = Vec::new();
    let mut i: usize = 0;
    while i < flags.len()
        invariant
            i <= flags@.len(),
            views(parts@) == Seq::new(i as nat, |k: int| json_text(flag_word(flags@[k]))),
        decreases flags@.len() - i,
    {
        let mut part: Vec<char> = Vec::new();
        push_json(&mut part, &chars_of(flags[i].as_str()));
        assert(part@ =~= json_text(flag_word(flags@[i as int])));
        let ghost before = parts@;
        parts.push(part);
        proof {
            lemma_views_push(before, parts@);
        }
        i = i + 1;
        assert(views(parts@) =~= Seq::new(i as nat, |k: int| json_text(flag_word(flags@[k]))));
    }
    parts
}

/// The texts of `spans`, each as characters of its own.
fn span_parts(spans: &Vec<Span>) -> (parts: Vec<Vec<char>>)
    ensures
        views(parts@) == Seq::new(spans@.len(), |i: int| span_text(spans@[i])),
{
    let mut parts: Vec<Vec<char>> = Vec::new();
    let mut i: usize = 0;
    while i < spans.len()
        invariant
            i <= spans@.len(),
            views(parts@) == Seq::new(i as nat, |k: int| span_text(spans@[k])),
        decreases spans@.len() - i,
    {
        let mut part: Vec<char> = Vec::new();
        push_span_text(&mut part, spans[i]);
        assert(part@ =~= span_text(spans@[i as int]));
        let ghost before = parts@;
        parts.push(part);
        proof {
            lemma_views_push(before, parts@);
        }
        i = i + 1;
        assert(views(parts@) =~= Seq::new(i as nat, |k: int| span_text(spans@[k])));
    }
    parts
}

/// Appends one span as a JSON object.
fn push_span_json(out: &mut Vec<char>, span: Span)
    ensures
        final(out)@ == old(out)@ + span_json(span),
{
    let ghost start = out@;
    push_str(out, "{\"kind\": ");
    push_json(out, &chars_of(crate::store::running::span_kind_word(span.kind)));
    push_str(out, ", \"offset\": ");
    push_u64(out, span.offset as u64);
    push_str(out, ", \"seconds\": ");
    push_u64(out, span.seconds as u64);
    push_str(out, ", \"clock\": ");
    push_json(out, &chars_of(crate::store::running::clock_word(span.clock)));
    push_str(out, "}");
    assert(out@ =~= start + span_json(span));
}

/// The JSON objects of `spans`.
fn span_json_parts(spans: &Vec<Span>) -> (parts: Vec<Vec<char>>)
    ensures
        views(parts@) == Seq::new(spans@.len(), |i: int| span_json(spans@[i])),
{
    let mut parts: Vec<Vec<char>> = Vec::new();
    let mut i: usize = 0;
    while i < spans.len()
        invariant
            i <= spans@.len(),
            views(parts@) == Seq::new(i as nat, |k: int| span_json(spans@[k])),
        decreases spans@.len() - i,
    {
        let mut part: Vec<char> = Vec::new();
        push_span_json(&mut part, spans[i]);
        assert(part@ =~= span_json(spans@[i as int]));
        let ghost before = parts@;
        parts.push(part);
        proof {
            lemma_views_push(before, parts@);
        }
        i = i + 1;
        assert(views(parts@) =~= Seq::new(i as nat, |k: int| span_json(spans@[k])));
    }
    parts
}

/// Characters of a moment as `YYYY-MM-DD HH:MM:SS`.
fn local_chars(seconds: i64, offset_minutes: i16) -> (text: Vec<char>)
    ensures
        text@ == local_text(moment_at(seconds, offset_minutes)),
{
    let mut out: Vec<char> = Vec::new();
    push_local(&mut out, seconds, offset_minutes);
    assert(out@ =~= local_text(moment_at(seconds, offset_minutes)));
    out
}

/// Characters of a whole number.
fn signed_chars(n: i64) -> (text: Vec<char>)
    ensures
        text@ == signed_decimal(n as int),
{
    let mut out: Vec<char> = Vec::new();
    push_i64(&mut out, n);
    assert(out@ =~= signed_decimal(n as int));
    out
}

/// Characters of a count.
fn unsigned_chars(n: u64) -> (text: Vec<char>)
    ensures
        text@ == decimal(n as nat),
{
    let mut out: Vec<char> = Vec::new();
    push_u64(&mut out, n);
    assert(out@ =~= decimal(n as nat));
    out
}

/// Appends the CSV line of `session`.
fn push_csv_line(out: &mut Vec<char>, session: &Session, catalog: &Names)
    requires
        work_of(session.spans@) <= u64::MAX,
    ensures
        final(out)@ == old(out)@ + csv_line(session@, catalog.entries@),
{
    let (category, focus) = names(catalog, session.focus);
    let mut id_chars: Vec<char> = Vec::new();
    session.id.write_to(&mut id_chars);
    let mut fields: Vec<Vec<char>> = Vec::new();
    fields.push(id_chars);
    fields.push(category);
    fields.push(focus);
    fields.push(local_chars(session.started, session.offset_minutes));
    fields.push(local_chars(session.ended, session.offset_minutes));
    fields.push(signed_chars(session.offset_minutes as i64));
    fields.push(unsigned_chars(session.work_seconds()));
    fields.push(signed_chars(span_seconds(session)));
    fields.push(chars_of(session.source.as_str()));
    fields.push(joined_chars(&flag_parts(&session.flags), " "));
    fields.push(chars_of(session.note.as_str()));
    fields.push(joined_chars(&span_parts(&session.spans), " "));
    let ghost want = csv_fields(session@, catalog.entries@);
    assert(views(fields@) =~~= want);
    let mut quoted: Vec<Vec<char>> = Vec::new();
    let mut i: usize = 0;
    while i < fields.len()
        invariant
            i <= fields@.len(),
            views(fields@) == want,
            views(quoted@) == Seq::new(i as nat, |k: int| csv_text(want[k])),
        decreases fields@.len() - i,
    {
        let ghost before = quoted@;
        quoted.push(csv_chars(&fields[i]));
        proof {
            lemma_views_push(before, quoted@);
        }
        i = i + 1;
        assert(views(quoted@) =~= Seq::new(i as nat, |k: int| csv_text(want[k])));
    }
    push_joined(out, &quoted, ",");
    push_str(out, "\r\n");
}

/// `sessions` as CSV: a header naming the columns, then one line per session.
///
/// Spans are written in one cell as `kind:offset:seconds:clock` words separated by spaces, so a
/// spreadsheet keeps one row per session. Lines end in `\r\n` as the standard asks.
pub fn csv(sessions: &[Session], catalog: &Names) -> (text: String)
    requires
        work_fits(crate::session::line::session_views(sessions@)),
    ensures
        text@ == csv_of(crate::session::line::session_views(sessions@), catalog.entries@),
{
    let ghost vs = crate::session::line::session_views(sessions@);
    let mut out: Vec<char> = Vec::new();
    push_str(&mut out, HEADER);
    push_str(&mut out, "\r\n");
    let mut i: usize = 0;
    while i < sessions.len()
        invariant
            i <= sessions@.len(),
            vs == crate::session::line::session_views(sessions@),
            work_fits(vs),
            out@ == HEADER@ + "\r\n"@ + csv_lines_upto(vs, catalog.entries@, i as int),
        decreases sessions@.len() - i,
    {
        assert(work_of(vs[i as int].spans) <= u64::MAX);
        push_csv_line(&mut out, &sessions[i], catalog);
        i = i + 1;
        assert(out@ =~= HEADER@ + "\r\n"@ + csv_lines_upto(vs, catalog.entries@, i as int));
    }
    string_of(&out)
}

/// The `"key": value` line of a JSON object, as characters.
fn pair_chars(key: &str, value: &Vec<char>) -> (line: Vec<char>)
    ensures
        line@ == pair(key@, value@),
{
    let mut out: Vec<char> = Vec::new();
    push_str(&mut out, "    \"");
    push_str(&mut out, key);
    push_str(&mut out, "\": ");
    push_chars(&mut out, value);
    assert(out@ =~= pair(key@, value@));
    out
}

/// `text` as a JSON string, as characters.
fn json_chars(text: &Vec<char>) -> (json: Vec<char>)
    ensures
        json@ == json_text(text@),
{
    let mut out: Vec<char> = Vec::new();
    push_json(&mut out, text);
    assert(out@ =~= json_text(text@));
    out
}

/// `[`, the parts separated by `, `, `]`.
fn bracketed(parts: &Vec<Vec<char>>) -> (text: Vec<char>)
    ensures
        text@ == "["@ + joined_by(views(parts@), ", "@) + "]"@,
{
    let mut out: Vec<char> = Vec::new();
    push_str(&mut out, "[");
    push_joined(&mut out, parts, ", ");
    push_str(&mut out, "]");
    out
}

/// Appends the JSON object of `session`.
fn push_json_object(out: &mut Vec<char>, session: &Session, catalog: &Names)
    requires
        work_of(session.spans@) <= u64::MAX,
    ensures
        final(out)@ == old(out)@ + json_object(session@, catalog.entries@),
{
    let (category, focus) = names(catalog, session.focus);
    let mut id_chars: Vec<char> = Vec::new();
    session.id.write_to(&mut id_chars);
    let mut lines: Vec<Vec<char>> = Vec::new();
    lines.push(pair_chars("id", &json_chars(&id_chars)));
    lines.push(pair_chars("category", &json_chars(&category)));
    lines.push(pair_chars("focus", &json_chars(&focus)));
    lines.push(pair_chars("started", &json_chars(&local_chars(session.started, session.offset_minutes))));
    lines.push(pair_chars("ended", &json_chars(&local_chars(session.ended, session.offset_minutes))));
    lines.push(pair_chars("started_unix", &signed_chars(session.started)));
    lines.push(pair_chars("ended_unix", &signed_chars(session.ended)));
    lines.push(pair_chars("offset_minutes", &signed_chars(session.offset_minutes as i64)));
    lines.push(pair_chars("work_seconds", &unsigned_chars(session.work_seconds())));
    lines.push(pair_chars("span_seconds", &signed_chars(span_seconds(session))));
    lines.push(pair_chars("source", &json_chars(&chars_of(session.source.as_str()))));
    lines.push(pair_chars("flags", &bracketed(&flag_json_parts(&session.flags))));
    lines.push(pair_chars("note", &json_chars(&chars_of(session.note.as_str()))));
    lines.push(pair_chars("spans", &bracketed(&span_json_parts(&session.spans))));
    assert(views(lines@) =~~= json_pairs(session@, catalog.entries@));
    push_str(out, "  {\n");
    push_joined(out, &lines, ",\n");
    push_str(out, "\n  }");
    proof {
        reveal(json_object);
    }
}

/// `sessions` as a JSON array of objects, one per session, with the spans as an array inside.
pub fn json(sessions: &[Session], catalog: &Names) -> (text: String)
    requires
        work_fits(crate::session::line::session_views(sessions@)),
    ensures
        text@ == json_of(crate::session::line::session_views(sessions@), catalog.entries@),
{
    let ghost vs = crate::session::line::session_views(sessions@);
    if sessions.len() == 0 {
        return "[]\n".to_string();
    }
    let mut out: Vec<char> = Vec::new();
    push_str(&mut out, "[\n");
    let mut i: usize = 0;
    while i < sessions.len()
        invariant
            i <= sessions@.len(),
            vs == crate::session::line::session_views(sessions@),
            work_fits(vs),
            out@ == "[\n"@ + json_objects_upto(vs, catalog.entries@, i as int),
        decreases sessions@.len() - i,
    {
        if i > 0 {
            push_str(&mut out, ",\n");
        }
        assert(work_of(vs[i as int].spans) <= u64::MAX);
        push_json_object(&mut out, &sessions[i], catalog);
        i = i + 1;
        assert(out@ =~= "[\n"@ + json_objects_upto(vs, catalog.entries@, i as int));
    }
    push_str(&mut out, "\n]\n");
    string_of(&out)
}

/// The value of `key` on one line of a JSON object: what follows the key and its colon.
pub open spec fn value_of_key(line: Seq<char>, key: Seq<char>) -> Option<Seq<char>> {
    let head = "    \""@ + key + "\": "@;
    if line.len() >= head.len() && line.subrange(0, head.len() as int) == head {
        Some(line.subrange(head.len() as int, line.len() as int))
    } else {
        None
    }
}

/// A line made of a key and a value gives that value back under that key.
proof fn lemma_value_of_pair(key: Seq<char>, value: Seq<char>)
    ensures
        value_of_key(pair(key, value), key) == Some(value),
{
    let head = "    \""@ + key + "\": "@;
    assert(pair(key, value) =~= head + value);
    assert((head + value).subrange(0, head.len() as int) =~= head);
    assert((head + value).subrange(head.len() as int, (head + value).len() as int) =~= value);
}

/// The fourth and fifth lines of a session's object: its start and its end.
proof fn lemma_time_pairs(session: SessionView, entries: Seq<FocusName>)
    ensures
        json_pairs(session, entries)[3] == pair("started"@, json_text(local_text(moment_at(session.started, session.offset_minutes)))),
        json_pairs(session, entries)[4] == pair("ended"@, json_text(local_text(moment_at(session.ended, session.offset_minutes)))),
{
}

/// The start and the end of a session are written the same way, each from its own moment: the
/// `ended` value of a session is the `started` value a session would have that started when this
/// one ended, and it is the local date and time of the end in the session's offset. So it is the
/// text of the start only where the two moments read alike, and changing the start alone leaves
/// it as it is.
pub proof fn law_the_end_is_written_from_the_end(session: SessionView, entries: Seq<FocusName>, started: i64)
    ensures
        value_of_key(json_pairs(session, entries)[4], "ended"@) == Some(
            json_text(local_text(moment_at(session.ended, session.offset_minutes))),
        ),
        value_of_key(json_pairs(session, entries)[4], "ended"@) == value_of_key(
            json_pairs(SessionView { started: session.ended, ..session }, entries)[3],
            "started"@,
        ),
        json_pairs(SessionView { started, ..session }, entries)[4] == json_pairs(session, entries)[4],
        value_of_key(json_pairs(session, entries)[3], "started"@) == Some(
            json_text(local_text(moment_at(session.started, session.offset_minutes))),
        ),
{
    let moved = SessionView { started: session.ended, ..session };
    let other = SessionView { started, ..session };
    lemma_time_pairs(session, entries);
    lemma_time_pairs(moved, entries);
    lemma_time_pairs(other, entries);
    lemma_value_of_pair("ended"@, json_text(local_text(moment_at(session.ended, session.offset_minutes))));
    lemma_value_of_pair("started"@, json_text(local_text(moment_at(session.started, session.offset_minutes))));
    lemma_value_of_pair("started"@, json_text(local_text(moment_at(moved.started, moved.offset_minutes))));
}

/// The keys of a session's object, in the order they are written.
pub open spec fn json_keys() -> Seq<Seq<char>> {
    seq![
        "id"@, "category"@, "focus"@, "started"@, "ended"@, "started_unix"@, "ended_unix"@, "offset_minutes"@,
        "work_seconds"@, "span_seconds"@, "source"@, "flags"@, "note"@, "spans"@,
    ]
}

/// The lines of a session's object that carry numbers.
proof fn lemma_number_pairs(session: SessionView, entries: Seq<FocusName>)
    ensures
        json_pairs(session, entries).len() == 14,
        json_pairs(session, entries)[5] == pair("started_unix"@, signed_decimal(session.started as int)),
        json_pairs(session, entries)[6] == pair("ended_unix"@, signed_decimal(session.ended as int)),
        json_pairs(session, entries)[7] == pair("offset_minutes"@, signed_decimal(session.offset_minutes as int)),
        forall|i: int| 0 <= i < 14 ==> exists|v: Seq<char>| #[trigger] json_pairs(session, entries)[i] == pair(json_keys()[i], v),
{
    let p = json_pairs(session, entries);
    assert forall|i: int| 0 <= i < 14 implies exists|v: Seq<char>| #[trigger] json_pairs(session, entries)[i] == pair(json_keys()[i], v) by {
        if i == 0 { assert(p[0] == pair(json_keys()[0], json_text(id_text(session.id)))); }
        else if i == 1 { assert(p[1] == pair(json_keys()[1], json_text(names_of(entries, session.focus).0))); }
        else if i == 2 { assert(p[2] == pair(json_keys()[2], json_text(names_of(entries, session.focus).1))); }
        else if i == 3 { assert(p[3] == pair(json_keys()[3], json_text(local_text(moment_at(session.started, session.offset_minutes))))); }
        else if i == 4 { assert(p[4] == pair(json_keys()[4], json_text(local_text(moment_at(session.ended, session.offset_minutes))))); }
        else if i == 5 { assert(p[5] == pair(json_keys()[5], signed_decimal(session.started as int))); }
        else if i == 6 { assert(p[6] == pair(json_keys()[6], signed_decimal(session.ended as int))); }
        else if i == 7 { assert(p[7] == pair(json_keys()[7], signed_decimal(session.offset_minutes as int))); }
        else if i == 8 { assert(p[8] == pair(json_keys()[8], decimal(work_of(session.spans) as nat))); }
        else if i == 9 { assert(p[9] == pair(json_keys()[9], signed_decimal(span_seconds_of(session)))); }
        else if i == 10 { assert(p[10] == pair(json_keys()[10], json_text(source_word(session.source)))); }
        else if i == 11 { assert(p[11] == pair(json_keys()[11], "["@ + joined_by(Seq::new(session.flags.len(), |i: int| json_text(flag_word(session.flags[i]))), ", "@) + "]"@)); }
        else if i == 12 { assert(p[12] == pair(json_keys()[12], json_text(session.note))); }
        else { assert(p[13] == pair(json_keys()[13], "["@ + joined_by(Seq::new(session.spans.len(), |i: int| span_json(session.spans[i])), ", "@) + "]"@)); }
    }
}

/// Every line of a session's object carries its own key, in the order of [`json_keys`]; and the
/// moments in seconds since the epoch, and the offset, read back as the session's own start, end
/// and offset, each from its own field.
pub proof fn law_each_key_carries_its_own_field(session: SessionView, entries: Seq<FocusName>)
    ensures
        json_pairs(session, entries).len() == json_keys().len(),
        forall|i: int|
            0 <= i < 14 ==> (#[trigger] value_of_key(json_pairs(session, entries)[i], json_keys()[i])) is Some,
        value_of_key(json_pairs(session, entries)[5], "started_unix"@) matches Some(v) && crate::text::signed_value(v) == Some(
            session.started as int,
        ),
        value_of_key(json_pairs(session, entries)[6], "ended_unix"@) matches Some(v) && crate::text::signed_value(v) == Some(
            session.ended as int,
        ),
        value_of_key(json_pairs(session, entries)[7], "offset_minutes"@) matches Some(v) && crate::text::signed_value(v) == Some(
            session.offset_minutes as int,
        ),
{
    lemma_number_pairs(session, entries);
    assert forall|i: int| 0 <= i < 14 implies (#[trigger] value_of_key(json_pairs(session, entries)[i], json_keys()[i])) is Some by {
        let v = choose|v: Seq<char>| json_pairs(session, entries)[i] == pair(json_keys()[i], v);
        lemma_value_of_pair(json_keys()[i], v);
    }
    lemma_value_of_pair("started_unix"@, signed_decimal(session.started as int));
    lemma_value_of_pair("ended_unix"@, signed_decimal(session.ended as int));
    lemma_value_of_pair("offset_minutes"@, signed_decimal(session.offset_minutes as int));
    crate::text::lemma_signed_decimal_reads_back(session.started as int);
    crate::text::lemma_signed_decimal_reads_back(session.ended as int);
    crate::text::lemma_signed_decimal_reads_back(session.offset_minutes as int);
}

} // verus!
