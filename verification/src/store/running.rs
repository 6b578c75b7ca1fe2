//! The running counter on disk, so a crash or a power cut does not lose the session in progress.
//!
//! While a counter runs its state is written to `running-<machine>.toml` every few seconds and at
//! every change of span. It holds the focus, the start, the spans, the break and the flags, and
//! when there are ones the countdown target and where a silence nobody answered for began.
//!
//! `watch` says who measures the counter: a window that refreshes the file every few seconds, or
//! nobody, for a counter the command line started or a window left running. How far a counter
//! reaches when the program comes back depends on it; see [`crate::liveness`].
//!
//! The first line, `format = 2`, says the file comes from a writer that records every silence
//! still waiting for an answer under `idle-from`.

use vstd::prelude::*;

use crate::arith::clamp_i64;
use crate::diagnostics::{Diagnostic, DiagnosticView};
use crate::document::{
    Document, Entry, Item, Value, boolean_is, error_at, error_at_byte, error_note, error_notes, find, find_key, holds_once, lacks,
    lemma_holds_once, lemma_lacks, text_is, whole_is,
};
use crate::id::parsed;
use crate::session::flag_named;
use crate::session::line::{diagnostic_views, quoted};
use crate::store::reader::{
    boolean_read, integer_read, lemma_text_read, lemma_whole_read, optional_seconds_read, read_boolean, read_integer, read_optional_seconds, read_seconds,
    read_text, seconds_read, text_read, unknown_message, word_read, shown,
};
use crate::id::{Id, LENGTH, crockford_text};
use crate::session::{Flag, flag_word};
use crate::session::copy_spans;
use crate::span::{ClockSource, Span, SpanKind, end_of, work_of, work_seconds};
use crate::text::{chars_of, decimal, push_chars, push_i64, push_str, push_u64, signed_decimal, string_of};

verus! {

/// Who measures a running counter.
#[derive(Debug, Clone, Copy, PartialEq, Eq, Structural)]
pub enum Watch {
    /// A window measures it and refreshes the file every few seconds; the counter is alive while
    /// that window is.
    Window,
    /// Nothing measures it: the command line started it, or a window was left with the counter
    /// running. It goes on counting until the machine restarts.
    Nobody,
}

/// The word a watch is written as.
pub open spec fn watch_word(watch: Watch) -> Seq<char> {
    match watch {
        Watch::Window => "window"@,
        Watch::Nobody => "none"@,
    }
}

/// The watch a word names.
pub open spec fn watch_named(word: Seq<char>) -> Option<Watch> {
    if word == "window"@ {
        Some(Watch::Window)
    } else if word == "none"@ {
        Some(Watch::Nobody)
    } else {
        None
    }
}

impl Watch {
    /// The word it is written as.
    pub fn word(self) -> (word: &'static str)
        ensures
            word@ == watch_word(self),
    {
        match self {
            Watch::Window => "window",
            Watch::Nobody => "none",
        }
    }

    /// The watch a word names.
    pub fn parse(word: &str) -> (watch: Option<Self>)
        ensures
            watch == watch_named(word@),
    {
        if crate::text::chars_are(crate::text::chars_of(word).as_slice(), "window") {
            Some(Watch::Window)
        } else if crate::text::chars_are(crate::text::chars_of(word).as_slice(), "none") {
            Some(Watch::Nobody)
        } else {
            None
        }
    }
}

/// The state of a counter, as much of it as the last refresh saw.
#[derive(Debug, Clone, PartialEq, Eq)]
pub struct Running {
    /// The focus being worked on.
    pub focus: Id,
    /// When the counter started, in seconds since the Unix epoch.
    pub started: i64,
    /// Minutes the local time was ahead of UTC when it started.
    pub offset_minutes: i16,
    /// The spans so far, the open one closed at the last refresh.
    pub spans: Vec<Span>,
    /// Whether the person was on a break at the last refresh.
    pub paused: bool,
    /// The wall clock at the last refresh, in seconds since the Unix epoch.
    pub refreshed: i64,
    /// Anything worth saying about the session so far.
    pub flags: Vec<Flag>,
    /// Seconds of work the counter counts down to, when it was started with a countdown; kept
    /// here so a counter carried on after a crash still counts down.
    pub target: Option<u32>,
    /// The session offset where the latest silence began, while nobody has said what it was;
    /// kept here so a counter carried on after a crash asks about it again.
    pub idle_from: Option<u32>,
    /// Who measures the counter. Files without the key come from windows, which were the only
    /// writers that kept a counter until the command line learned to.
    pub watch: Watch,
}

/// A running counter as the values it holds.
pub struct RunningView {
    pub focus: Id,
    pub started: i64,
    pub offset_minutes: i16,
    pub spans: Seq<Span>,
    pub paused: bool,
    pub refreshed: i64,
    pub flags: Seq<Flag>,
    pub target: Option<u32>,
    pub idle_from: Option<u32>,
    pub watch: Watch,
}

impl View for Running {
    type V = RunningView;

    open spec fn view(&self) -> RunningView {
        RunningView {
            focus: self.focus,
            started: self.started,
            offset_minutes: self.offset_minutes,
            spans: self.spans@,
            paused: self.paused,
            refreshed: self.refreshed,
            flags: self.flags@,
            target: self.target,
            idle_from: self.idle_from,
            watch: self.watch,
        }
    }
}

/// The format the writer emits and the only marked one the reader knows.
pub const FORMAT: i64 = 2;

/// The word a span kind is written as.
pub open spec fn kind_word(kind: SpanKind) -> Seq<char> {
    match kind {
        SpanKind::Work => "work"@,
        SpanKind::Pause => "pause"@,
        SpanKind::Gap => "gap"@,
        SpanKind::Idle => "idle"@,
    }
}

/// The span kind a word names.
pub open spec fn kind_named(word: Seq<char>) -> Option<SpanKind> {
    if word == "work"@ {
        Some(SpanKind::Work)
    } else if word == "pause"@ {
        Some(SpanKind::Pause)
    } else if word == "gap"@ {
        Some(SpanKind::Gap)
    } else if word == "idle"@ {
        Some(SpanKind::Idle)
    } else {
        None
    }
}

/// The word a clock source is written as.
pub open spec fn clock_word_of(clock: ClockSource) -> Seq<char> {
    match clock {
        ClockSource::Mono => "mono"@,
        ClockSource::Boot => "boot"@,
        ClockSource::Wall => "wall"@,
    }
}

/// The clock source a word names.
pub open spec fn clock_named(word: Seq<char>) -> Option<ClockSource> {
    if word == "mono"@ {
        Some(ClockSource::Mono)
    } else if word == "boot"@ {
        Some(ClockSource::Boot)
    } else if word == "wall"@ {
        Some(ClockSource::Wall)
    } else {
        None
    }
}

/// `true` or `false`.
pub open spec fn bool_word(value: bool) -> Seq<char> {
    if value {
        "true"@
    } else {
        "false"@
    }
}

/// The first `n` flags, each in quotes, separated by `, `.
pub open spec fn flag_list_upto(flags: Seq<Flag>, n: int) -> Seq<char>
    decreases n,
{
    if n <= 0 {
        Seq::empty()
    } else if n == 1 {
        "\""@ + flag_word(flags[0]) + "\""@
    } else {
        flag_list_upto(flags, n - 1) + ", \""@ + flag_word(flags[n - 1]) + "\""@
    }
}

/// One `[[span]]` table.
pub open spec fn span_block(span: Span) -> Seq<char> {
    "\n[[span]]\nkind = \""@ + kind_word(span.kind) + "\"\noffset = "@ + decimal(span.offset as nat) + "\nseconds = "@
        + decimal(span.seconds as nat) + "\nclock = \""@ + clock_word_of(span.clock) + "\"\n"@
}

/// The `[[span]]` tables of the first `n` spans.
pub open spec fn span_blocks_upto(spans: Seq<Span>, n: int) -> Seq<char>
    decreases n,
{
    if n <= 0 {
        Seq::empty()
    } else {
        span_blocks_upto(spans, n - 1) + span_block(spans[n - 1])
    }
}

/// A line `key = value` from its start `key = `, or nothing when there is no value.
pub open spec fn optional_line(start: Seq<char>, value: Option<u32>) -> Seq<char> {
    match value {
        Some(v) => start + decimal(v as nat) + "\n"@,
        None => Seq::empty(),
    }
}

/// The text a counter is written as.
pub open spec fn running_text(r: RunningView) -> Seq<char> {
    "format = "@ + signed_decimal(FORMAT as int) + "\n"@
        + "focus = \""@ + crockford_text(r.focus.value() as nat, LENGTH as nat) + "\"\n"@
        + "started = "@ + signed_decimal(r.started as int) + "\n"@
        + "offset = "@ + signed_decimal(r.offset_minutes as int) + "\n"@
        + "paused = "@ + bool_word(r.paused) + "\n"@
        + "refreshed = "@ + signed_decimal(r.refreshed as int) + "\n"@
        + "flags = ["@ + flag_list_upto(r.flags, r.flags.len() as int) + "]\n"@
        + optional_line("target = "@, r.target)
        + optional_line("idle-from = "@, r.idle_from)
        + "watch = \""@ + watch_word(r.watch) + "\"\n"@
        + span_blocks_upto(r.spans, r.spans.len() as int)
}

/// The end of the last span, as a `u32` where it fits; zero without spans.
pub open spec fn last_end(spans: Seq<Span>) -> int {
    if spans.len() == 0 {
        0
    } else if end_of(spans.last()) > u32::MAX {
        u32::MAX as int
    } else {
        end_of(spans.last())
    }
}

/// Seconds from the refresh to `until`, when that is a count of seconds a `u32` holds; else zero.
pub open spec fn unseen(refreshed: i64, until: i64) -> int {
    let d = clamp_i64(until - refreshed);
    if 0 <= d <= u32::MAX {
        d
    } else {
        0
    }
}

/// What [`Running::spans_until`] gives: the spans, and the time since the refresh as the kind
/// that was open, measured by the wall clock, when there is any.
pub open spec fn spans_until_of(r: RunningView, until: i64) -> Seq<Span> {
    let more = unseen(r.refreshed, until);
    if more > 0 {
        r.spans.push(
            Span {
                kind: if r.paused { SpanKind::Pause } else { SpanKind::Work },
                offset: last_end(r.spans) as u32,
                seconds: more as u32,
                clock: ClockSource::Wall,
            },
        )
    } else {
        r.spans
    }
}

impl Running {
    /// The state as TOML.
    pub fn write(&self) -> (text: String)
        ensures
            text@ == running_text(self@),
    {
        let ghost r = self@;
        let mut out: Vec<char> = Vec::new();
        push_str(&mut out, "format = ");
        push_i64(&mut out, FORMAT);
        push_str(&mut out, "\n");
        push_str(&mut out, "focus = \"");
        self.focus.write_to(&mut out);
        push_str(&mut out, "\"\n");
        push_str(&mut out, "started = ");
        push_i64(&mut out, self.started);
        push_str(&mut out, "\n");
        push_str(&mut out, "offset = ");
        push_i64(&mut out, self.offset_minutes as i64);
        push_str(&mut out, "\n");
        push_str(&mut out, "paused = ");
        push_str(&mut out, if self.paused { "true" } else { "false" });
        push_str(&mut out, "\n");
        push_str(&mut out, "refreshed = ");
        push_i64(&mut out, self.refreshed);
        push_str(&mut out, "\n");
        let ghost head = "format = "@ + signed_decimal(FORMAT as int) + "\n"@
            + "focus = \""@ + crockford_text(r.focus.value() as nat, LENGTH as nat) + "\"\n"@
            + "started = "@ + signed_decimal(r.started as int) + "\n"@
            + "offset = "@ + signed_decimal(r.offset_minutes as int) + "\n"@
            + "paused = "@ + bool_word(r.paused) + "\n"@
            + "refreshed = "@ + signed_decimal(r.refreshed as int) + "\n"@;
        assert(out@ =~= head);
        push_str(&mut out, "flags = [");
        write_flag_list(&mut out, &self.flags);
        push_str(&mut out, "]\n");
        let ghost with_flags = head + "flags = ["@ + flag_list_upto(r.flags, r.flags.len() as int) + "]\n"@;
        assert(out@ =~= with_flags);
        if let Some(target) = self.target {
            push_str(&mut out, "target = ");
            push_u64(&mut out, target as u64);
            push_str(&mut out, "\n");
        }
        let ghost with_target = with_flags + optional_line("target = "@, r.target);
        assert(out@ =~= with_target);
        if let Some(from) = self.idle_from {
            push_str(&mut out, "idle-from = ");
            push_u64(&mut out, from as u64);
            push_str(&mut out, "\n");
        }
        let ghost with_idle = with_target + optional_line("idle-from = "@, r.idle_from);
        assert(out@ =~= with_idle);
        push_str(&mut out, "watch = \"");
        push_str(&mut out, self.watch.word());
        push_str(&mut out, "\"\n");
        write_span_blocks(&mut out, &self.spans);
        assert(out@ =~= with_idle + "watch = \""@ + watch_word(r.watch) + "\"\n"@ + span_blocks_upto(r.spans, r.spans.len() as int));
        assert(out@ =~= running_text(r));
        string_of(&out)
    }

    /// The spans grown to `until`, the wall second the counter is known to reach: the ones on
    /// disk plus the time since the last refresh as the kind that was open, measured by the wall
    /// clock. Nothing is added for an `until` at or before the refresh.
    pub fn spans_until(&self, until: i64) -> (spans: Vec<Span>)
        ensures
            spans@ == spans_until_of(self@, until),
    {
        let mut spans = copy_spans(&self.spans);
        let end: u32 = if spans.len() == 0 {
            0
        } else {
            let last_end = spans[spans.len() - 1].end();
            if last_end > u32::MAX as u64 {
                u32::MAX
            } else {
                last_end as u32
            }
        };
        let d = crate::arith::sub_i64(until, self.refreshed);
        let more: u32 = if 0 <= d && d <= u32::MAX as i64 {
            d as u32
        } else {
            0
        };
        if more > 0 {
            let kind = if self.paused {
                SpanKind::Pause
            } else {
                SpanKind::Work
            };
            spans.push(Span::new(kind, end, more, ClockSource::Wall));
        }
        spans
    }

    /// Seconds of work the counter holds when it reaches `until`; see [`Running::spans_until`].
    pub fn work_until(&self, until: i64) -> (seconds: u64)
        requires
            work_of(spans_until_of(self@, until)) <= u64::MAX,
        ensures
            seconds == work_of(spans_until_of(self@, until)),
    {
        let spans = self.spans_until(until);
        work_seconds(spans.as_slice())
    }
}

/// Appends the flags, each in quotes, separated by `, `.
fn write_flag_list(out: &mut Vec<char>, flags: &Vec<Flag>)
    ensures
        final(out)@ == old(out)@ + flag_list_upto(flags@, flags@.len() as int),
{
    let ghost start = out@;
    let mut i: usize = 0;
    while i < flags.len()
        invariant
            i <= flags@.len(),
            out@ == start + flag_list_upto(flags@, i as int),
        decreases flags@.len() - i,
    {
        if i > 0 {
            push_str(out, ", \"");
        } else {
            push_str(out, "\"");
        }
        push_str(out, flags[i].as_str());
        push_str(out, "\"");
        assert(out@ =~= start + flag_list_upto(flags@, i + 1));
        i = i + 1;
    }
}

/// Appends one `[[span]]` table for each span.
fn write_span_blocks(out: &mut Vec<char>, spans: &Vec<Span>)
    ensures
        final(out)@ == old(out)@ + span_blocks_upto(spans@, spans@.len() as int),
{
    let ghost start = out@;
    let mut i: usize = 0;
    while i < spans.len()
        invariant
            i <= spans@.len(),
            out@ == start + span_blocks_upto(spans@, i as int),
        decreases spans@.len() - i,
    {
        let span = spans[i];
        push_str(out, "\n[[span]]\nkind = \"");
        push_str(out, span_kind_word(span.kind));
        push_str(out, "\"\noffset = ");
        push_u64(out, span.offset as u64);
        push_str(out, "\nseconds = ");
        push_u64(out, span.seconds as u64);
        push_str(out, "\nclock = \"");
        push_str(out, clock_word(span.clock));
        push_str(out, "\"\n");
        assert(out@ =~= start + span_blocks_upto(spans@, i + 1));
        i = i + 1;
    }
}

/// The word a span kind is written as.
pub fn span_kind_word(kind: SpanKind) -> (word: &'static str)
    ensures
        word@ == kind_word(kind),
{
    match kind {
        SpanKind::Work => "work",
        SpanKind::Pause => "pause",
        SpanKind::Gap => "gap",
        SpanKind::Idle => "idle",
    }
}

/// The span kind a word names.
pub fn span_kind(word: &[char]) -> (kind: Option<SpanKind>)
    ensures
        kind == kind_named(word@),
{
    if crate::text::chars_are(word, "work") {
        Some(SpanKind::Work)
    } else if crate::text::chars_are(word, "pause") {
        Some(SpanKind::Pause)
    } else if crate::text::chars_are(word, "gap") {
        Some(SpanKind::Gap)
    } else if crate::text::chars_are(word, "idle") {
        Some(SpanKind::Idle)
    } else {
        None
    }
}

/// The word a clock source is written as.
pub fn clock_word(clock: ClockSource) -> (word: &'static str)
    ensures
        word@ == clock_word_of(clock),
{
    match clock {
        ClockSource::Mono => "mono",
        ClockSource::Boot => "boot",
        ClockSource::Wall => "wall",
    }
}

/// The clock source a word names.
pub fn clock_source(word: &[char]) -> (clock: Option<ClockSource>)
    ensures
        clock == clock_named(word@),
{
    if crate::text::chars_are(word, "mono") {
        Some(ClockSource::Mono)
    } else if crate::text::chars_are(word, "boot") {
        Some(ClockSource::Boot)
    } else if crate::text::chars_are(word, "wall") {
        Some(ClockSource::Wall)
    } else {
        None
    }
}

/// The last of the first `n` spans that is idle, if one is.
pub open spec fn last_idle_upto(spans: Seq<Span>, n: int) -> Option<int>
    decreases n,
{
    if n <= 0 {
        None
    } else if spans[n - 1].kind == SpanKind::Idle {
        Some(n - 1)
    } else {
        last_idle_upto(spans, n - 1)
    }
}

/// Where a run of idle spans that goes back from before span `k` begins, a sleep inside it
/// included, given that it begins at `from` so far.
pub open spec fn run_start(spans: Seq<Span>, k: int, from: u32) -> u32
    decreases k,
{
    if k <= 0 {
        from
    } else {
        match spans[k - 1].kind {
            SpanKind::Idle => run_start(spans, k - 1, spans[k - 1].offset),
            SpanKind::Gap => run_start(spans, k - 1, from),
            _ => from,
        }
    }
}

/// Where the latest silence of an unmarked file began, when the file says a silence went
/// unanswered.
pub open spec fn unanswered_of(flags: Seq<Flag>, spans: Seq<Span>) -> Option<u32> {
    if !flags.contains(Flag::UnclaimedIdle) {
        None
    } else {
        match last_idle_upto(spans, spans.len() as int) {
            None => None,
            Some(last) => Some(run_start(spans, last, spans[last].offset)),
        }
    }
}

/// Where the latest silence of an unmarked file began, when the file says a silence went
/// unanswered: the start of the last run of idle spans, a sleep inside it included, as the timer
/// measured it. Files written before the unanswered stretch was kept do not say which silence the
/// flag is about, and the latest is the one the question was left open on. A marked file is never
/// guessed about: its flag may stand for a silence already answered "don't count", which must not
/// be asked again.
pub fn unanswered_silence(flags: &[Flag], spans: &[Span]) -> (from: Option<u32>)
    ensures
        from == unanswered_of(flags@, spans@),
{
    let mut flagged = false;
    let mut i: usize = 0;
    while i < flags.len()
        invariant
            i <= flags@.len(),
            flagged == exists|j: int| 0 <= j < i && flags@[j] == Flag::UnclaimedIdle,
        decreases flags@.len() - i,
    {
        if flags[i] == Flag::UnclaimedIdle {
            flagged = true;
        }
        i = i + 1;
    }
    if !flagged {
        return None;
    }
    let mut n: usize = spans.len();
    while n > 0 && spans[n - 1].kind != SpanKind::Idle
        invariant
            n <= spans@.len(),
            last_idle_upto(spans@, spans@.len() as int) == last_idle_upto(spans@, n as int),
        decreases n,
    {
        n = n - 1;
    }
    if n == 0 {
        return None;
    }
    let last = n - 1;
    let mut from = spans[last].offset;
    let mut k: usize = last;
    while k > 0
        invariant
            k <= last,
            last < spans@.len(),
            run_start(spans@, last as int, spans@[last as int].offset) == run_start(spans@, k as int, from),
        ensures
            run_start(spans@, last as int, spans@[last as int].offset) == from,
        decreases k,
    {
        match spans[k - 1].kind {
            SpanKind::Idle => from = spans[k - 1].offset,
            SpanKind::Gap => {},
            _ => break,
        }
        k = k - 1;
    }
    Some(from)
}

/// What reading the first `n` items of the `flags` list gives.
pub open spec fn flags_upto(file: Seq<char>, src: Seq<char>, items: Seq<Item>, n: int) -> (Seq<Flag>, Seq<DiagnosticView>)
    decreases n,
{
    if n <= 0 {
        (Seq::empty(), Seq::empty())
    } else {
        let (flags, notes) = flags_upto(file, src, items, n - 1);
        match items[n - 1].value {
            Value::Text(word) => match flag_named(word@) {
                Some(flag) => (flags.push(flag), notes),
                None => (flags, notes.push(error_at(file, src, items[n - 1].at as int, "unknown flag "@ + quoted(word@)))),
            },
            _ => (flags, notes.push(error_at(file, src, items[n - 1].at as int, "a flag is a word in quotes"@))),
        }
    }
}

/// What reading the `flags` list gives; missing means none.
pub open spec fn flags_read(file: Seq<char>, src: Seq<char>, table: Seq<Entry>) -> (Seq<Flag>, Seq<DiagnosticView>) {
    match find(table, "flags"@) {
        None => (Seq::empty(), Seq::empty()),
        Some(i) => match table[i].value {
            Value::List(items) => flags_upto(file, src, items@, items@.len() as int),
            _ => (Seq::empty(), seq![error_at(file, src, table[i].at as int, "flags is not a list"@)]),
        },
    }
}

/// What reading one `[[span]]` table gives.
pub open spec fn span_read(file: Seq<char>, src: Seq<char>, table: Seq<Entry>) -> (Option<Span>, Seq<DiagnosticView>) {
    let (kind, a) = word_read(file, src, table, "kind"@, |w: Seq<char>| kind_named(w));
    let (offset, b) = seconds_read(file, src, table, "offset"@);
    let (seconds, c) = seconds_read(file, src, table, "seconds"@);
    let (clock, d) = word_read(file, src, table, "clock"@, |w: Seq<char>| clock_named(w));
    let notes = a + b + c + d;
    match (kind, offset, seconds, clock) {
        (Some(kind), Some(offset), Some(seconds), Some(clock)) => (Some(Span { kind, offset, seconds, clock }), notes),
        _ => (None, notes),
    }
}

/// What reading the first `n` items of the `span` list gives.
pub open spec fn spans_upto(file: Seq<char>, src: Seq<char>, items: Seq<Item>, n: int) -> (Seq<Span>, Seq<DiagnosticView>)
    decreases n,
{
    if n <= 0 {
        (Seq::empty(), Seq::empty())
    } else {
        let (spans, notes) = spans_upto(file, src, items, n - 1);
        match items[n - 1].value {
            Value::Table(inner) => {
                let (span, more) = span_read(file, src, inner@);
                match span {
                    Some(span) => (spans.push(span), notes + more),
                    None => (spans, notes + more),
                }
            },
            _ => (
                spans,
                notes.push(error_at(file, src, items[n - 1].at as int, "span "@ + decimal(n as nat) + " is not a table"@)),
            ),
        }
    }
}

/// What reading the `[[span]]` tables gives; missing means none.
pub open spec fn spans_read(file: Seq<char>, src: Seq<char>, table: Seq<Entry>) -> (Seq<Span>, Seq<DiagnosticView>) {
    match find(table, "span"@) {
        None => (Seq::empty(), Seq::empty()),
        Some(i) => match table[i].value {
            Value::List(items) => spans_upto(file, src, items@, items@.len() as int),
            _ => (Seq::empty(), seq![error_at(file, src, table[i].at as int, "span is not a list of tables"@)]),
        },
    }
}

/// What reading the `format` marker gives: whether it is there, and what is wrong with it. A
/// marker of another value or type is a mistake, since the file cannot be read as its writer
/// meant.
pub open spec fn format_read(file: Seq<char>, src: Seq<char>, table: Seq<Entry>) -> (bool, Seq<DiagnosticView>) {
    if find(table, "format"@) is None {
        (false, Seq::empty())
    } else {
        let (number, notes) = integer_read(file, src, table, "format"@);
        match number {
            Some((v, at)) => if v == FORMAT {
                (true, notes)
            } else {
                (true, notes.push(error_at(file, src, at, "unknown format "@ + signed_decimal(v))))
            },
            None => (true, notes),
        }
    }
}

/// What reading the focus gives.
pub open spec fn focus_read(file: Seq<char>, src: Seq<char>, table: Seq<Entry>) -> (Option<Id>, Seq<DiagnosticView>) {
    let (found, notes) = text_read(file, src, table, "focus"@);
    match found {
        Some((text, at)) => match parsed(text) {
            Some(v) => (Some(Id::of(v)), notes),
            None => (None, notes.push(error_at(file, src, at, "focus is not an identifier"@))),
        },
        None => (None, notes),
    }
}

/// What reading the offset gives.
pub open spec fn offset_read(file: Seq<char>, src: Seq<char>, table: Seq<Entry>) -> (Option<i16>, Seq<DiagnosticView>) {
    let (found, notes) = integer_read(file, src, table, "offset"@);
    match found {
        Some((v, at)) => if i16::MIN <= v <= i16::MAX {
            (Some(v as i16), notes)
        } else {
            (None, notes.push(error_at(file, src, at, "offset does not fit in minutes"@)))
        },
        None => (None, notes),
    }
}

/// What reading who watches the counter gives; a file without the key comes from a window.
pub open spec fn watch_read(file: Seq<char>, src: Seq<char>, table: Seq<Entry>) -> (Option<Watch>, Seq<DiagnosticView>) {
    if find(table, "watch"@) is Some {
        word_read(file, src, table, "watch"@, |w: Seq<char>| watch_named(w))
    } else {
        (Some(Watch::Window), Seq::empty())
    }
}

/// What reading the running file `file`, with the text `src` and the parsed document `doc`,
/// gives: the counter, or everything wrong with the file.
pub open spec fn running_read(file: Seq<char>, src: Seq<char>, doc: &Document) -> Result<RunningView, Seq<DiagnosticView>> {
    let t = doc.entries@;
    let (focus, d1) = focus_read(file, src, t);
    let (started, d2) = integer_read(file, src, t, "started"@);
    let (offset, d3) = offset_read(file, src, t);
    let (refreshed, d4) = integer_read(file, src, t, "refreshed"@);
    let (marked, d5) = format_read(file, src, t);
    let (paused, d6) = boolean_read(file, src, t, "paused"@);
    let (flags, d7) = flags_read(file, src, t);
    let (target, d8) = optional_seconds_read(file, src, t, "target"@);
    let (idle, d9) = optional_seconds_read(file, src, t, "idle-from"@);
    let (watch, d10) = watch_read(file, src, t);
    let (spans, d11) = spans_read(file, src, t);
    let notes = error_notes(file, src, doc.errors@) + d1 + d2 + d3 + d4 + d5 + d6 + d7 + d8 + d9 + d10 + d11;
    let idle_from = if marked {
        idle
    } else {
        match idle {
            Some(from) => Some(from),
            None => unanswered_of(flags, spans),
        }
    };
    match (focus, started, offset, refreshed, watch) {
        (Some(focus), Some((started, _)), Some(offset_minutes), Some((refreshed, _)), Some(watch)) => if notes.len() == 0 {
            Ok(
                RunningView {
                    focus,
                    started: started as i64,
                    offset_minutes,
                    spans,
                    paused: match paused {
                        Some(p) => p,
                        None => false,
                    },
                    refreshed: refreshed as i64,
                    flags,
                    target,
                    idle_from,
                    watch,
                },
            )
        } else {
            Err(notes)
        },
        _ => Err(notes),
    }
}

/// A required span kind.
fn read_kind(file: &str, src: &Vec<char>, table: &Vec<Entry>, notes: &mut Vec<Diagnostic>) -> (found: Option<SpanKind>)
    ensures
        diagnostic_views(final(notes)@) == diagnostic_views(old(notes)@) + word_read(
            file@,
            src@,
            table@,
            "kind"@,
            |w: Seq<char>| kind_named(w),
        ).1,
        found == word_read(file@, src@, table@, "kind"@, |w: Seq<char>| kind_named(w)).0,
{
    let ghost before = notes@;
    match read_text(file, src, table, "kind", notes) {
        Some((text, at)) => {
            let chars = chars_of(text.as_str());
            match span_kind(chars.as_slice()) {
                Some(kind) => Some(kind),
                None => {
                    let ghost middle = notes@;
                    let note = error_at_byte(file, src, at, unknown_message("kind", &chars));
                    notes.push(note);
                    assert(diagnostic_views(notes@) =~= diagnostic_views(middle).push(note@));
                    None
                },
            }
        },
        None => None,
    }
}

/// A required clock.
fn read_clock(file: &str, src: &Vec<char>, table: &Vec<Entry>, notes: &mut Vec<Diagnostic>) -> (found: Option<ClockSource>)
    ensures
        diagnostic_views(final(notes)@) == diagnostic_views(old(notes)@) + word_read(
            file@,
            src@,
            table@,
            "clock"@,
            |w: Seq<char>| clock_named(w),
        ).1,
        found == word_read(file@, src@, table@, "clock"@, |w: Seq<char>| clock_named(w)).0,
{
    let ghost before = notes@;
    match read_text(file, src, table, "clock", notes) {
        Some((text, at)) => {
            let chars = chars_of(text.as_str());
            match clock_source(chars.as_slice()) {
                Some(clock) => Some(clock),
                None => {
                    let ghost middle = notes@;
                    let note = error_at_byte(file, src, at, unknown_message("clock", &chars));
                    notes.push(note);
                    assert(diagnostic_views(notes@) =~= diagnostic_views(middle).push(note@));
                    None
                },
            }
        },
        None => None,
    }
}

/// Who watches the counter; a file without the key comes from a window.
fn read_watch(file: &str, src: &Vec<char>, table: &Vec<Entry>, notes: &mut Vec<Diagnostic>) -> (found: Option<Watch>)
    ensures
        diagnostic_views(final(notes)@) == diagnostic_views(old(notes)@) + watch_read(file@, src@, table@).1,
        found == watch_read(file@, src@, table@).0,
{
    if find_key(table, "watch").is_none() {
        assert(diagnostic_views(notes@) =~= diagnostic_views(notes@) + Seq::empty());
        return Some(Watch::Window);
    }
    match read_text(file, src, table, "watch", notes) {
        Some((text, at)) => {
            let chars = chars_of(text.as_str());
            match Watch::parse(text.as_str()) {
                Some(watch) => Some(watch),
                None => {
                    let ghost middle = notes@;
                    let note = error_at_byte(file, src, at, unknown_message("watch", &chars));
                    notes.push(note);
                    assert(diagnostic_views(notes@) =~= diagnostic_views(middle).push(note@));
                    None
                },
            }
        },
        None => None,
    }
}

/// The focus.
fn read_focus(file: &str, src: &Vec<char>, table: &Vec<Entry>, notes: &mut Vec<Diagnostic>) -> (found: Option<Id>)
    ensures
        diagnostic_views(final(notes)@) == diagnostic_views(old(notes)@) + focus_read(file@, src@, table@).1,
        found == focus_read(file@, src@, table@).0,
{
    match read_text(file, src, table, "focus", notes) {
        Some((text, at)) => match Id::parse(text.as_str()) {
            Some(id) => Some(id),
            None => {
                let ghost middle = notes@;
                let note = error_at_byte(file, src, at, "focus is not an identifier".to_string());
                notes.push(note);
                assert(diagnostic_views(notes@) =~= diagnostic_views(middle).push(note@));
                None
            },
        },
        None => None,
    }
}

/// The offset from UTC, in minutes.
fn read_offset(file: &str, src: &Vec<char>, table: &Vec<Entry>, notes: &mut Vec<Diagnostic>) -> (found: Option<i16>)
    ensures
        diagnostic_views(final(notes)@) == diagnostic_views(old(notes)@) + offset_read(file@, src@, table@).1,
        found == offset_read(file@, src@, table@).0,
{
    match read_integer(file, src, table, "offset", notes) {
        Some((v, at)) => if i16::MIN as i64 <= v && v <= i16::MAX as i64 {
            Some(v as i16)
        } else {
            let ghost middle = notes@;
            let note = error_at_byte(file, src, at, "offset does not fit in minutes".to_string());
            notes.push(note);
            assert(diagnostic_views(notes@) =~= diagnostic_views(middle).push(note@));
            None
        },
        None => None,
    }
}

/// The `format` marker: `true` when it is there, known or not.
fn read_format(file: &str, src: &Vec<char>, table: &Vec<Entry>, notes: &mut Vec<Diagnostic>) -> (marked: bool)
    ensures
        diagnostic_views(final(notes)@) == diagnostic_views(old(notes)@) + format_read(file@, src@, table@).1,
        marked == format_read(file@, src@, table@).0,
{
    if find_key(table, "format").is_none() {
        assert(diagnostic_views(notes@) =~= diagnostic_views(notes@) + Seq::empty());
        return false;
    }
    match read_integer(file, src, table, "format", notes) {
        Some((v, at)) => {
            if v != FORMAT {
                let ghost middle = notes@;
                let mut message: Vec<char> = Vec::new();
                push_str(&mut message, "unknown format ");
                push_i64(&mut message, v);
                let note = error_at_byte(file, src, at, string_of(&message));
                notes.push(note);
                assert(diagnostic_views(notes@) =~= diagnostic_views(middle).push(note@));
            }
            true
        },
        None => true,
    }
}

/// The `flags` list; missing means none.
fn read_flags(file: &str, src: &Vec<char>, table: &Vec<Entry>, notes: &mut Vec<Diagnostic>) -> (flags: Vec<Flag>)
    ensures
        diagnostic_views(final(notes)@) == diagnostic_views(old(notes)@) + flags_read(file@, src@, table@).1,
        flags@ == flags_read(file@, src@, table@).0,
{
    let ghost before = notes@;
    let i = match find_key(table, "flags") {
        Some(i) => i,
        None => {
            assert(diagnostic_views(notes@) =~= diagnostic_views(before) + Seq::empty());
            return Vec::new();
        },
    };
    let items = match &table[i].value {
        Value::List(items) => items,
        _ => {
            let note = error_at_byte(file, src, table[i].at, "flags is not a list".to_string());
            notes.push(note);
            assert(diagnostic_views(notes@) =~= diagnostic_views(before) + flags_read(file@, src@, table@).1);
            return Vec::new();
        },
    };
    let mut flags: Vec<Flag> = Vec::new();
    let mut k: usize = 0;
    while k < items.len()
        invariant
            k <= items@.len(),
            flags@ == flags_upto(file@, src@, items@, k as int).0,
            diagnostic_views(notes@) == diagnostic_views(before) + flags_upto(file@, src@, items@, k as int).1,
        decreases items@.len() - k,
    {
        let ghost middle = notes@;
        match &items[k].value {
            Value::Text(word) => match Flag::parse(word.as_str()) {
                Some(flag) => flags.push(flag),
                None => {
                    let mut message: Vec<char> = Vec::new();
                    push_str(&mut message, "unknown flag ");
                    push_chars(&mut message, &shown(&chars_of(word.as_str())));
                    let note = error_at_byte(file, src, items[k].at, string_of(&message));
                    notes.push(note);
                    assert(diagnostic_views(notes@) =~= diagnostic_views(middle).push(note@));
                },
            },
            _ => {
                let note = error_at_byte(file, src, items[k].at, "a flag is a word in quotes".to_string());
                notes.push(note);
                assert(diagnostic_views(notes@) =~= diagnostic_views(middle).push(note@));
            },
        }
        k = k + 1;
    }
    flags
}

/// One `[[span]]` table.
fn read_span(file: &str, src: &Vec<char>, table: &Vec<Entry>, notes: &mut Vec<Diagnostic>) -> (span: Option<Span>)
    ensures
        diagnostic_views(final(notes)@) == diagnostic_views(old(notes)@) + span_read(file@, src@, table@).1,
        span == span_read(file@, src@, table@).0,
{
    let ghost before = notes@;
    let kind = read_kind(file, src, table, notes);
    let offset = read_seconds(file, src, table, "offset", notes);
    let seconds = read_seconds(file, src, table, "seconds", notes);
    let clock = read_clock(file, src, table, notes);
    assert(diagnostic_views(notes@) =~= diagnostic_views(before) + span_read(file@, src@, table@).1);
    match (kind, offset, seconds, clock) {
        (Some(kind), Some(offset), Some(seconds), Some(clock)) => Some(Span::new(kind, offset, seconds, clock)),
        _ => None,
    }
}

/// The `[[span]]` tables; missing means none.
fn read_spans(file: &str, src: &Vec<char>, table: &Vec<Entry>, notes: &mut Vec<Diagnostic>) -> (spans: Vec<Span>)
    ensures
        diagnostic_views(final(notes)@) == diagnostic_views(old(notes)@) + spans_read(file@, src@, table@).1,
        spans@ == spans_read(file@, src@, table@).0,
{
    let ghost before = notes@;
    let i = match find_key(table, "span") {
        Some(i) => i,
        None => {
            assert(diagnostic_views(notes@) =~= diagnostic_views(before) + Seq::empty());
            return Vec::new();
        },
    };
    let items = match &table[i].value {
        Value::List(items) => items,
        _ => {
            let note = error_at_byte(file, src, table[i].at, "span is not a list of tables".to_string());
            notes.push(note);
            assert(diagnostic_views(notes@) =~= diagnostic_views(before) + spans_read(file@, src@, table@).1);
            return Vec::new();
        },
    };
    let mut spans: Vec<Span> = Vec::new();
    let mut k: usize = 0;
    while k < items.len()
        invariant
            k <= items@.len(),
            spans@ == spans_upto(file@, src@, items@, k as int).0,
            diagnostic_views(notes@) == diagnostic_views(before) + spans_upto(file@, src@, items@, k as int).1,
        decreases items@.len() - k,
    {
        let ghost middle = notes@;
        match &items[k].value {
            Value::Table(inner) => {
                match read_span(file, src, inner, notes) {
                    Some(span) => spans.push(span),
                    None => {},
                }
                assert(diagnostic_views(notes@) =~= diagnostic_views(before) + spans_upto(file@, src@, items@, k + 1).1);
            },
            _ => {
                let mut message: Vec<char> = Vec::new();
                push_str(&mut message, "span ");
                push_u64(&mut message, k as u64 + 1);
                push_str(&mut message, " is not a table");
                let note = error_at_byte(file, src, items[k].at, string_of(&message));
                notes.push(note);
                assert(diagnostic_views(notes@) =~= diagnostic_views(middle).push(note@));
            },
        }
        k = k + 1;
    }
    spans
}

impl Running {
    /// Reads a counter from the text `text` of the file `file`: the text is parsed as TOML, and
    /// what the parser made of it is read as [`Running::read_document`] reads it.
    pub fn read(file: &str, text: &str) -> (found: Result<Running, Vec<Diagnostic>>)
        ensures
            match found {
                Ok(running) => running_read(file@, text@, &crate::document::toml_document(text@))
                    == Ok::<RunningView, Seq<DiagnosticView>>(running@),
                Err(notes) => running_read(file@, text@, &crate::document::toml_document(text@))
                    == Err::<RunningView, Seq<DiagnosticView>>(diagnostic_views(notes@)),
            },
    {
        let doc = crate::document::parse(text);
        Running::read_document(file, text, &doc)
    }

    /// Reads the state back from the parsed document `doc` of `text`, naming `file` in every
    /// diagnostic.
    ///
    /// A file without the `format` marker that carries the unanswered-idle flag and idle spans is
    /// taken to be waiting for an answer about its latest silence, since such a file cannot say
    /// which one it meant. A counter with a field missing or unreadable is not partly restored: a
    /// wrong time would be worse than asking the person; every mistake comes back, each pointing
    /// at a line and column where it can.
    pub fn read_document(file: &str, text: &str, doc: &Document) -> (found: Result<Running, Vec<Diagnostic>>)
        ensures
            match found {
                Ok(running) => running_read(file@, text@, doc) == Ok::<RunningView, Seq<DiagnosticView>>(running@),
                Err(notes) => running_read(file@, text@, doc) == Err::<RunningView, Seq<DiagnosticView>>(
                    diagnostic_views(notes@),
                ),
            },
    {
        let src = chars_of(text);
        let mut notes: Vec<Diagnostic> = Vec::new();
        let mut e: usize = 0;
        while e < doc.errors.len()
            invariant
                e <= doc.errors@.len(),
                src@ == text@,
                diagnostic_views(notes@) == error_notes(file@, text@, doc.errors@).subrange(0, e as int),
            decreases doc.errors@.len() - e,
        {
            let note = error_note(file, &src, &doc.errors[e]);
            let ghost before = notes@;
            let ghost shown_note = note@;
            notes.push(note);
            assert(diagnostic_views(notes@) =~= diagnostic_views(before).push(shown_note));
            assert(shown_note == error_notes(file@, text@, doc.errors@)[e as int]);
            e = e + 1;
            assert(diagnostic_views(notes@) =~= error_notes(file@, text@, doc.errors@).subrange(0, e as int));
        }
        assert(error_notes(file@, text@, doc.errors@).subrange(0, e as int) =~= error_notes(file@, text@, doc.errors@));
        let t = &doc.entries;
        let focus = read_focus(file, &src, t, &mut notes);
        let started = read_integer(file, &src, t, "started", &mut notes);
        let offset = read_offset(file, &src, t, &mut notes);
        let refreshed = read_integer(file, &src, t, "refreshed", &mut notes);
        let marked = read_format(file, &src, t, &mut notes);
        let paused = read_boolean(file, &src, t, "paused", &mut notes);
        let flags = read_flags(file, &src, t, &mut notes);
        let target = read_optional_seconds(file, &src, t, "target", &mut notes);
        let idle = read_optional_seconds(file, &src, t, "idle-from", &mut notes);
        let watch = read_watch(file, &src, t, &mut notes);
        let spans = read_spans(file, &src, t, &mut notes);
        let idle_from = if marked {
            idle
        } else {
            match idle {
                Some(from) => Some(from),
                None => unanswered_silence(flags.as_slice(), spans.as_slice()),
            }
        };
        let ghost all = diagnostic_views(notes@);
        assert(all =~= running_read_notes(file@, text@, doc));
        match (focus, started, offset, refreshed, watch) {
            (Some(focus), Some((started, _)), Some(offset_minutes), Some((refreshed, _)), Some(watch)) => if notes.len()
                == 0 {
                Ok(
                    Running {
                        focus,
                        started,
                        offset_minutes,
                        spans,
                        paused: match paused {
                            Some(p) => p,
                            None => false,
                        },
                        refreshed,
                        flags,
                        target,
                        idle_from,
                        watch,
                    },
                )
            } else {
                Err(notes)
            },
            _ => Err(notes),
        }
    }
}

/// Everything reading the running file finds wrong, in order.
pub open spec fn running_read_notes(file: Seq<char>, src: Seq<char>, doc: &Document) -> Seq<DiagnosticView> {
    let t = doc.entries@;
    error_notes(file, src, doc.errors@) + focus_read(file, src, t).1 + integer_read(file, src, t, "started"@).1 + offset_read(
        file,
        src,
        t,
    ).1 + integer_read(file, src, t, "refreshed"@).1 + format_read(file, src, t).1 + boolean_read(file, src, t, "paused"@).1
        + flags_read(file, src, t).1 + optional_seconds_read(file, src, t, "target"@).1 + optional_seconds_read(
        file,
        src,
        t,
        "idle-from"@,
    ).1 + watch_read(file, src, t).1 + spans_read(file, src, t).1
}

/// A running file is read whole or refused with its reasons: the counter comes back exactly when
/// nothing is wrong with the file (the parser found no mistake, the focus, start, offset and
/// refresh are there and well typed, and no format marker, break flag, flag, countdown,
/// silence, watcher or span is mistyped, negative where it counts seconds, or unknown), and a
/// refused file always says what is wrong, every mistake of it in order.
pub proof fn law_a_running_file_is_read_whole_or_refused_with_its_reasons(file: Seq<char>, src: Seq<char>, doc: &Document)
    ensures
        (running_read(file, src, doc) is Ok) <==> running_read_notes(file, src, doc).len() == 0,
        running_read(file, src, doc) is Err ==> running_read(file, src, doc) == Err::<RunningView, Seq<DiagnosticView>>(
            running_read_notes(file, src, doc),
        ),
        running_read(file, src, doc) is Err ==> running_read_notes(file, src, doc).len() > 0,
        (running_read(file, src, doc) is Ok) <==> ({
            let t = doc.entries@;
            &&& doc.errors@.len() == 0
            &&& focus_read(file, src, t).1.len() == 0
            &&& integer_read(file, src, t, "started"@).1.len() == 0
            &&& offset_read(file, src, t).1.len() == 0
            &&& integer_read(file, src, t, "refreshed"@).1.len() == 0
            &&& format_read(file, src, t).1.len() == 0
            &&& boolean_read(file, src, t, "paused"@).1.len() == 0
            &&& flags_read(file, src, t).1.len() == 0
            &&& optional_seconds_read(file, src, t, "target"@).1.len() == 0
            &&& optional_seconds_read(file, src, t, "idle-from"@).1.len() == 0
            &&& watch_read(file, src, t).1.len() == 0
            &&& spans_read(file, src, t).1.len() == 0
        }),
{
    let t = doc.entries@;
    let notes = running_read_notes(file, src, doc);
    let (focus, d1) = focus_read(file, src, t);
    let (started, d2) = integer_read(file, src, t, "started"@);
    let (offset, d3) = offset_read(file, src, t);
    let (refreshed, d4) = integer_read(file, src, t, "refreshed"@);
    let (watch, d10) = watch_read(file, src, t);
    assert(focus is None ==> d1.len() > 0);
    assert(started is None ==> d2.len() > 0);
    assert(offset is None ==> d3.len() > 0);
    assert(refreshed is None ==> d4.len() > 0);
    assert(watch is None ==> d10.len() > 0);
    assert(notes.len() >= d1.len() + d2.len() + d3.len() + d4.len() + d10.len());
}

/// The `flags` list: each flag's word in quotes, in order.
pub open spec fn flag_list_is(flags: Seq<Flag>) -> spec_fn(Value) -> bool {
    |v: Value|
        match v {
            Value::List(items) => items@.len() == flags.len() && forall|i: int|
                0 <= i < items@.len() ==> text_is(flag_word(flags[i]))(#[trigger] items@[i].value),
            _ => false,
        }
}

/// Whether `table` holds the keys and values a `[[span]]` table is written as.
pub open spec fn span_table(table: Seq<Entry>, span: Span) -> bool {
    &&& holds_once(table, "kind"@, text_is(kind_word(span.kind)))
    &&& holds_once(table, "offset"@, whole_is(span.offset as int))
    &&& holds_once(table, "seconds"@, whole_is(span.seconds as int))
    &&& holds_once(table, "clock"@, text_is(clock_word_of(span.clock)))
}

/// The `[[span]]` tables of `spans`, one table each, in order.
pub open spec fn span_list_is(spans: Seq<Span>) -> spec_fn(Value) -> bool {
    |v: Value|
        match v {
            Value::List(items) => items@.len() == spans.len() && forall|i: int|
                0 <= i < items@.len() ==> match #[trigger] items@[i].value {
                    Value::Table(t) => span_table(t@, spans[i]),
                    _ => false,
                },
            _ => false,
        }
}

/// An optional count of seconds: held once when there is one, and not at all when there is none.
pub open spec fn optional_seconds_held(table: Seq<Entry>, key: Seq<char>, value: Option<u32>) -> bool {
    match value {
        Some(v) => holds_once(table, key, whole_is(v as int)),
        None => lacks(table, key),
    }
}

/// Whether `doc` is a document of the keys and values [`Running::write`] puts out for `r`,
/// without a mistake: the format marker, the focus, the start, the offset, the break, the refresh,
/// the flags, the countdown and the silence when there are any, who watches, and the
/// `[[span]]` tables, none when there is no span.
pub open spec fn holds_running(doc: &Document, r: RunningView) -> bool {
    let t = doc.entries@;
    &&& doc.errors@.len() == 0
    &&& holds_once(t, "format"@, whole_is(FORMAT as int))
    &&& holds_once(t, "focus"@, text_is(crockford_text(r.focus.value() as nat, LENGTH as nat)))
    &&& holds_once(t, "started"@, whole_is(r.started as int))
    &&& holds_once(t, "offset"@, whole_is(r.offset_minutes as int))
    &&& holds_once(t, "paused"@, boolean_is(r.paused))
    &&& holds_once(t, "refreshed"@, whole_is(r.refreshed as int))
    &&& holds_once(t, "flags"@, flag_list_is(r.flags))
    &&& optional_seconds_held(t, "target"@, r.target)
    &&& optional_seconds_held(t, "idle-from"@, r.idle_from)
    &&& holds_once(t, "watch"@, text_is(watch_word(r.watch)))
    &&& if r.spans.len() > 0 {
        holds_once(t, "span"@, span_list_is(r.spans))
    } else {
        lacks(t, "span"@)
    }
}

/// The words of kinds, clocks and watches read back as what they name.
proof fn lemma_words_read_back(kind: SpanKind, clock: ClockSource, watch: Watch)
    ensures
        kind_named(kind_word(kind)) == Some(kind),
        clock_named(clock_word_of(clock)) == Some(clock),
        watch_named(watch_word(watch)) == Some(watch),
{
    reveal_strlit("work");
    reveal_strlit("pause");
    reveal_strlit("gap");
    reveal_strlit("idle");
    reveal_strlit("mono");
    reveal_strlit("boot");
    reveal_strlit("wall");
    reveal_strlit("window");
    reveal_strlit("none");
    assert("pause"@[0] != "work"@[0]);
    assert("gap"@[0] != "work"@[0] && "gap"@[0] != "pause"@[0]);
    assert("idle"@[0] != "work"@[0] && "idle"@[0] != "pause"@[0] && "idle"@[0] != "gap"@[0]);
    assert("boot"@[0] != "mono"@[0]);
    assert("wall"@[0] != "mono"@[0] && "wall"@[0] != "boot"@[0]);
    assert("none"@[0] != "window"@[0]);
}

/// The first `n` flag words read back as the first `n` flags.
proof fn lemma_flags_read_back(file: Seq<char>, src: Seq<char>, items: Seq<Item>, flags: Seq<Flag>, n: int)
    requires
        0 <= n <= flags.len(),
        items.len() == flags.len(),
        forall|i: int| 0 <= i < items.len() ==> text_is(flag_word(flags[i]))(#[trigger] items[i].value),
    ensures
        flags_upto(file, src, items, n) == (flags.subrange(0, n), Seq::<DiagnosticView>::empty()),
    decreases n,
{
    if n > 0 {
        lemma_flags_read_back(file, src, items, flags, n - 1);
        crate::session::law_a_flag_reads_back_from_its_word(flags[n - 1]);
        assert(text_is(flag_word(flags[n - 1]))(items[n - 1].value));
        assert(flags.subrange(0, n) =~= flags.subrange(0, n - 1).push(flags[n - 1]));
    } else {
        assert(flags.subrange(0, 0) =~= Seq::<Flag>::empty());
    }
}

/// The first `n` span tables read back as the first `n` spans.
proof fn lemma_spans_read_back(file: Seq<char>, src: Seq<char>, items: Seq<Item>, spans: Seq<Span>, n: int)
    requires
        0 <= n <= spans.len(),
        items.len() == spans.len(),
        forall|i: int| 0 <= i < items.len() ==> match #[trigger] items[i].value {
            Value::Table(t) => span_table(t@, spans[i]),
            _ => false,
        },
    ensures
        spans_upto(file, src, items, n).0 == spans.subrange(0, n),
        spans_upto(file, src, items, n).1.len() == 0,
    decreases n,
{
    if n > 0 {
        lemma_spans_read_back(file, src, items, spans, n - 1);
        let s = spans[n - 1];
        let t = match items[n - 1].value {
            Value::Table(t) => t@,
            _ => Seq::empty(),
        };
        assert(span_table(t, s));
        lemma_words_read_back(s.kind, s.clock, Watch::Window);
        lemma_text_read(file, src, t, "kind"@, kind_word(s.kind));
        lemma_text_read(file, src, t, "clock"@, clock_word_of(s.clock));
        lemma_whole_read(file, src, t, "offset"@, s.offset as int);
        lemma_whole_read(file, src, t, "seconds"@, s.seconds as int);
        assert(span_read(file, src, t).0 == Some(s));
        assert(spans.subrange(0, n) =~= spans.subrange(0, n - 1).push(s));
    } else {
        assert(spans.subrange(0, 0) =~= Seq::<Span>::empty());
    }
}

/// An optional count of seconds held as it was written reads back as itself.
proof fn lemma_optional_seconds_read_back(file: Seq<char>, src: Seq<char>, table: Seq<Entry>, key: Seq<char>, value: Option<u32>)
    requires
        optional_seconds_held(table, key, value),
    ensures
        optional_seconds_read(file, src, table, key) == (value, Seq::<DiagnosticView>::empty()),
{
    match value {
        Some(v) => {
            lemma_holds_once(table, key, whole_is(v as int));
            lemma_whole_read(file, src, table, key, v as int);
        },
        None => lemma_lacks(table, key),
    }
}

/// What a read gives back of a write: a document holding the keys and values
/// [`Running::write`] puts out for a counter reads back as that counter, whenever its focus is
/// an identifier the text form carries. So a counter survives a restart as it was saved.
#[verifier::spinoff_prover]
#[verifier::rlimit(60)]
pub proof fn law_a_written_counter_reads_back_as_itself(file: Seq<char>, src: Seq<char>, doc: &Document, r: RunningView)
    requires
        holds_running(doc, r),
        r.focus.value() < 0x8000_0000_0000_0000_0000_0000_0000_0000,
    ensures
        running_read(file, src, doc) == Ok::<RunningView, Seq<DiagnosticView>>(r),
{
    let t = doc.entries@;
    lemma_words_read_back(SpanKind::Work, ClockSource::Mono, r.watch);
    let focus_text = crockford_text(r.focus.value() as nat, LENGTH as nat);
    lemma_text_read(file, src, t, "focus"@, focus_text);
    crate::id::law_an_identifier_reads_back_from_its_text(r.focus);
    r.focus.lemma_value(r.focus.value());
    lemma_whole_read(file, src, t, "started"@, r.started as int);
    lemma_whole_read(file, src, t, "offset"@, r.offset_minutes as int);
    lemma_whole_read(file, src, t, "refreshed"@, r.refreshed as int);
    lemma_whole_read(file, src, t, "format"@, FORMAT as int);
    lemma_holds_once(t, "format"@, whole_is(FORMAT as int));
    lemma_holds_once(t, "paused"@, boolean_is(r.paused));
    lemma_holds_once(t, "flags"@, flag_list_is(r.flags));
    let i = find(t, "flags"@).unwrap();
    let flag_items = match t[i].value {
        Value::List(items) => items@,
        _ => Seq::empty(),
    };
    lemma_flags_read_back(file, src, flag_items, r.flags, r.flags.len() as int);
    assert(r.flags.subrange(0, r.flags.len() as int) =~= r.flags);
    lemma_optional_seconds_read_back(file, src, t, "target"@, r.target);
    lemma_optional_seconds_read_back(file, src, t, "idle-from"@, r.idle_from);
    lemma_holds_once(t, "watch"@, text_is(watch_word(r.watch)));
    lemma_text_read(file, src, t, "watch"@, watch_word(r.watch));
    if r.spans.len() > 0 {
        lemma_holds_once(t, "span"@, span_list_is(r.spans));
        let k = find(t, "span"@).unwrap();
        let span_items = match t[k].value {
            Value::List(items) => items@,
            _ => Seq::empty(),
        };
        lemma_spans_read_back(file, src, span_items, r.spans, r.spans.len() as int);
        assert(r.spans.subrange(0, r.spans.len() as int) =~= r.spans);
    } else {
        lemma_lacks(t, "span"@);
        assert(spans_read(file, src, t).0 =~= r.spans);
    }
    assert(error_notes(file, src, doc.errors@) =~= Seq::<DiagnosticView>::empty());
    assert(running_read_notes(file, src, doc) =~= Seq::<DiagnosticView>::empty());
}

} // verus!
