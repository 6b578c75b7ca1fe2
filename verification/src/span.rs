//! The pieces a session is made of.
//!
//! A session is not one stretch of time with totals beside it: where a break or a sleep sits is
//! part of the record. A session that began at nine, took a two hour break and holds ten minutes of
//! work would otherwise draw a full block from nine to eleven ten and print "10 min" beside it.

use vstd::prelude::*;

use crate::text::{decimal, push_str, push_u64, string_of};

verus! {

/// What a person was doing during a span.
#[derive(Debug, Clone, Copy, PartialEq, Eq, Structural)]
pub enum SpanKind {
    /// Working. Only these spans count towards the time recorded.
    Work,
    /// A break the person took on purpose.
    Pause,
    /// Nothing measured this time: the program was not running, or, in records written before
    /// a sleep counted as the kind it interrupted, the machine slept. It never counts.
    Gap,
    /// No input reached the terminal and the person has not said whether it was work.
    Idle,
}

/// The clock a span was measured with.
#[derive(Debug, Clone, Copy, PartialEq, Eq, Structural)]
pub enum ClockSource {
    /// The monotonic clock, which stops while the machine sleeps.
    Mono,
    /// The clock that keeps counting while the machine sleeps.
    Boot,
    /// The wall clock, for spans a person typed in by hand.
    Wall,
}

/// One stretch of a session.
#[derive(Debug, Clone, Copy, PartialEq, Eq, Structural)]
pub struct Span {
    /// What the person was doing.
    pub kind: SpanKind,
    /// Seconds between the start of the session and the start of this span.
    pub offset: u32,
    /// How long the span lasted, in seconds.
    pub seconds: u32,
    /// The clock it was measured with.
    pub clock: ClockSource,
}

/// The second after `span` ends, counted from the start of the session.
pub open spec fn end_of(span: Span) -> int {
    span.offset + span.seconds
}

/// Seconds of work in `spans`.
pub open spec fn work_of(spans: Seq<Span>) -> int
    decreases spans.len(),
{
    if spans.len() == 0 {
        0
    } else {
        work_of(spans.drop_last()) + if spans.last().kind == SpanKind::Work {
            spans.last().seconds as int
        } else {
            0
        }
    }
}

/// Where the `i`th span of spans that hold together starts: where the one before it ends.
pub open spec fn start_of(spans: Seq<Span>, i: int) -> int {
    if i == 0 {
        0
    } else {
        end_of(spans[i - 1])
    }
}

/// Where spans that hold together end: at the end of the last one, or at zero.
pub open spec fn end_of_all(spans: Seq<Span>) -> int {
    start_of(spans, spans.len() as int)
}

/// Whether a span is a sleep measured with the clock that does not count sleep.
pub open spec fn sleep_on_mono(span: Span) -> bool {
    span.kind == SpanKind::Gap && span.clock == ClockSource::Mono
}

/// Whether `spans` fill a session of `total` seconds: each starts where the one before ends, the
/// first at zero, the last ends at `total`, and no sleep comes from the monotonic clock.
pub open spec fn holds_together(spans: Seq<Span>, total: int) -> bool {
    &&& forall|i: int| 0 <= i < spans.len() ==> (#[trigger] spans[i]).offset == start_of(spans, i)
    &&& forall|i: int| 0 <= i < spans.len() ==> !sleep_on_mono(#[trigger] spans[i])
    &&& end_of_all(spans) == total
}

/// How far the first `n` spans reach: the furthest end seen so far.
pub open spec fn reach_of(spans: Seq<Span>, n: int) -> int
    decreases n,
{
    if n <= 0 {
        0
    } else {
        let before = reach_of(spans, n - 1);
        if end_of(spans[n - 1]) > before {
            end_of(spans[n - 1])
        } else {
            before
        }
    }
}

/// The message for a span that does not start where it should.
pub open spec fn start_problem(number: int, offset: int, expected: int) -> Seq<char> {
    "span "@ + decimal(number as nat) + " starts at "@ + decimal(offset as nat) + ", expected "@ + decimal(
        expected as nat,
    )
}

/// The message for a sleep measured with the monotonic clock.
pub open spec fn sleep_problem(number: int) -> Seq<char> {
    "span "@ + decimal(number as nat) + " is a sleep measured with the monotonic clock"@
}

/// The message for spans that do not fill the session.
pub open spec fn cover_problem(covered: int, total: int) -> Seq<char> {
    "spans cover "@ + decimal(covered as nat) + " seconds, the session lasts "@ + decimal(total as nat)
}

/// The problems of the first `n` spans, in order.
pub open spec fn span_problems(spans: Seq<Span>, n: int) -> Seq<Seq<char>>
    decreases n,
{
    if n <= 0 {
        Seq::empty()
    } else {
        let span = spans[n - 1];
        let expected = reach_of(spans, n - 1);
        span_problems(spans, n - 1) + (if span.offset != expected {
            seq![start_problem(n, span.offset as int, expected)]
        } else {
            Seq::empty()
        }) + (if sleep_on_mono(span) {
            seq![sleep_problem(n)]
        } else {
            Seq::empty()
        })
    }
}

/// How many of the first `n` spans do not start where the ones before them end, or at zero.
pub open spec fn misplaced_upto(spans: Seq<Span>, n: int) -> nat
    decreases n,
{
    if n <= 0 {
        0
    } else {
        misplaced_upto(spans, n - 1) + if spans[n - 1].offset != reach_of(spans, n - 1) { 1nat } else { 0nat }
    }
}

/// How many of the first `n` spans are sleeps measured by the monotonic clock.
pub open spec fn mono_sleeps_upto(spans: Seq<Span>, n: int) -> nat
    decreases n,
{
    if n <= 0 {
        0
    } else {
        mono_sleeps_upto(spans, n - 1) + if sleep_on_mono(spans[n - 1]) { 1nat } else { 0nat }
    }
}

/// What [`check`] finds, counted: one problem for each span that does not start where the ones
/// before it end (or at zero), one for each sleep measured by the monotonic clock, and one more
/// when the spans do not end exactly at the total.
pub proof fn law_the_problems_check_finds_counted(spans: Seq<Span>, total: int)
    ensures
        problems(spans, total).len() == misplaced_upto(spans, spans.len() as int) + mono_sleeps_upto(
            spans,
            spans.len() as int,
        ) + if reach_of(spans, spans.len() as int) != total { 1int } else { 0int },
{
    lemma_span_problems_counted(spans, spans.len() as int);
}

/// The problems of the first `n` spans, counted.
proof fn lemma_span_problems_counted(spans: Seq<Span>, n: int)
    ensures
        span_problems(spans, n).len() == misplaced_upto(spans, n) + mono_sleeps_upto(spans, n),
    decreases n,
{
    if n > 0 {
        lemma_span_problems_counted(spans, n - 1);
    }
}

/// Work never shrinks as more spans are counted.
pub proof fn lemma_work_of_prefix(spans: Seq<Span>, n: int)
    requires
        0 <= n <= spans.len(),
    ensures
        0 <= work_of(spans.subrange(0, n)) <= work_of(spans),
    decreases spans.len(),
{
    if n == spans.len() {
        assert(spans.subrange(0, n) =~= spans);
        lemma_work_of_prefix_nonnegative(spans);
    } else {
        lemma_work_of_prefix(spans.drop_last(), n);
        assert(spans.drop_last().subrange(0, n) =~= spans.subrange(0, n));
    }
}

/// Work is never negative.
proof fn lemma_work_of_prefix_nonnegative(spans: Seq<Span>)
    ensures
        work_of(spans) >= 0,
    decreases spans.len(),
{
    if spans.len() > 0 {
        lemma_work_of_prefix_nonnegative(spans.drop_last());
    }
}

/// Work is at most the seconds the spans cover when they hold together.
pub proof fn lemma_work_within_end(spans: Seq<Span>)
    requires
        forall|i: int| 0 <= i < spans.len() ==> (#[trigger] spans[i]).offset == start_of(spans, i),
    ensures
        0 <= work_of(spans) <= end_of_all(spans),
    decreases spans.len(),
{
    if spans.len() > 0 {
        let shorter = spans.drop_last();
        assert forall|i: int| 0 <= i < shorter.len() implies (#[trigger] shorter[i]).offset == start_of(
            shorter,
            i,
        ) by {
            assert(shorter[i] == spans[i]);
            if i > 0 {
                assert(shorter[i - 1] == spans[i - 1]);
            }
        }
        lemma_work_within_end(shorter);
        assert(spans[spans.len() - 1].offset == start_of(spans, spans.len() - 1));
        if spans.len() > 1 {
            assert(shorter[shorter.len() - 1] == spans[spans.len() - 2]);
        }
    }
}

/// Everything wrong with `spans` for a session of `total` seconds, in the order [`check`] reports
/// it.
pub open spec fn problems(spans: Seq<Span>, total: int) -> Seq<Seq<char>> {
    let covered = reach_of(spans, spans.len() as int);
    span_problems(spans, spans.len() as int) + (if covered != total {
        seq![cover_problem(covered, total)]
    } else {
        Seq::empty()
    })
}

impl Span {
    /// A span of `seconds` starting `offset` seconds into the session.
    pub fn new(kind: SpanKind, offset: u32, seconds: u32, clock: ClockSource) -> (span: Self)
        ensures
            span == (Span { kind, offset, seconds, clock }),
    {
        Self { kind, offset, seconds, clock }
    }

    /// The second after this span ends, counted from the start of the session.
    pub fn end(&self) -> (end: u64)
        ensures
            end == end_of(*self),
    {
        self.offset as u64 + self.seconds as u64
    }
}

/// Seconds of work in `spans`. The time a session records is never stored; it is always this sum,
/// so a gap found by mistake can be corrected without touching the record.
pub fn work_seconds(spans: &[Span]) -> (seconds: u64)
    requires
        work_of(spans@) <= u64::MAX,
    ensures
        seconds == work_of(spans@),
{
    let mut sum: u64 = 0;
    let mut i: usize = 0;
    while i < spans.len()
        invariant
            i <= spans@.len(),
            sum == work_of(spans@.subrange(0, i as int)),
            work_of(spans@) <= u64::MAX,
        decreases spans@.len() - i,
    {
        assert(spans@.subrange(0, i + 1).drop_last() =~= spans@.subrange(0, i as int));
        proof {
            lemma_work_of_prefix(spans@, i + 1);
        }
        if spans[i].kind == SpanKind::Work {
            sum = sum + spans[i].seconds as u64;
        }
        i = i + 1;
    }
    assert(spans@.subrange(0, spans@.len() as int) =~= spans@);
    sum
}

/// Everything wrong with `spans` for a session of `total` seconds; empty when they hold together.
///
/// Spans follow one another without a hole and without overlapping, and together they fill the
/// session. A sleep span may not come from the monotonic clock, because sleep is exactly the time
/// that clock does not count.
pub fn check(spans: &[Span], total: u32) -> (found: Vec<String>)
    ensures
        found@.len() == problems(spans@, total as int).len(),
        forall|i: int| 0 <= i < found@.len() ==> (#[trigger] found@[i])@ == problems(spans@, total as int)[i],
{
    let mut found: Vec<String> = Vec::new();
    let mut expected: u64 = 0;
    let mut index: usize = 0;
    while index < spans.len()
        invariant
            index <= spans@.len(),
            expected == reach_of(spans@, index as int),
            expected <= 0x1_ffff_fffe,
            found@.len() == span_problems(spans@, index as int).len(),
            forall|i: int|
                0 <= i < found@.len() ==> (#[trigger] found@[i])@ == span_problems(spans@, index as int)[i],
        decreases spans@.len() - index,
    {
        let span = spans[index];
        let number: u64 = index as u64 + 1;
        let ghost before = found@;
        if span.offset as u64 != expected {
            let mut message: Vec<char> = Vec::new();
            push_str(&mut message, "span ");
            push_u64(&mut message, number);
            push_str(&mut message, " starts at ");
            push_u64(&mut message, span.offset as u64);
            push_str(&mut message, ", expected ");
            push_u64(&mut message, expected);
            found.push(string_of(&message));
        }
        let ghost middle = found@;
        if span.kind == SpanKind::Gap && span.clock == ClockSource::Mono {
            let mut message: Vec<char> = Vec::new();
            push_str(&mut message, "span ");
            push_u64(&mut message, number);
            push_str(&mut message, " is a sleep measured with the monotonic clock");
            found.push(string_of(&message));
        }
        let end = span.end();
        if end > expected {
            expected = end;
        }
        index = index + 1;
        proof {
            let target = span_problems(spans@, index as int);
            let previous = span_problems(spans@, index - 1);
            assert forall|i: int| 0 <= i < found@.len() implies (#[trigger] found@[i])@ == target[i] by {
                if i < before.len() {
                    assert(found@[i] == before[i]);
                } else if i < middle.len() {
                    assert(found@[i] == middle[i]);
                }
            }
        }
    }
    let ghost before = found@;
    if expected != total as u64 {
        let mut message: Vec<char> = Vec::new();
        push_str(&mut message, "spans cover ");
        push_u64(&mut message, expected);
        push_str(&mut message, " seconds, the session lasts ");
        push_u64(&mut message, total as u64);
        found.push(string_of(&message));
    }
    proof {
        let target = problems(spans@, total as int);
        assert forall|i: int| 0 <= i < found@.len() implies (#[trigger] found@[i])@ == target[i] by {
            if i < before.len() {
                assert(found@[i] == before[i]);
            }
        }
    }
    found
}

/// Spans that hold together reach exactly as far as the last one ends.
proof fn lemma_reach_of_held(spans: Seq<Span>, n: int)
    requires
        0 <= n <= spans.len(),
        forall|i: int| 0 <= i < n ==> (#[trigger] spans[i]).offset == start_of(spans, i),
    ensures
        reach_of(spans, n) == start_of(spans, n),
        span_problems(spans, n).len() == 0 <==> forall|i: int| 0 <= i < n ==> !sleep_on_mono(#[trigger] spans[i]),
    decreases n,
{
    if n > 0 {
        lemma_reach_of_held(spans, n - 1);
        assert(spans[n - 1].offset == start_of(spans, n - 1));
        if forall|i: int| 0 <= i < n ==> !sleep_on_mono(#[trigger] spans[i]) {
            assert(!sleep_on_mono(spans[n - 1]));
            assert forall|i: int| 0 <= i < n - 1 implies !sleep_on_mono(#[trigger] spans[i]) by {}
        }
    }
}

/// Once a span is out of place, the problems of every longer prefix are not empty.
proof fn lemma_problems_only_grow(spans: Seq<Span>, n: int, m: int)
    requires
        0 <= n <= m <= spans.len(),
    ensures
        span_problems(spans, n).len() <= span_problems(spans, m).len(),
    decreases m - n,
{
    if n < m {
        lemma_problems_only_grow(spans, n, m - 1);
    }
}

/// The spans whose prefix of `n` holds together start where they should; the first out of
/// place gives a problem.
proof fn lemma_first_misplaced(spans: Seq<Span>, n: int)
    requires
        0 <= n <= spans.len(),
        span_problems(spans, n).len() == 0,
    ensures
        forall|i: int| 0 <= i < n ==> (#[trigger] spans[i]).offset == start_of(spans, i),
    decreases n,
{
    if n > 0 {
        lemma_problems_only_grow(spans, n - 1, n);
        lemma_first_misplaced(spans, n - 1);
        lemma_reach_of_held(spans, n - 1);
    }
}

/// `check` finds nothing exactly when the spans hold together: a session whose spans fill it
/// from its start to its end, one after the other, with no sleep measured by the monotonic clock.
pub proof fn law_check_is_empty_exactly_when_spans_hold_together(spans: Seq<Span>, total: int)
    ensures
        problems(spans, total).len() == 0 <==> holds_together(spans, total),
{
    let n = spans.len() as int;
    if problems(spans, total).len() == 0 {
        assert(span_problems(spans, n).len() == 0);
        lemma_first_misplaced(spans, n);
        lemma_reach_of_held(spans, n);
    }
    if holds_together(spans, total) {
        lemma_reach_of_held(spans, n);
    }
}

} // verus!
