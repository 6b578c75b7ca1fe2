//! Why a session line reads back as the session it was written from.

use vstd::prelude::*;

use super::line::{
    clock_letter, clock_named, escape_char, escaped, fields_of, flag_words, id_text, id_result, joined, kind_letter, kind_named,
    line_of, line_result, link_result, link_text, number_result, session_result, span_result, span_text, span_texts,
    spans_result, spans_result_upto, flags_result, flags_result_upto, split_state, fields_read, unescape_char, FIELDS,
    VERSION, ProblemView, blank, location_at, reading_of, reading_upto, span_total, stripped, warnings,
};
use crate::span::problems;
use super::{Flag, SessionView, Source, flag_named, flag_word, law_a_flag_reads_back_from_its_word, law_a_source_reads_back_from_its_word, source_word};
use crate::id::{Id, LENGTH, crockford_char, crockford_text, law_an_identifier_reads_back_from_its_text};
use crate::span::{ClockSource, Span, SpanKind};
use crate::text::{
    all_digits, decimal, is_digit, lemma_decimal_reads_back, lemma_signed_decimal_chars, lemma_signed_decimal_reads_back,
    lemma_unsigned_decimal_reads_back, signed_decimal, signed_value, split_on, unsigned_value,
};

verus! {

/// Whether `text` holds no `c`.
pub open spec fn free_of(text: Seq<char>, c: char) -> bool {
    forall|i: int| 0 <= i < text.len() ==> text[i] != c
}

/// Whether a field can be written as it is: it holds neither the separator nor a backslash.
pub open spec fn plain(text: Seq<char>) -> bool {
    free_of(text, ';') && free_of(text, '\\')
}

/// Plain text read after a field that is not waiting for an escaped character joins that field.
proof fn lemma_split_plain(a: Seq<char>, b: Seq<char>)
    requires
        !split_state(a).1,
        plain(b),
    ensures
        split_state(a + b) == (
            split_state(a).0.update(split_state(a).0.len() - 1, split_state(a).0.last() + b),
            false,
        ),
    decreases b.len(),
{
    lemma_states_not_empty(a);
    if b.len() == 0 {
        assert(a + b =~= a);
        assert(split_state(a).0.last() + b =~= split_state(a).0.last());
        assert(split_state(a).0.update(split_state(a).0.len() - 1, split_state(a).0.last()) =~~= split_state(a).0);
    } else {
        let shorter = b.drop_last();
        assert(plain(shorter));
        lemma_split_plain(a, shorter);
        assert((a + b).drop_last() =~= a + shorter);
        assert((a + b).last() == b.last());
        let fs = split_state(a).0;
        let mid = fs.update(fs.len() - 1, fs.last() + shorter);
        assert(mid.update(mid.len() - 1, mid[mid.len() - 1].push(b.last())) =~~= fs.update(fs.len() - 1, fs.last() + b));
    }
}

/// The split state always holds at least one field.
proof fn lemma_states_not_empty(line: Seq<char>)
    ensures
        split_state(line).0.len() >= 1,
    decreases line.len(),
{
    if line.len() > 0 {
        lemma_states_not_empty(line.drop_last());
    }
}

/// A separator read after a field that is not waiting opens a new, empty field.
proof fn lemma_split_separator(a: Seq<char>)
    requires
        !split_state(a).1,
    ensures
        split_state(a.push(';')) == (split_state(a).0.push(Seq::empty()), false),
{
    assert(a.push(';').drop_last() =~= a);
}

/// A note written with its escapes reads back as the note itself.
proof fn lemma_split_escaped(a: Seq<char>, note: Seq<char>)
    requires
        !split_state(a).1,
    ensures
        split_state(a + escaped(note)) == (
            split_state(a).0.update(split_state(a).0.len() - 1, split_state(a).0.last() + note),
            false,
        ),
    decreases note.len(),
{
    lemma_states_not_empty(a);
    let fs = split_state(a).0;
    if note.len() == 0 {
        assert(a + escaped(note) =~= a);
        assert(fs.update(fs.len() - 1, fs.last() + note) =~~= fs);
    } else {
        let shorter = note.drop_last();
        lemma_split_escaped(a, shorter);
        let c = note.last();
        let front = a + escaped(shorter);
        let mid = fs.update(fs.len() - 1, fs.last() + shorter);
        assert(a + escaped(note) =~= front + escape_char(c));
        let goal = fs.update(fs.len() - 1, fs.last() + note);
        assert(mid.update(mid.len() - 1, mid[mid.len() - 1].push(c)) =~~= goal);
        if c == '\\' || c == ';' || c == '\n' || c == '\r' {
            let t = escape_char(c);
            assert(front.push('\\').drop_last() =~= front);
            assert(split_state(front.push('\\')) == (split_state(front).0, true));
            assert(front + t =~= front.push('\\').push(t[1]));
            assert(front.push('\\').push(t[1]).drop_last() =~= front.push('\\'));
            assert(unescape_char(t[1]) == c);
            assert(split_state(front + t) == (mid.update(mid.len() - 1, mid[mid.len() - 1].push(c)), false));
        } else {
            assert((front + escape_char(c)) =~= front.push(c));
            assert(front.push(c).drop_last() =~= front);
            assert(split_state(front.push(c)) == (mid.update(mid.len() - 1, mid[mid.len() - 1].push(c)), false));
        }
    }
}

/// Plain fields joined by the separator read back as the same fields.
proof fn lemma_split_joined(fields: Seq<Seq<char>>, k: int)
    requires
        1 <= k <= fields.len(),
        forall|i: int| 0 <= i < k ==> plain(#[trigger] fields[i]),
    ensures
        split_state(joined(fields.subrange(0, k), ';')) == (fields.subrange(0, k), false),
    decreases k,
{
    if k == 1 {
        let empty = Seq::<char>::empty();
        assert(joined(fields.subrange(0, 1), ';') =~= empty + fields[0]);
        assert(split_state(empty) == (seq![empty], false));
        lemma_split_plain(empty, fields[0]);
        assert(seq![empty].update(0, empty + fields[0]) =~= fields.subrange(0, 1));
    } else {
        lemma_split_joined(fields, k - 1);
        let front = joined(fields.subrange(0, k - 1), ';');
        assert(fields.subrange(0, k).drop_last() =~= fields.subrange(0, k - 1));
        assert(joined(fields.subrange(0, k), ';') == front.push(';') + fields[k - 1]);
        lemma_split_separator(front);
        lemma_split_plain(front.push(';'), fields[k - 1]);
        let fs = fields.subrange(0, k - 1).push(Seq::empty());
        assert(fs.update(fs.len() - 1, fs.last() + fields[k - 1]) =~= fields.subrange(0, k));
    }
}

/// Text cut at a separator it does not hold after a separator-ended prefix.
proof fn lemma_split_on_plain(a: Seq<char>, b: Seq<char>, sep: char)
    requires
        free_of(b, sep),
    ensures
        split_on(a + b, sep) == split_on(a, sep).update(split_on(a, sep).len() - 1, split_on(a, sep).last() + b),
    decreases b.len(),
{
    crate::text::lemma_split_on_not_empty(a, sep);
    let ps = split_on(a, sep);
    if b.len() == 0 {
        assert(a + b =~= a);
        assert(ps.update(ps.len() - 1, ps.last() + b) =~~= ps);
    } else {
        let shorter = b.drop_last();
        lemma_split_on_plain(a, shorter, sep);
        assert((a + b).drop_last() =~= a + shorter);
        let mid = ps.update(ps.len() - 1, ps.last() + shorter);
        assert(mid.update(mid.len() - 1, mid.last().push(b.last())) =~~= ps.update(ps.len() - 1, ps.last() + b));
    }
}

/// Parts that do not hold the separator, joined by it, cut back into the same parts.
pub proof fn lemma_split_on_joined(parts: Seq<Seq<char>>, sep: char)
    requires
        parts.len() >= 1,
        forall|i: int| 0 <= i < parts.len() ==> free_of(#[trigger] parts[i], sep),
    ensures
        split_on(joined(parts, sep), sep) == parts,
    decreases parts.len(),
{
    if parts.len() == 1 {
        let empty = Seq::<char>::empty();
        lemma_split_on_plain(empty, parts[0], sep);
        assert(empty + parts[0] =~= parts[0]);
        assert(split_on(empty, sep) =~= seq![empty]);
        assert(seq![empty].update(0, empty + parts[0]) =~= parts);
    } else {
        let front = parts.drop_last();
        lemma_split_on_joined(front, sep);
        let j = joined(front, sep);
        assert(j.push(sep).drop_last() =~= j);
        lemma_split_on_plain(j.push(sep), parts.last(), sep);
        let ps = front.push(Seq::<char>::empty());
        assert(ps.update(ps.len() - 1, ps.last() + parts.last()) =~= parts);
    }
}

/// Joined parts hold nothing but what the parts and the separator hold.
proof fn lemma_joined_chars(parts: Seq<Seq<char>>, sep: char, c: char)
    requires
        sep != c,
        forall|i: int| 0 <= i < parts.len() ==> free_of(#[trigger] parts[i], c),
    ensures
        free_of(joined(parts, sep), c),
    decreases parts.len(),
{
    if parts.len() > 1 {
        lemma_joined_chars(parts.drop_last(), sep, c);
        let j = joined(parts.drop_last(), sep).push(sep);
        assert forall|i: int| 0 <= i < (j + parts.last()).len() implies (j + parts.last())[i] != c by {
            if i >= j.len() {
                assert((j + parts.last())[i] == parts.last()[i - j.len()]);
            }
        }
    } else if parts.len() == 1 {
        assert(free_of(parts[0], c));
    }
}

/// Joined parts, at least one of them not empty, are not empty.
proof fn lemma_joined_not_empty(parts: Seq<Seq<char>>, sep: char)
    requires
        parts.len() >= 1,
    ensures
        joined(parts, sep).len() >= parts[0].len(),
        parts.len() > 1 ==> joined(parts, sep).len() > 0,
    decreases parts.len(),
{
    if parts.len() > 1 {
        lemma_joined_not_empty(parts.drop_last(), sep);
    }
}

/// The digits of a number and the letters of an identifier are no separator or backslash.
proof fn lemma_digits_free(text: Seq<char>, c: char)
    requires
        forall|i: int| 0 <= i < text.len() ==> is_digit(#[trigger] text[i]) || text[i] == '-',
        !is_digit(c),
        c != '-',
    ensures
        free_of(text, c),
{
    assert forall|i: int| 0 <= i < text.len() implies text[i] != c by {
        assert(is_digit(text[i]) || text[i] == '-');
    }
}

/// The characters of an identifier are digits and capital letters.
proof fn lemma_crockford_text_chars(v: nat, n: nat)
    ensures
        forall|i: int| 0 <= i < n ==> {
            let c = #[trigger] crockford_text(v, n)[i];
            ('0' <= c && c <= '9') || ('A' <= c && c <= 'Z')
        },
        crockford_text(v, n).len() == n,
    decreases n,
{
    if n > 0 {
        lemma_crockford_text_chars(v / 32, (n - 1) as nat);
        let t = crockford_text(v, n);
        let d = v % 32;
        let c = crockford_char(d);
        if d < 10 {
            assert(c as nat == 48 + d);
        } else if d < 18 {
            assert(c as nat == 65 + d - 10);
        } else if d < 20 {
            assert(c as nat == 74 + d - 18);
        } else if d < 22 {
            assert(c as nat == 77 + d - 20);
        } else if d < 27 {
            assert(c as nat == 80 + d - 22);
        } else {
            assert(c as nat == 86 + d - 27);
        }
        assert forall|i: int| 0 <= i < n implies {
            let c = #[trigger] t[i];
            ('0' <= c && c <= '9') || ('A' <= c && c <= 'Z')
        } by {
            if i < n - 1 {
                assert(t[i] == crockford_text(v / 32, (n - 1) as nat)[i]);
            }
        }
    }
}

/// An identifier is written as plain text of 26 characters.
proof fn lemma_id_text_plain(id: Id)
    ensures
        plain(id_text(id)),
        free_of(id_text(id), ','),
        free_of(id_text(id), ':'),
        id_text(id).len() == LENGTH,
{
    lemma_crockford_text_chars(id.value() as nat, LENGTH as nat);
}

/// A number is written as plain text that holds no comma or colon.
proof fn lemma_number_plain(n: int)
    ensures
        plain(signed_decimal(n)),
        free_of(signed_decimal(n), ','),
        free_of(signed_decimal(n), ':'),
{
    lemma_signed_decimal_chars(n);
    lemma_digits_free(signed_decimal(n), ';');
    lemma_digits_free(signed_decimal(n), '\\');
    lemma_digits_free(signed_decimal(n), ',');
    lemma_digits_free(signed_decimal(n), ':');
}

/// The one-letter words of span kinds and clocks read back as what they name.
proof fn lemma_letter_words()
    ensures
        forall|kind: SpanKind| kind_named(#[trigger] seq![kind_letter(kind)]) == Some(kind),
        forall|clock: ClockSource| clock_named(#[trigger] seq![clock_letter(clock)]) == Some(clock),
{
    assert forall|kind: SpanKind| kind_named(#[trigger] seq![kind_letter(kind)]) == Some(kind) by {
        let w = seq![kind_letter(kind)];
        assert(w[0] == kind_letter(kind));
        assert(seq!['w'][0] == 'w' && seq!['p'][0] == 'p' && seq!['g'][0] == 'g' && seq!['i'][0] == 'i');
        match kind {
            SpanKind::Work => assert(w =~= seq!['w']),
            SpanKind::Pause => {
                assert(w =~= seq!['p']);
                assert(w != seq!['w']);
            },
            SpanKind::Gap => {
                assert(w =~= seq!['g']);
                assert(w != seq!['w'] && w != seq!['p']);
            },
            SpanKind::Idle => {
                assert(w =~= seq!['i']);
                assert(w != seq!['w'] && w != seq!['p'] && w != seq!['g']);
            },
        }
    }
    assert forall|clock: ClockSource| clock_named(#[trigger] seq![clock_letter(clock)]) == Some(clock) by {
        let w = seq![clock_letter(clock)];
        assert(w[0] == clock_letter(clock));
        assert(seq!['m'][0] == 'm' && seq!['b'][0] == 'b' && seq!['w'][0] == 'w');
        match clock {
            ClockSource::Mono => assert(w =~= seq!['m']),
            ClockSource::Boot => {
                assert(w =~= seq!['b']);
                assert(w != seq!['m']);
            },
            ClockSource::Wall => {
                assert(w =~= seq!['w']);
                assert(w != seq!['m'] && w != seq!['b']);
            },
        }
    }
}

/// A span is written as plain text without a comma, and reads back as itself.
proof fn lemma_span_text(span: Span)
    ensures
        plain(span_text(span)),
        free_of(span_text(span), ','),
        span_text(span).len() > 0,
        span_result(span_text(span)) == Ok::<Span, Seq<char>>(span),
{
    let k = seq![kind_letter(span.kind)];
    let c = seq![clock_letter(span.clock)];
    let o = decimal(span.offset as nat);
    let s = decimal(span.seconds as nat);
    lemma_number_plain(span.offset as int);
    lemma_number_plain(span.seconds as int);
    let parts = seq![k, o, s, c];
    assert(joined(parts, ':') =~= span_text(span)) by {
        assert(parts.drop_last().drop_last().drop_last() =~~= seq![k]);
        assert(parts.drop_last().drop_last() =~~= seq![k, o]);
        assert(parts.drop_last() =~~= seq![k, o, s]);
        assert(joined(seq![k], ':') == k);
        assert(joined(seq![k, o], ':') =~= k.push(':') + o);
        assert(joined(seq![k, o, s], ':') =~= k.push(':') + o + seq![':'] + s);
        assert(joined(parts, ':') =~= k.push(':') + o + seq![':'] + s + seq![':'] + c);
    }
    assert forall|i: int| 0 <= i < 4 implies free_of(#[trigger] parts[i], ':') by {}
    lemma_split_on_joined(parts, ':');
    lemma_letter_words();
    assert(kind_named(k) == Some(span.kind));
    assert(clock_named(c) == Some(span.clock));
    lemma_unsigned_decimal_reads_back(span.offset as nat);
    lemma_unsigned_decimal_reads_back(span.seconds as nat);
    assert forall|i: int| 0 <= i < span_text(span).len() implies span_text(span)[i] != ';' && span_text(span)[i] != '\\'
        && span_text(span)[i] != ',' by {
        let t = span_text(span);
        let front = seq![kind_letter(span.kind), ':'] + o + seq![':'] + s;
        assert(t =~= front + seq![':', clock_letter(span.clock)]);
        if i < 2 {
        } else if i < 2 + o.len() {
            assert(t[i] == o[i - 2]);
        } else if i == 2 + o.len() {
        } else if i < 3 + o.len() + s.len() {
            assert(t[i] == s[i - 3 - o.len()]);
        }
    }
}

/// The word of a source is plain text that is not empty.
proof fn lemma_source_word_plain(source: Source)
    ensures
        plain(source_word(source)),
        source_word(source).len() > 0,
{
    reveal_strlit("timer");
    reveal_strlit("manual");
    reveal_strlit("recovered");
    reveal_strlit("edited");
    let w = source_word(source);
    assert forall|i: int| 0 <= i < w.len() implies w[i] != ';' && w[i] != '\\' by {}
}

/// The word of a flag is plain text without a comma that is not empty.
proof fn lemma_flag_word_plain(flag: Flag)
    ensures
        plain(flag_word(flag)),
        free_of(flag_word(flag), ','),
        flag_word(flag).len() > 0,
{
    reveal_strlit("suspect-clock");
    reveal_strlit("over-ceiling");
    reveal_strlit("unclaimed-idle");
    let w = flag_word(flag);
    assert forall|i: int| 0 <= i < w.len() implies w[i] != ';' && w[i] != '\\' && w[i] != ',' by {}
}

/// The spans field is plain text and reads back as the spans it was written from.
proof fn lemma_spans_field(spans: Seq<Span>)
    ensures
        plain(joined(span_texts(spans), ',')),
        spans_result(joined(span_texts(spans), ',')) == Ok::<Seq<Span>, Seq<char>>(spans),
{
    let texts = span_texts(spans);
    let text = joined(texts, ',');
    assert forall|i: int| 0 <= i < texts.len() implies plain(#[trigger] texts[i]) && free_of(texts[i], ',')
        && span_result(texts[i]) == Ok::<Span, Seq<char>>(spans[i]) by {
        lemma_span_text(spans[i]);
    }
    lemma_joined_chars(texts, ',', ';');
    lemma_joined_chars(texts, ',', '\\');
    if spans.len() == 0 {
        assert(texts =~= Seq::<Seq<char>>::empty());
        assert(spans =~= Seq::<Span>::empty());
    } else {
        lemma_span_text(spans[0]);
        lemma_joined_not_empty(texts, ',');
        lemma_split_on_joined(texts, ',');
        lemma_spans_upto(spans, spans.len() as int);
        assert(spans.subrange(0, spans.len() as int) =~= spans);
    }
}

/// The first `n` span texts read back as the first `n` spans.
proof fn lemma_spans_upto(spans: Seq<Span>, n: int)
    requires
        0 <= n <= spans.len(),
    ensures
        spans_result_upto(span_texts(spans), n) == Ok::<Seq<Span>, Seq<char>>(spans.subrange(0, n)),
    decreases n,
{
    if n > 0 {
        lemma_spans_upto(spans, n - 1);
        lemma_span_text(spans[n - 1]);
        assert(spans.subrange(0, n - 1).push(spans[n - 1]) =~= spans.subrange(0, n));
    } else {
        assert(spans.subrange(0, 0) =~= Seq::<Span>::empty());
    }
}

/// The flags field is plain text and reads back as the flags it was written from.
proof fn lemma_flags_field(flags: Seq<Flag>)
    ensures
        plain(joined(flag_words(flags), ',')),
        flags_result(joined(flag_words(flags), ',')) == Ok::<Seq<Flag>, Seq<char>>(flags),
{
    let words = flag_words(flags);
    assert forall|i: int| 0 <= i < words.len() implies plain(#[trigger] words[i]) && free_of(words[i], ',')
        && flag_named(words[i]) == Some(flags[i]) by {
        lemma_flag_word_plain(flags[i]);
        law_a_flag_reads_back_from_its_word(flags[i]);
    }
    lemma_joined_chars(words, ',', ';');
    lemma_joined_chars(words, ',', '\\');
    if flags.len() == 0 {
        assert(flags =~= Seq::<Flag>::empty());
    } else {
        lemma_flag_word_plain(flags[0]);
        lemma_joined_not_empty(words, ',');
        lemma_split_on_joined(words, ',');
        lemma_flags_upto(flags, flags.len() as int);
        assert(flags.subrange(0, flags.len() as int) =~= flags);
    }
}

/// The first `n` flag words read back as the first `n` flags.
proof fn lemma_flags_upto(flags: Seq<Flag>, n: int)
    requires
        0 <= n <= flags.len(),
    ensures
        flags_result_upto(flag_words(flags), n) == Ok::<Seq<Flag>, Seq<char>>(flags.subrange(0, n)),
    decreases n,
{
    if n > 0 {
        lemma_flags_upto(flags, n - 1);
        law_a_flag_reads_back_from_its_word(flags[n - 1]);
        assert(flags.subrange(0, n - 1).push(flags[n - 1]) =~= flags.subrange(0, n));
    } else {
        assert(flags.subrange(0, 0) =~= Seq::<Flag>::empty());
    }
}

/// An identifier the text form can carry reads back from its field.
proof fn lemma_id_field(id: Id, name: Seq<char>)
    requires
        id.value() < 0x8000_0000_0000_0000_0000_0000_0000_0000,
    ensures
        id_result(id_text(id), name) == Ok::<Id, Seq<char>>(id),
        plain(id_text(id)),
{
    law_an_identifier_reads_back_from_its_text(id);
    id.lemma_value(id.value());
    lemma_id_text_plain(id);
}

/// Whether an optional identifier is one the text form can carry.
pub open spec fn link_in_reach(link: Option<Id>) -> bool {
    match link {
        Some(id) => id.value() < 0x8000_0000_0000_0000_0000_0000_0000_0000,
        None => true,
    }
}

/// A link field reads back as the link it was written from.
proof fn lemma_link_field(link: Option<Id>, name: Seq<char>)
    requires
        link_in_reach(link),
    ensures
        link_result(link_text(link), name) == Ok::<Option<Id>, Seq<char>>(link),
        plain(link_text(link)),
{
    match link {
        Some(id) => {
            lemma_id_field(id, name);
            lemma_id_text_plain(id);
        },
        None => {},
    }
}

/// A number field reads back as the number, signed or not, when it lies in the bounds.
proof fn lemma_number_field(n: int, name: Seq<char>, signed: bool, low: int, high: int)
    requires
        low <= n <= high,
        !signed ==> n >= 0,
    ensures
        number_result(if signed { signed_decimal(n) } else { decimal(n as nat) }, name, signed, low, high) == Ok::<int, Seq<char>>(n),
        plain(if signed { signed_decimal(n) } else { decimal(n as nat) }),
{
    lemma_number_plain(n);
    if signed {
        lemma_signed_decimal_reads_back(n);
    } else {
        lemma_unsigned_decimal_reads_back(n as nat);
        assert(signed_decimal(n) == decimal(n as nat));
    }
}

/// Whether every identifier of a session is one the text form can carry: below 2^127, so that its
/// first character is at most `3`.
pub open spec fn ids_in_reach(session: SessionView) -> bool {
    &&& session.id.value() < 0x8000_0000_0000_0000_0000_0000_0000_0000
    &&& session.focus.value() < 0x8000_0000_0000_0000_0000_0000_0000_0000
    &&& link_in_reach(session.replaces)
    &&& link_in_reach(session.voids)
    &&& link_in_reach(session.continues)
}

/// The line a session is written as reads back as that session: no field is lost or changed on
/// the way, the note with its separators, backslashes and line endings included.
pub proof fn law_a_session_line_reads_back_as_the_session(session: SessionView)
    requires
        ids_in_reach(session),
    ensures
        line_result(line_of(session)) == Ok::<SessionView, ProblemView>(session),
{
    let f = fields_of(session);
    reveal_strlit("qf1");
    assert(plain(f[0])) by {
        assert forall|i: int| 0 <= i < f[0].len() implies f[0][i] != ';' && f[0][i] != '\\' by {}
    }
    lemma_id_field(session.id, "id"@);
    lemma_number_field(session.revision as int, "revision"@, false, 0, u32::MAX as int);
    lemma_number_field(session.written as int, "written"@, true, i64::MIN as int, i64::MAX as int);
    lemma_id_field(session.focus, "focus"@);
    lemma_number_field(session.started as int, "start"@, true, i64::MIN as int, i64::MAX as int);
    lemma_number_field(session.offset_minutes as int, "offset"@, true, i16::MIN as int, i16::MAX as int);
    lemma_number_field(session.ended as int, "end"@, true, i64::MIN as int, i64::MAX as int);
    lemma_spans_field(session.spans);
    lemma_source_word_plain(session.source);
    law_a_source_reads_back_from_its_word(session.source);
    lemma_link_field(session.replaces, "replaces"@);
    lemma_link_field(session.voids, "voids"@);
    lemma_link_field(session.continues, "continues"@);
    lemma_flags_field(session.flags);
    assert forall|i: int| 0 <= i < 14 implies plain(#[trigger] f[i]) by {}
    lemma_split_joined(f, 14);
    let front = joined(f.subrange(0, 14), ';');
    assert(f.drop_last() =~= f.subrange(0, 14));
    assert(line_of(session) == front.push(';') + escaped(session.note));
    lemma_split_separator(front);
    lemma_split_escaped(front.push(';'), session.note);
    let fs = f.subrange(0, 14).push(Seq::<char>::empty());
    let read = fs.update(14, Seq::<char>::empty() + session.note);
    assert(fields_read(line_of(session)) == read);
    assert(Seq::<char>::empty() + session.note =~= session.note);
    assert(read[0] == VERSION@);
    assert(read.len() == FIELDS);
    assert(session_result(read) == Ok::<SessionView, Seq<char>>(session));
}

/// Whether `text` holds no line ending.
pub open spec fn one_line(text: Seq<char>) -> bool {
    free_of(text, '\n') && free_of(text, '\r')
}

/// Digits, with a sign or not, are no line ending.
proof fn lemma_number_one_line(n: int)
    ensures
        one_line(signed_decimal(n)),
        n >= 0 ==> one_line(decimal(n as nat)),
{
    lemma_signed_decimal_chars(n);
    lemma_digits_free(signed_decimal(n), '\n');
    lemma_digits_free(signed_decimal(n), '\r');
}

/// An identifier is written without a line ending.
proof fn lemma_id_one_line(id: Id)
    ensures
        one_line(id_text(id)),
{
    lemma_crockford_text_chars(id.value() as nat, LENGTH as nat);
}

/// A span is written without a line ending.
proof fn lemma_span_one_line(span: Span)
    ensures
        one_line(span_text(span)),
{
    let o = decimal(span.offset as nat);
    let s = decimal(span.seconds as nat);
    lemma_number_one_line(span.offset as int);
    lemma_number_one_line(span.seconds as int);
    let t = span_text(span);
    assert forall|i: int| 0 <= i < t.len() implies t[i] != '\n' && t[i] != '\r' by {
        let front = seq![kind_letter(span.kind), ':'] + o + seq![':'] + s;
        assert(t =~= front + seq![':', clock_letter(span.clock)]);
        if i < 2 {
        } else if i < 2 + o.len() {
            assert(t[i] == o[i - 2]);
        } else if i == 2 + o.len() {
        } else if i < 3 + o.len() + s.len() {
            assert(t[i] == s[i - 3 - o.len()]);
        }
    }
}

/// A note is written without a line ending: each one it holds goes behind a backslash as a letter.
proof fn lemma_escaped_one_line(note: Seq<char>)
    ensures
        one_line(escaped(note)),
    decreases note.len(),
{
    if note.len() > 0 {
        lemma_escaped_one_line(note.drop_last());
        let front = escaped(note.drop_last());
        let tail = escape_char(note.last());
        assert(escaped(note) == front + tail);
        assert forall|i: int| 0 <= i < (front + tail).len() implies (front + tail)[i] != '\n' && (front + tail)[i] != '\r' by {
            if i >= front.len() {
                assert((front + tail)[i] == tail[i - front.len()]);
            }
        }
    }
}

/// Every field of a session line is written without a line ending.
proof fn lemma_fields_one_line(session: SessionView)
    ensures
        forall|i: int| 0 <= i < FIELDS ==> one_line(#[trigger] fields_of(session)[i]),
{
    let f = fields_of(session);
    reveal_strlit("qf1");
    reveal_strlit("timer");
    reveal_strlit("manual");
    reveal_strlit("recovered");
    reveal_strlit("edited");
    assert(one_line(f[0])) by {
        assert forall|i: int| 0 <= i < f[0].len() implies f[0][i] != '\n' && f[0][i] != '\r' by {}
    }
    lemma_id_one_line(session.id);
    lemma_id_one_line(session.focus);
    lemma_number_one_line(session.revision as int);
    lemma_number_one_line(session.written as int);
    lemma_number_one_line(session.started as int);
    lemma_number_one_line(session.offset_minutes as int);
    lemma_number_one_line(session.ended as int);
    let texts = span_texts(session.spans);
    assert forall|i: int| 0 <= i < texts.len() implies free_of(#[trigger] texts[i], '\n') && free_of(texts[i], '\r') by {
        lemma_span_one_line(session.spans[i]);
    }
    lemma_joined_chars(texts, ',', '\n');
    lemma_joined_chars(texts, ',', '\r');
    let w = source_word(session.source);
    assert(one_line(w)) by {
        assert forall|i: int| 0 <= i < w.len() implies w[i] != '\n' && w[i] != '\r' by {}
    }
    match session.replaces {
        Some(id) => lemma_id_one_line(id),
        None => {},
    }
    match session.voids {
        Some(id) => lemma_id_one_line(id),
        None => {},
    }
    match session.continues {
        Some(id) => lemma_id_one_line(id),
        None => {},
    }
    let words = flag_words(session.flags);
    assert forall|i: int| 0 <= i < words.len() implies free_of(#[trigger] words[i], '\n') && free_of(words[i], '\r') by {
        reveal_strlit("suspect-clock");
        reveal_strlit("over-ceiling");
        reveal_strlit("unclaimed-idle");
        let v = flag_word(session.flags[i]);
        assert forall|j: int| 0 <= j < v.len() implies v[j] != '\n' && v[j] != '\r' by {}
    }
    lemma_joined_chars(words, ',', '\n');
    lemma_joined_chars(words, ',', '\r');
    lemma_escaped_one_line(session.note);
}

/// Every field of a session line but the note is written as it is, the note last.
proof fn lemma_fields_plain(session: SessionView)
    ensures
        forall|i: int| 0 <= i < 14 ==> plain(#[trigger] fields_of(session)[i]),
{
    let f = fields_of(session);
    reveal_strlit("qf1");
    assert(plain(f[0])) by {
        assert forall|i: int| 0 <= i < f[0].len() implies f[0][i] != ';' && f[0][i] != '\\' by {}
    }
    lemma_id_text_plain(session.id);
    lemma_id_text_plain(session.focus);
    lemma_number_field(session.revision as int, "revision"@, false, 0, u32::MAX as int);
    lemma_number_plain(session.written as int);
    lemma_number_plain(session.started as int);
    lemma_number_plain(session.offset_minutes as int);
    lemma_number_plain(session.ended as int);
    lemma_spans_field(session.spans);
    lemma_source_word_plain(session.source);
    match session.replaces {
        Some(id) => lemma_id_text_plain(id),
        None => {},
    }
    match session.voids {
        Some(id) => lemma_id_text_plain(id),
        None => {},
    }
    match session.continues {
        Some(id) => lemma_id_text_plain(id),
        None => {},
    }
    lemma_flags_field(session.flags);
}

/// A session is written as one line, whatever its note holds: the line holds no line ending,
/// and it cuts back into its fifteen fields, the first fourteen as they were written and the
/// last the note itself, every separator and backslash in it undone.
pub proof fn law_a_session_is_one_line_of_fifteen_fields(session: SessionView)
    ensures
        one_line(line_of(session)),
        fields_read(line_of(session)).len() == FIELDS,
        fields_read(line_of(session)).subrange(0, 14) == fields_of(session).subrange(0, 14),
        fields_read(line_of(session))[14] == session.note,
{
    let f = fields_of(session);
    lemma_fields_one_line(session);
    assert forall|i: int| 0 <= i < f.len() implies free_of(#[trigger] f[i], '\n') && free_of(f[i], '\r') by {
        assert(one_line(f[i]));
    }
    lemma_joined_chars(f, ';', '\n');
    lemma_joined_chars(f, ';', '\r');
    lemma_fields_plain(session);
    lemma_split_joined(f, 14);
    let front = joined(f.subrange(0, 14), ';');
    assert(f.drop_last() =~= f.subrange(0, 14));
    assert(line_of(session) == front.push(';') + escaped(session.note));
    lemma_split_separator(front);
    lemma_split_escaped(front.push(';'), session.note);
    let fs = f.subrange(0, 14).push(Seq::<char>::empty());
    let read = fs.update(14, Seq::<char>::empty() + session.note);
    assert(fields_read(line_of(session)) == read);
    assert(Seq::<char>::empty() + session.note =~= session.note);
    assert(read.subrange(0, 14) =~= f.subrange(0, 14));
}

/// Joined parts begin with the first of them.
proof fn lemma_joined_begins(parts: Seq<Seq<char>>, sep: char)
    requires
        parts.len() >= 1,
    ensures
        joined(parts, sep).len() >= parts[0].len(),
        joined(parts, sep).subrange(0, parts[0].len() as int) == parts[0],
    decreases parts.len(),
{
    if parts.len() > 1 {
        let front = parts.drop_last();
        lemma_joined_begins(front, sep);
        let j = joined(front, sep);
        let whole = j.push(sep) + parts.last();
        assert(whole.subrange(0, parts[0].len() as int) =~= j.subrange(0, parts[0].len() as int));
    } else {
        assert(joined(parts, sep).subrange(0, parts[0].len() as int) =~= parts[0]);
    }
}

/// A file holding nothing but the line a session is written as, with its line ending, reads as
/// that session and nothing else: no line of a newer version, and a warning at the line for
/// each problem of its spans over the time from its start to its end.
pub proof fn law_a_file_of_one_written_line_reads_back_as_its_session(file: Seq<char>, session: SessionView)
    requires
        ids_in_reach(session),
    ensures
        reading_of(file, line_of(session).push('\n')).sessions == seq![session],
        reading_of(file, line_of(session).push('\n')).unknown_version == 0,
        reading_of(file, line_of(session).push('\n')).diagnostics == warnings(
            problems(session.spans, span_total(session)),
            location_at(file, line_of(session).push('\n'), 0),
        ),
{
    let line = line_of(session);
    let text = line.push('\n');
    law_a_session_is_one_line_of_fifteen_fields(session);
    law_a_session_line_reads_back_as_the_session(session);
    let empty = Seq::<char>::empty();
    let parts = seq![line, empty];
    assert(parts.drop_last() =~= seq![line]);
    assert(joined(seq![line], '\n') == line);
    assert(joined(parts, '\n') =~= line.push('\n') + empty);
    assert(line.push('\n') + empty =~= text);
    assert forall|i: int| 0 <= i < parts.len() implies free_of(#[trigger] parts[i], '\n') by {}
    lemma_split_on_joined(parts, '\n');
    let lines = crate::text::split_on(text, '\n');
    assert(lines == parts);
    let f = fields_of(session);
    reveal_strlit("qf1");
    lemma_joined_begins(f, ';');
    assert(line[0] == f[0][0]);
    assert(line[0] == 'q');
    assert(line.len() > 0);
    assert(line.last() != '\r');
    assert(stripped(line) == line);
    assert(!blank(line));
    assert(blank(stripped(empty)));
    assert(crate::session::line::line_start(lines, 0) == 0);
    let once = reading_upto(file, text, lines, 1);
    assert(reading_upto(file, text, lines, 0).diagnostics + warnings(problems(session.spans, span_total(session)), location_at(file, text, 0)) =~= warnings(problems(session.spans, span_total(session)), location_at(file, text, 0)));
    assert(once.sessions =~= seq![session]);
}

} // verus!
