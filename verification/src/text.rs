//! Characters and numbers as text: the small pieces every file format of the library is built
//! from. Everything is worked on as a sequence of characters; a `String` is made only at the end.

use vstd::prelude::*;

verus! {

/// The character of the decimal digit `d`.
pub open spec fn digit_char(d: nat) -> char {
    (48 + d) as char
}

/// Whether `c` is one of `0` to `9`.
pub open spec fn is_digit(c: char) -> bool {
    '0' <= c && c <= '9'
}

/// The value of the decimal digit `c`.
pub open spec fn digit_value(c: char) -> nat {
    (c as nat - 48) as nat
}

/// `n` written in decimal, without leading zeros.
pub open spec fn decimal(n: nat) -> Seq<char>
    decreases n,
{
    if n < 10 {
        seq![digit_char(n)]
    } else {
        decimal(n / 10).push(digit_char(n % 10))
    }
}

/// `n` written in decimal, with a `-` in front when it is negative.
pub open spec fn signed_decimal(n: int) -> Seq<char> {
    if n < 0 {
        seq!['-'] + decimal((-n) as nat)
    } else {
        decimal(n as nat)
    }
}

/// Whether every character of `s` is a decimal digit.
pub open spec fn all_digits(s: Seq<char>) -> bool {
    forall|i: int| 0 <= i < s.len() ==> is_digit(#[trigger] s[i])
}

/// The number the digits `s` spell.
pub open spec fn digits_value(s: Seq<char>) -> nat
    decreases s.len(),
{
    if s.len() == 0 {
        0
    } else {
        digits_value(s.drop_last()) * 10 + digit_value(s.last())
    }
}

/// What reading `s` as a number without a sign gives: an optional `+`, then at least one digit.
pub open spec fn unsigned_value(s: Seq<char>) -> Option<int> {
    let digits = if s.len() > 0 && s[0] == '+' { s.drop_first() } else { s };
    if digits.len() > 0 && all_digits(digits) {
        Some(digits_value(digits) as int)
    } else {
        None
    }
}

/// What reading `s` as a number with a sign gives: an optional `+` or `-`, then at least one
/// digit.
pub open spec fn signed_value(s: Seq<char>) -> Option<int> {
    if s.len() > 0 && s[0] == '-' {
        let digits = s.drop_first();
        if digits.len() > 0 && all_digits(digits) {
            Some(-(digits_value(digits) as int))
        } else {
            None
        }
    } else {
        unsigned_value(s)
    }
}

/// `value` when it lies in `low..=high`.
pub open spec fn within(value: Option<int>, low: int, high: int) -> Option<int> {
    match value {
        Some(v) => if low <= v && v <= high { Some(v) } else { None },
        None => None,
    }
}

/// A digit's character reads back as the digit.
pub proof fn lemma_digit_char_value(d: nat)
    requires
        d < 10,
    ensures
        digit_value(digit_char(d)) == d,
        is_digit(digit_char(d)),
{
    assert((48 + d) as char as nat == 48 + d);
}

/// The digits of a number read back give the number.
pub proof fn lemma_decimal_reads_back(n: nat)
    ensures
        decimal(n).len() > 0,
        all_digits(decimal(n)),
        digits_value(decimal(n)) == n,
        decimal(n)[0] != '+',
        decimal(n)[0] != '-',
    decreases n,
{
    lemma_digit_char_value((n % 10) as nat);
    if n < 10 {
        assert(decimal(n) =~= seq![digit_char(n)]);
        assert(decimal(n).drop_last() =~= Seq::<char>::empty());
        assert(digits_value(Seq::<char>::empty()) == 0);
        assert(digits_value(decimal(n)) == digits_value(decimal(n).drop_last()) * 10 + digit_value(
            decimal(n).last(),
        ));
    } else {
        lemma_decimal_reads_back(n / 10);
        let d = decimal(n);
        assert(d.drop_last() =~= decimal(n / 10));
        assert forall|i: int| 0 <= i < d.len() implies is_digit(#[trigger] d[i]) by {
            if i < d.len() - 1 {
                assert(d[i] == decimal(n / 10)[i]);
            }
        }
        assert(d.last() == digit_char(n % 10));
        assert(digits_value(d) == digits_value(d.drop_last()) * 10 + digit_value(d.last()));
        assert((n / 10) * 10 + n % 10 == n);
    }
}

/// A number written by [`signed_decimal`] reads back as itself.
pub proof fn lemma_signed_decimal_reads_back(n: int)
    ensures
        signed_value(signed_decimal(n)) == Some(n),
        signed_decimal(n).len() > 0,
        signed_decimal(n)[0] != '+',
{
    if n < 0 {
        lemma_decimal_reads_back((-n) as nat);
        assert((seq!['-'] + decimal((-n) as nat)).drop_first() =~= decimal((-n) as nat));
    } else {
        lemma_decimal_reads_back(n as nat);
    }
}

/// A number written by [`decimal`] reads back as itself without a sign too.
pub proof fn lemma_unsigned_decimal_reads_back(n: nat)
    ensures
        unsigned_value(decimal(n)) == Some(n as int),
        signed_value(decimal(n)) == Some(n as int),
{
    lemma_decimal_reads_back(n);
}

/// Decimal text holds no character other than digits and a leading `-`.
pub proof fn lemma_signed_decimal_chars(n: int)
    ensures
        forall|i: int|
            0 <= i < signed_decimal(n).len() ==> is_digit(#[trigger] signed_decimal(n)[i]) || signed_decimal(n)[i]
                == '-',
{
    if n < 0 {
        lemma_decimal_reads_back((-n) as nat);
        let s = seq!['-'] + decimal((-n) as nat);
        assert forall|i: int| 0 <= i < s.len() implies is_digit(#[trigger] s[i]) || s[i] == '-' by {
            if i > 0 {
                assert(s[i] == decimal((-n) as nat)[i - 1]);
            }
        }
    } else {
        lemma_decimal_reads_back(n as nat);
    }
}

/// The character of the digit `d`.
pub fn digit(d: u64) -> (c: char)
    requires
        d < 10,
    ensures
        c == digit_char(d as nat),
{
    let b: u8 = (48 + d) as u8;
    b as char
}

/// Appends `n` in decimal to `out`.
pub fn push_u64(out: &mut Vec<char>, n: u64)
    ensures
        final(out)@ == old(out)@ + decimal(n as nat),
    decreases n,
{
    if n >= 10 {
        push_u64(out, n / 10);
    }
    let d = digit(n % 10);
    let ghost before = out@;
    out.push(d);
    proof {
        if n >= 10 {
            assert(out@ =~= old(out)@ + decimal(n as nat));
        } else {
            assert(out@ =~= old(out)@ + decimal(n as nat));
        }
    }
}

/// Appends `n` in decimal, with a `-` when it is negative, to `out`.
pub fn push_i64(out: &mut Vec<char>, n: i64)
    ensures
        final(out)@ == old(out)@ + signed_decimal(n as int),
{
    if n < 0 {
        out.push('-');
        let magnitude: u64 = if n == i64::MIN {
            9_223_372_036_854_775_808u64
        } else {
            (-n) as u64
        };
        push_u64(out, magnitude);
        assert(out@ =~= old(out)@ + signed_decimal(n as int));
    } else {
        push_u64(out, n as u64);
    }
}

/// Appends the characters of `s` to `out`.
pub fn push_str(out: &mut Vec<char>, s: &str)
    ensures
        final(out)@ == old(out)@ + s@,
{
    let n = s.unicode_len();
    let mut i: usize = 0;
    while i < n
        invariant
            n == s@.len(),
            i <= n,
            out@ == old(out)@ + s@.subrange(0, i as int),
        decreases n - i,
    {
        let c = s.get_char(i);
        out.push(c);
        i = i + 1;
        assert(out@ =~= old(out)@ + s@.subrange(0, i as int));
    }
    assert(s@.subrange(0, n as int) =~= s@);
}

/// Appends the characters of `s` to `out`.
pub fn push_chars(out: &mut Vec<char>, s: &Vec<char>)
    ensures
        final(out)@ == old(out)@ + s@,
{
    let mut i: usize = 0;
    while i < s.len()
        invariant
            i <= s.len(),
            out@ == old(out)@ + s@.subrange(0, i as int),
        decreases s.len() - i,
    {
        out.push(s[i]);
        i = i + 1;
        assert(out@ =~= old(out)@ + s@.subrange(0, i as int));
    }
    assert(s@.subrange(0, s.len() as int) =~= s@);
}

/// Whether the characters `s` are exactly those of `word`.
pub fn chars_are(s: &[char], word: &str) -> (same: bool)
    ensures
        same == (s@ == word@),
{
    let n = word.unicode_len();
    if s.len() != n {
        return false;
    }
    let mut i: usize = 0;
    while i < n
        invariant
            n == word@.len(),
            n == s@.len(),
            i <= n,
            forall|j: int| 0 <= j < i ==> s@[j] == word@[j],
        decreases n - i,
    {
        if s[i] != word.get_char(i) {
            return false;
        }
        i = i + 1;
    }
    assert(s@ =~= word@);
    true
}

/// Reading more digits never gives a smaller number.
pub proof fn lemma_digits_value_grows(s: Seq<char>, k: int)
    requires
        all_digits(s),
        0 <= k <= s.len(),
    ensures
        digits_value(s) >= digits_value(s.subrange(0, k)),
    decreases s.len(),
{
    if k < s.len() {
        let shorter = s.drop_last();
        assert forall|i: int| 0 <= i < shorter.len() implies is_digit(#[trigger] shorter[i]) by {
            assert(shorter[i] == s[i]);
        }
        lemma_digits_value_grows(shorter, k);
        assert(shorter.subrange(0, k) =~= s.subrange(0, k));
    } else {
        assert(s.subrange(0, k) =~= s);
    }
}

/// The value of the digits from `from` to the end of `s`, when they are all digits and the value
/// is at most `cap`.
fn value_of_digits(s: &[char], from: usize, cap: u128) -> (value: Option<u128>)
    requires
        from <= s@.len(),
        9 <= cap < 0x1_0000_0000_0000_0000_0000,
    ensures
        match value {
            Some(v) => all_digits(s@.subrange(from as int, s@.len() as int)) && v == digits_value(
                s@.subrange(from as int, s@.len() as int),
            ) && v <= cap,
            None => !all_digits(s@.subrange(from as int, s@.len() as int)) || digits_value(
                s@.subrange(from as int, s@.len() as int),
            ) > cap,
        },
{
    let ghost whole = s@.subrange(from as int, s@.len() as int);
    let mut value: u128 = 0;
    let mut i: usize = from;
    while i < s.len()
        invariant
            from <= i <= s@.len(),
            9 <= cap < 0x1_0000_0000_0000_0000_0000,
            whole == s@.subrange(from as int, s@.len() as int),
            all_digits(s@.subrange(from as int, i as int)),
            value == digits_value(s@.subrange(from as int, i as int)),
            value <= cap,
        decreases s@.len() - i,
    {
        let c = s[i];
        let ghost before = s@.subrange(from as int, i as int);
        let ghost after = s@.subrange(from as int, i + 1);
        assert(after.drop_last() =~= before);
        assert(whole[i - from] == c);
        if !('0' <= c && c <= '9') {
            return None;
        }
        let d: u128 = (c as u32 - 48) as u128;
        assert forall|j: int| 0 <= j < after.len() implies is_digit(#[trigger] after[j]) by {
            if j < before.len() {
                assert(after[j] == before[j]);
            }
        }
        assert(digits_value(after) == value * 10 + d);
        if value > (cap - d) / 10 {
            proof {
                assert(value * 10 + d > cap) by (nonlinear_arith)
                    requires
                        value > (cap - d) / 10,
                        d <= 9,
                        cap >= 9,
                ;
                assert(whole.subrange(0, (i + 1 - from) as int) =~= after);
                if all_digits(whole) {
                    lemma_digits_value_grows(whole, (i + 1 - from) as int);
                }
            }
            return None;
        }
        proof {
            assert(value * 10 + d <= cap) by (nonlinear_arith)
                requires
                    value <= (cap - d) / 10,
                    d <= 9,
                    cap >= 9,
            ;
        }
        value = value * 10 + d;
        i = i + 1;
    }
    Some(value)
}

/// Reads `s` as a number with an optional `+` in front, when it is one and at most `max`.
pub fn parse_unsigned(s: &[char], max: u128) -> (value: Option<u128>)
    requires
        9 <= max < 0x1_0000_0000_0000_0000_0000,
    ensures
        match value {
            Some(v) => unsigned_value(s@) == Some(v as int) && v <= max,
            None => !(unsigned_value(s@) matches Some(v) && v <= max),
        },
{
    let from: usize = if s.len() > 0 && s[0] == '+' { 1 } else { 0 };
    let ghost digits = if s@.len() > 0 && s@[0] == '+' { s@.drop_first() } else { s@ };
    assert(digits =~= s@.subrange(from as int, s@.len() as int));
    if from >= s.len() {
        return None;
    }
    value_of_digits(s, from, max)
}

/// Reads `s` as a number with an optional `+` or `-` in front, when it is one and lies between
/// `-low` and `high`.
pub fn parse_signed(s: &[char], low: u128, high: u128) -> (value: Option<i128>)
    requires
        9 <= low < 0x1_0000_0000_0000_0000_0000,
        9 <= high < 0x1_0000_0000_0000_0000_0000,
    ensures
        match value {
            Some(v) => signed_value(s@) == Some(v as int) && -low <= v <= high,
            None => !(signed_value(s@) matches Some(v) && -low <= v && v <= high),
        },
{
    if s.len() > 0 && s[0] == '-' {
        assert(s@.drop_first() =~= s@.subrange(1, s@.len() as int));
        if s.len() == 1 {
            return None;
        }
        match value_of_digits(s, 1, low) {
            Some(v) => Some(-(v as i128)),
            None => None,
        }
    } else {
        match parse_unsigned(s, high) {
            Some(v) => Some(v as i128),
            None => None,
        }
    }
}

} // verus!

verus! {

/// The characters of `s` as a vector.
#[verifier::external_body]
pub fn chars_of(s: &str) -> (chars: Vec<char>)
    ensures
        chars@ == s@,
{
    s.chars().collect()
}

/// A string holding the characters `chars`.
#[verifier::external_body]
pub fn string_of(chars: &Vec<char>) -> (s: String)
    ensures
        s@ == chars@,
{
    chars.iter().collect()
}

} // verus!

verus! {

/// `text` cut at every `sep`: one more part than there are separators, the separators dropped.
pub open spec fn split_on(text: Seq<char>, sep: char) -> Seq<Seq<char>>
    decreases text.len(),
{
    if text.len() == 0 {
        seq![Seq::empty()]
    } else {
        let parts = split_on(text.drop_last(), sep);
        if text.last() == sep {
            parts.push(Seq::empty())
        } else {
            parts.update(parts.len() - 1, parts.last().push(text.last()))
        }
    }
}

/// The views of `parts`.
pub open spec fn views(parts: Seq<Vec<char>>) -> Seq<Seq<char>> {
    Seq::new(parts.len(), |i: int| parts[i]@)
}

/// Cutting text never gives no part at all.
pub proof fn lemma_split_on_not_empty(text: Seq<char>, sep: char)
    ensures
        split_on(text, sep).len() >= 1,
    decreases text.len(),
{
    if text.len() > 0 {
        lemma_split_on_not_empty(text.drop_last(), sep);
    }
}

/// `text` cut at every `sep`.
pub fn split(text: &[char], sep: char) -> (parts: Vec<Vec<char>>)
    ensures
        views(parts@) == split_on(text@, sep),
{
    let mut parts: Vec<Vec<char>> = Vec::new();
    let mut current: Vec<char> = Vec::new();
    let mut i: usize = 0;
    while i < text.len()
        invariant
            i <= text@.len(),
            views(parts@).push(current@) == split_on(text@.subrange(0, i as int), sep),
        decreases text@.len() - i,
    {
        let ghost before = views(parts@).push(current@);
        assert(text@.subrange(0, i + 1).drop_last() =~= text@.subrange(0, i as int));
        proof {
            lemma_split_on_not_empty(text@.subrange(0, i as int), sep);
        }
        if text[i] == sep {
            let done = current;
            parts.push(done);
            current = Vec::new();
            assert(views(parts@).push(current@) =~= before.push(Seq::empty()));
        } else {
            current.push(text[i]);
            assert(views(parts@).push(current@) =~= before.update(before.len() - 1, before.last().push(text@[i as int])));
        }
        i = i + 1;
    }
    assert(text@.subrange(0, text@.len() as int) =~= text@);
    parts.push(current);
    parts
}

} // verus!
