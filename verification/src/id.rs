//! Permanent identifiers for categories, focuses and sessions.
//!
//! An identifier is 128 bits: a 48 bit millisecond stamp followed by 80 bits of randomness,
//! written as 26 Crockford base32 characters. Sorting identifiers sorts them by the moment they
//! were made. A counting identifier is not used: restoring a file from a backup would move the
//! counter back and a new focus would take the identifier of an archived one, which would attach
//! old sessions to the wrong name.

use std::hash::{BuildHasher, Hasher, RandomState};

use vstd::prelude::*;

use crate::text::{chars_of, string_of};

verus! {

/// Characters an identifier is written with.
pub const LENGTH: usize = 26;

/// A permanent identifier, sortable by the moment it was made.
#[derive(Debug, Clone, Copy, PartialEq, Eq, PartialOrd, Ord, Hash, Structural)]
pub struct Id(u128);

/// Two to the power of `n`.
pub open spec fn two_to(n: nat) -> nat
    decreases n,
{
    if n == 0 {
        1
    } else {
        2 * two_to((n - 1) as nat)
    }
}

/// Thirty two to the power of `n`.
pub open spec fn thirty_two_to(n: nat) -> nat
    decreases n,
{
    if n == 0 {
        1
    } else {
        32 * thirty_two_to((n - 1) as nat)
    }
}

/// The character of the Crockford base32 digit `d`.
pub open spec fn crockford_char(d: nat) -> char {
    if d < 10 {
        (48 + d) as char
    } else if d < 18 {
        (65 + d - 10) as char
    } else if d < 20 {
        (74 + d - 18) as char
    } else if d < 22 {
        (77 + d - 20) as char
    } else if d < 27 {
        (80 + d - 22) as char
    } else {
        (86 + d - 27) as char
    }
}

/// The value of one character of an identifier, letters in either case and the aliases `O`,
/// `I` and `L` included; `None` for any other character.
pub open spec fn crockford_value(c: char) -> Option<nat> {
    let u = if 'a' <= c && c <= 'z' { (c as nat - 32) as nat } else { c as nat };
    if 48 <= u <= 57 {
        Some((u - 48) as nat)
    } else if u == 79 {
        Some(0)
    } else if u == 73 || u == 76 {
        Some(1)
    } else if 65 <= u <= 72 {
        Some((u - 65 + 10) as nat)
    } else if u == 74 || u == 75 {
        Some((u - 74 + 18) as nat)
    } else if u == 77 || u == 78 {
        Some((u - 77 + 20) as nat)
    } else if 80 <= u <= 84 {
        Some((u - 80 + 22) as nat)
    } else if 86 <= u <= 90 {
        Some((u - 86 + 27) as nat)
    } else {
        None
    }
}

/// The number `n` base32 digits spell, most significant first; meaningful when every
/// character is a digit.
pub open spec fn crockford_number(s: Seq<char>) -> nat
    decreases s.len(),
{
    if s.len() == 0 {
        0
    } else {
        crockford_number(s.drop_last()) * 32 + match crockford_value(s.last()) {
            Some(d) => d,
            None => 0,
        }
    }
}

/// The last `n` base32 digits of `v`, most significant first.
pub open spec fn crockford_text(v: nat, n: nat) -> Seq<char>
    decreases n,
{
    if n == 0 {
        Seq::empty()
    } else {
        crockford_text(v / 32, (n - 1) as nat).push(crockford_char(v % 32))
    }
}

/// What [`Id::parse`] reads from `s`: 26 base32 characters, the first of them at most `3`.
pub open spec fn parsed(s: Seq<char>) -> Option<u128> {
    if s.len() == LENGTH && (forall|i: int| 0 <= i < s.len() ==> crockford_value(#[trigger] s[i]) is Some)
        && crockford_value(s[0]).unwrap() <= 3 {
        Some(crockford_number(s) as u128)
    } else {
        None
    }
}

impl Id {
    /// The 128 bits of the identifier.
    pub closed spec fn value(self) -> u128 {
        self.0
    }

    /// The identifier with these 128 bits.
    pub closed spec fn of(value: u128) -> Id {
        Id(value)
    }

    /// Bits and identifiers are one and the same.
    pub proof fn lemma_value(self, value: u128)
        ensures
            Id::of(self.value()) == self,
            Id::of(value).value() == value,
            (Id::of(value) == self) == (self.value() == value),
    {
    }

    /// An identifier for `millis` since the Unix epoch with the given `random` bits.
    ///
    /// Only the lowest 48 bits of `millis` and the lowest 80 bits of `random` are kept.
    pub fn new(millis: u64, random: u128) -> (id: Self)
        ensures
            id.value() as nat == (millis as nat % two_to(48)) * two_to(80) + random as nat % two_to(80),
    {
        let stamp: u128 = (millis as u128) & 0xffff_ffff_ffffu128;
        let noise: u128 = random & 0xffff_ffff_ffff_ffff_ffffu128;
        let value: u128 = (stamp << 80) | noise;
        proof {
            let m = millis as u128;
            assert(stamp == m % 0x1_0000_0000_0000) by (bit_vector)
                requires
                    stamp == m & 0xffff_ffff_ffffu128,
            ;
            assert(noise == random % 0x1_0000_0000_0000_0000_0000) by (bit_vector)
                requires
                    noise == random & 0xffff_ffff_ffff_ffff_ffffu128,
            ;
            assert(value == stamp * 0x1_0000_0000_0000_0000_0000 + noise) by (bit_vector)
                requires
                    value == (stamp << 80) | noise,
                    stamp < 0x1_0000_0000_0000,
                    noise < 0x1_0000_0000_0000_0000_0000,
            ;
            lemma_two_to_values();
        }
        Self(value)
    }

    /// An identifier for `millis` with randomness from the operating system.
    ///
    /// The randomness comes from the seeds [`RandomState`] takes from the operating system. It is
    /// not meant to resist an attacker; it only has to keep two identifiers made in the same
    /// millisecond, on two machines, apart.
    pub fn generate(millis: u64) -> (id: Self)
        ensures
            id.value() as nat / two_to(80) == millis as nat % two_to(48),
    {
        let high = random_bits();
        let low = random_bits();
        let random: u128 = ((high as u128) << 64) | low as u128;
        let id = Self::new(millis, random);
        proof {
            let r = random as nat % two_to(80);
            let m = millis as nat % two_to(48);
            lemma_two_to_values();
            assert((m * two_to(80) + r) / two_to(80) == m) by (nonlinear_arith)
                requires
                    0 <= r < two_to(80),
                    two_to(80) > 0,
            ;
        }
        id
    }

    /// Whether this identifier sorts before `other`, which is whether it was made first.
    pub fn is_before(&self, other: &Id) -> (before: bool)
        ensures
            before == (self.value() < other.value()),
    {
        self.0 < other.0
    }

    /// Milliseconds since the Unix epoch the identifier carries.
    pub fn millis(self) -> (millis: u64)
        ensures
            millis == self.value() as nat / two_to(80),
    {
        let stamp: u128 = self.0 >> 80;
        proof {
            let v = self.0;
            assert(stamp == v / 0x1_0000_0000_0000_0000_0000) by (bit_vector)
                requires
                    stamp == v >> 80,
            ;
            assert(stamp < 0x1_0000_0000_0000) by (bit_vector)
                requires
                    stamp == v >> 80,
            ;
            lemma_two_to_values();
        }
        stamp as u64
    }

    /// Reads an identifier, or `None` when `text` is not one.
    ///
    /// Letters may be lower case, and the Crockford aliases `O`, `I` and `L` are read as `0` and
    /// `1`, so an identifier copied by hand still works.
    pub fn parse(text: &str) -> (id: Option<Self>)
        ensures
            id == (match parsed(text@) {
                Some(v) => Some(Id::of(v)),
                None => None,
            }),
    {
        let chars = chars_of(text);
        Self::parse_chars(&chars)
    }

    /// Reads an identifier from the characters `text`, as [`Id::parse`] does.
    pub fn parse_chars(text: &[char]) -> (id: Option<Self>)
        ensures
            id == (match parsed(text@) {
                Some(v) => Some(Id::of(v)),
                None => None,
            }),
    {
        if text.len() != LENGTH {
            return None;
        }
        let mut value: u128 = 0;
        let mut index: usize = 0;
        while index < LENGTH
            invariant
                text@.len() == LENGTH,
                index <= LENGTH,
                forall|i: int| 0 <= i < index ==> crockford_value(#[trigger] text@[i]) is Some,
                index > 0 ==> crockford_value(text@[0]).unwrap() <= 3,
                value == crockford_number(text@.subrange(0, index as int)),
                index == 0 ==> value == 0,
                index > 0 ==> value < 4 * thirty_two_to((index - 1) as nat),
            decreases LENGTH - index,
        {
            let c = text[index];
            let digit = match digit_of(c) {
                Some(d) => d,
                None => return None,
            };
            // Twenty six digits carry 130 bits; the first digit may only fill the top two.
            if index == 0 && digit > 3 {
                return None;
            }
            proof {
                assert(text@.subrange(0, index + 1).drop_last() =~= text@.subrange(0, index as int));
                lemma_bound_fits(index as nat);
                if index > 0 {
                    assert(thirty_two_to(index as nat) == 32 * thirty_two_to((index - 1) as nat));
                }
            }
            value = value * 32 + digit as u128;
            index = index + 1;
        }
        assert(text@.subrange(0, LENGTH as int) =~= text@);
        Some(Self(value))
    }

    /// The 128 bits of the identifier, for the library's own bookkeeping.
    pub(crate) fn bits(&self) -> (bits: u128)
        ensures
            bits == self.value(),
    {
        self.0
    }

    /// The identifier with these 128 bits, for the library's own bookkeeping.
    pub(crate) fn from_bits(bits: u128) -> (id: Id)
        ensures
            id == Id::of(bits),
    {
        Id(bits)
    }

    /// Appends the 26 characters of the identifier to `out`.
    pub fn write_to(&self, out: &mut Vec<char>)
        ensures
            final(out)@ == old(out)@ + crockford_text(self.value() as nat, LENGTH as nat),
    {
        push_base32(out, self.0, LENGTH);
    }

    /// The identifier as 26 characters, upper case.
    pub fn to_string(&self) -> (text: String)
        ensures
            text@ == crockford_text(self.value() as nat, LENGTH as nat),
    {
        let mut out: Vec<char> = Vec::new();
        push_base32(&mut out, self.0, LENGTH);
        string_of(&out)
    }
}

/// The powers of two an identifier is cut at.
proof fn lemma_two_to_values()
    ensures
        two_to(48) == 0x1_0000_0000_0000,
        two_to(80) == 0x1_0000_0000_0000_0000_0000,
{
    assert(two_to(0) == 1);
    lemma_two_to_eight_more(0);
    lemma_two_to_eight_more(8);
    lemma_two_to_eight_more(16);
    lemma_two_to_eight_more(24);
    lemma_two_to_eight_more(32);
    lemma_two_to_eight_more(40);
    lemma_two_to_eight_more(48);
    lemma_two_to_eight_more(56);
    lemma_two_to_eight_more(64);
    lemma_two_to_eight_more(72);
}

/// Eight more bits multiply by 256.
proof fn lemma_two_to_eight_more(n: nat)
    ensures
        two_to(n + 8) == 256 * two_to(n),
{
    reveal_with_fuel(two_to, 9);
}

/// `4 × 32^(n-1)` fits in 128 bits for every `n` up to the length of an identifier.
proof fn lemma_bound_fits(n: nat)
    requires
        n < LENGTH,
    ensures
        4 * thirty_two_to(n) <= 0x8000_0000_0000_0000_0000_0000_0000_0000,
    decreases n,
{
    if n > 0 {
        lemma_bound_fits((n - 1) as nat);
    }
    lemma_thirty_two_grows(n, 25);
    assert(thirty_two_to(25) == 0x2000_0000_0000_0000_0000_0000_0000_0000) by {
        reveal_with_fuel(thirty_two_to, 26);
    }
}

/// Powers of thirty two only grow.
proof fn lemma_thirty_two_grows(m: nat, n: nat)
    requires
        m <= n,
    ensures
        thirty_two_to(m) <= thirty_two_to(n),
        thirty_two_to(m) >= 1,
    decreases n,
{
    if m < n {
        lemma_thirty_two_grows(m, (n - 1) as nat);
    } else if n > 0 {
        lemma_thirty_two_grows((n - 1) as nat, (n - 1) as nat);
    }
}

/// Every character the base32 digit `d` is written as reads back as `d`.
proof fn lemma_crockford_char_value(d: nat)
    requires
        d < 32,
    ensures
        crockford_value(crockford_char(d)) == Some(d),
{
    let c = crockford_char(d);
    if d < 10 {
        assert(c as nat == 48 + d);
    } else if d < 18 {
        assert(c as nat == 65 + d - 10);
    } else if d < 20 {
        assert(c as nat == 74 + d - 18);
    } else if d < 22 {
        assert(c as nat == 77 + d - 20);
    } else if d < 27 {
        assert(c as nat == 80 + d - 22);
    } else {
        assert(c as nat == 86 + d - 27);
    }
}

/// The text of the last `n` digits of `v` is `n` characters long, every one a digit, and spells
/// `v` modulo `32^n`, its first character being the `n`th digit from the end.
proof fn lemma_crockford_text(v: nat, n: nat)
    ensures
        crockford_text(v, n).len() == n,
        forall|i: int| 0 <= i < n ==> crockford_value(#[trigger] crockford_text(v, n)[i]) is Some,
        crockford_number(crockford_text(v, n)) == v % thirty_two_to(n),
        n > 0 ==> crockford_value(crockford_text(v, n)[0]) == Some((v / thirty_two_to((n - 1) as nat)) % 32),
    decreases n,
{
    if n == 0 {
        assert(v % 1 == 0);
    } else {
        let m = (n - 1) as nat;
        lemma_crockford_text(v / 32, m);
        lemma_thirty_two_grows(0, m);
        let t = crockford_text(v, n);
        let shorter = crockford_text(v / 32, m);
        assert(t.drop_last() =~= shorter);
        lemma_crockford_char_value(v % 32);
        assert forall|i: int| 0 <= i < n implies crockford_value(#[trigger] t[i]) is Some by {
            if i < m {
                assert(t[i] == shorter[i]);
            }
        }
        assert(crockford_number(t) == crockford_number(shorter) * 32 + v % 32);
        vstd::arithmetic::div_mod::lemma_mod_breakdown(v as int, 32, thirty_two_to(m) as int);
        assert(thirty_two_to(n) == 32 * thirty_two_to(m));
        if m > 0 {
            assert(t[0] == shorter[0]);
            vstd::arithmetic::div_mod::lemma_div_denominator(v as int, 32, thirty_two_to((m - 1) as nat) as int);
            assert(thirty_two_to(m) == 32 * thirty_two_to((m - 1) as nat));
        } else {
            assert(v / 1 == v);
            vstd::arithmetic::div_mod::lemma_mod_pos_bound(v as int, 32);
        }
    }
}

/// An identifier reads back from the 26 characters it is written as: whenever its top bit is
/// clear, which every identifier made from a stamp before the year 6429 is.
pub proof fn law_an_identifier_reads_back_from_its_text(id: Id)
    requires
        id.value() < 0x8000_0000_0000_0000_0000_0000_0000_0000,
    ensures
        parsed(crockford_text(id.value() as nat, LENGTH as nat)) == Some(id.value()),
{
    let v = id.value() as nat;
    lemma_crockford_text(v, 26);
    assert(thirty_two_to(25) == 0x2000_0000_0000_0000_0000_0000_0000_0000) by {
        reveal_with_fuel(thirty_two_to, 26);
    }
    assert(thirty_two_to(26) == 32 * thirty_two_to(25));
    vstd::arithmetic::div_mod::lemma_small_mod(v, thirty_two_to(26));
    assert(v / thirty_two_to(25) < 4) by (nonlinear_arith)
        requires
            v < 0x8000_0000_0000_0000_0000_0000_0000_0000,
            thirty_two_to(25) == 0x2000_0000_0000_0000_0000_0000_0000_0000,
    ;
    vstd::arithmetic::div_mod::lemma_small_mod(v / thirty_two_to(25), 32);
}

/// A character as ASCII lowers it: a capital letter becomes its small letter, anything else stays.
pub open spec fn ascii_lower(c: char) -> char {
    if 'A' <= c && c <= 'Z' {
        (c as nat + 32) as char
    } else {
        c
    }
}

/// `text` with every capital letter lowered.
pub open spec fn lowered(text: Seq<char>) -> Seq<char> {
    text.map_values(|c: char| ascii_lower(c))
}

/// The digit `c` stands for, or zero when it is none.
pub open spec fn digit_or_zero(c: char) -> nat {
    match crockford_value(c) {
        Some(d) => d,
        None => 0,
    }
}

/// The sum of the base32 digits of `s`, each times thirty two to the number of digits after it.
pub open spec fn place_sum(s: Seq<char>) -> nat
    decreases s.len(),
{
    if s.len() == 0 {
        0
    } else {
        digit_or_zero(s[0]) * thirty_two_to((s.len() - 1) as nat) + place_sum(s.drop_first())
    }
}

/// Texts whose characters stand for the same digits spell the same number.
proof fn lemma_same_digits(s: Seq<char>, t: Seq<char>)
    requires
        s.len() == t.len(),
        forall|i: int| 0 <= i < s.len() ==> crockford_value(#[trigger] s[i]) == crockford_value(t[i]),
    ensures
        crockford_number(s) == crockford_number(t),
    decreases s.len(),
{
    if s.len() > 0 {
        lemma_same_digits(s.drop_last(), t.drop_last());
        assert(crockford_value(s[s.len() - 1]) == crockford_value(t[t.len() - 1]));
    }
}

/// A lowered character stands for the digit it stood for.
proof fn lemma_lowered_value(c: char)
    ensures
        crockford_value(ascii_lower(c)) == crockford_value(c),
{
}

/// The first digit of a number counts thirty two to the number of digits after it.
proof fn lemma_number_first_digit(s: Seq<char>)
    requires
        s.len() >= 1,
    ensures
        crockford_number(s) == digit_or_zero(s[0]) * thirty_two_to((s.len() - 1) as nat) + crockford_number(
            s.drop_first(),
        ),
    decreases s.len(),
{
    let d0 = digit_or_zero(s[0]);
    if s.len() == 1 {
        assert(s.drop_last().len() == 0);
        assert(s.drop_first().len() == 0);
        assert(s.last() == s[0]);
        assert(crockford_number(s.drop_last()) == 0);
        assert(crockford_number(s) == digit_or_zero(s[0]));
        assert(thirty_two_to(0) == 1);
        assert(crockford_number(s.drop_first()) == 0);
        assert(d0 * thirty_two_to(0) == d0);
        assert(crockford_number(s) == d0 * thirty_two_to((s.len() - 1) as nat) + crockford_number(s.drop_first()));
    } else {
        let front = s.drop_last();
        lemma_number_first_digit(front);
        assert(front[0] == s[0]);
        let rest = s.drop_first();
        assert(rest.drop_last() =~= front.drop_first());
        assert(rest.last() == s.last());
        let dl: nat = match crockford_value(s.last()) {
            Some(d) => d,
            None => 0,
        };
        let p = thirty_two_to((s.len() - 2) as nat);
        assert(thirty_two_to((s.len() - 1) as nat) == 32 * p);
        let x = crockford_number(front.drop_first());
        assert(dl == digit_or_zero(s.last()));
        assert(crockford_number(s) == crockford_number(front) * 32 + dl);
        assert(crockford_number(front) == d0 * p + x);
        assert(crockford_number(rest) == crockford_number(rest.drop_last()) * 32 + digit_or_zero(rest.last()));
        assert(crockford_number(rest) == x * 32 + dl);
        assert((d0 * p + x) * 32 + dl == d0 * (32 * p) + (x * 32 + dl)) by (nonlinear_arith);
        assert(crockford_number(s) == d0 * thirty_two_to((s.len() - 1) as nat) + crockford_number(rest));
    }
}

/// The number base32 digits spell is the sum of each digit times its place.
proof fn lemma_number_is_place_sum(s: Seq<char>)
    ensures
        crockford_number(s) == place_sum(s),
    decreases s.len(),
{
    if s.len() > 0 {
        lemma_number_first_digit(s);
        lemma_number_is_place_sum(s.drop_first());
    }
}

/// Base32 digits spell a number below thirty two to their count.
proof fn lemma_number_below(s: Seq<char>)
    ensures
        crockford_number(s) < thirty_two_to(s.len()),
    decreases s.len(),
{
    if s.len() > 0 {
        lemma_number_below(s.drop_last());
        let x = crockford_number(s.drop_last());
        let p = thirty_two_to((s.len() - 1) as nat);
        let d: nat = match crockford_value(s.last()) {
            Some(d) => d,
            None => 0,
        };
        assert(d < 32);
        assert(x * 32 + d < 32 * p) by (nonlinear_arith)
            requires
                x < p,
                d < 32,
        ;
    }
}

/// The number an identifier's text spells fits in its 128 bits, with the top bit clear.
proof fn lemma_crockford_number_fits(text: Seq<char>)
    requires
        text.len() == LENGTH,
        crockford_value(text[0]) is Some,
        crockford_value(text[0]).unwrap() <= 3,
    ensures
        crockford_number(text) < 0x8000_0000_0000_0000_0000_0000_0000_0000,
{
    lemma_number_first_digit(text);
    lemma_number_below(text.drop_first());
    assert(thirty_two_to(25) == 0x2000_0000_0000_0000_0000_0000_0000_0000) by {
        reveal_with_fuel(thirty_two_to, 26);
    }
    let d = crockford_value(text[0]).unwrap();
    let x = crockford_number(text.drop_first());
    assert(d * thirty_two_to(25) + x < 0x8000_0000_0000_0000_0000_0000_0000_0000) by (nonlinear_arith)
        requires
            d <= 3,
            x < thirty_two_to(25),
            thirty_two_to(25) == 0x2000_0000_0000_0000_0000_0000_0000_0000,
    ;
}

/// An identifier is read the same whatever the case of its letters.
pub proof fn law_letter_case_does_not_matter(text: Seq<char>)
    ensures
        parsed(lowered(text)) == parsed(text),
{
    let low = lowered(text);
    assert forall|i: int| 0 <= i < text.len() implies crockford_value(#[trigger] low[i]) == crockford_value(text[i]) by {
        lemma_lowered_value(text[i]);
    }
    if text.len() == LENGTH {
        lemma_same_digits(low, text);
        if forall|i: int| 0 <= i < text.len() ==> crockford_value(#[trigger] text[i]) is Some {
            assert(forall|i: int| 0 <= i < low.len() ==> crockford_value(#[trigger] low[i]) is Some);
        } else {
            let i = choose|i: int| 0 <= i < text.len() && !(crockford_value(#[trigger] text[i]) is Some);
            assert(!(crockford_value(low[i]) is Some));
        }
    }
}

/// An identifier reads back from its 26 characters written in lower case, whenever its top bit
/// is clear.
pub proof fn law_an_identifier_reads_back_from_its_text_in_lower_case(id: Id)
    requires
        id.value() < 0x8000_0000_0000_0000_0000_0000_0000_0000,
    ensures
        parsed(lowered(crockford_text(id.value() as nat, LENGTH as nat))) == Some(id.value()),
{
    law_an_identifier_reads_back_from_its_text(id);
    law_letter_case_does_not_matter(crockford_text(id.value() as nat, LENGTH as nat));
}

/// The rule an identifier is read by: text is one exactly when it is 26 characters, each a base32
/// digit in either case or one of the aliases, the first at most `3`; its value is then the sum
/// of each digit times thirty two to the number of digits after it. Every character of such text
/// is ASCII, so its 26 characters are its 26 bytes.
pub proof fn law_the_digits_of_an_identifier(text: Seq<char>)
    ensures
        parsed(text) is Some <==> (text.len() == LENGTH && (forall|i: int|
            0 <= i < text.len() ==> crockford_value(#[trigger] text[i]) is Some) && crockford_value(text[0]).unwrap() <= 3),
        parsed(text) is Some ==> parsed(text).unwrap() == place_sum(text),
        parsed(text) is Some ==> forall|i: int| 0 <= i < text.len() ==> (#[trigger] text[i] as nat) < 128,
{
    assert forall|i: int| 0 <= i < text.len() && crockford_value(#[trigger] text[i]) is Some implies (text[i] as nat) < 128 by {
    }
    if parsed(text) is Some {
        lemma_number_is_place_sum(text);
        lemma_crockford_number_fits(text);
    }
}

/// Identifiers sort by the moment they were made, then by their random bits: of two made from
/// a stamp and random bits, the first is smaller exactly when its stamp is, or the stamps are the
/// same and its random bits are smaller, each taken as far as the identifier keeps it.
pub proof fn law_identifiers_sort_by_time_then_randomness(m1: nat, r1: nat, m2: nat, r2: nat)
    ensures
        ((m1 % two_to(48)) * two_to(80) + r1 % two_to(80) < (m2 % two_to(48)) * two_to(80) + r2 % two_to(80)) <==> (
        m1 % two_to(48) < m2 % two_to(48) || (m1 % two_to(48) == m2 % two_to(48) && r1 % two_to(80) < r2 % two_to(
            80,
        ))),
{
    lemma_two_to_values();
    let a = m1 % two_to(48);
    let b = m2 % two_to(48);
    let x = r1 % two_to(80);
    let y = r2 % two_to(80);
    let big = two_to(80);
    vstd::arithmetic::div_mod::lemma_mod_pos_bound(r1 as int, big as int);
    vstd::arithmetic::div_mod::lemma_mod_pos_bound(r2 as int, big as int);
    assert((a * big + x < b * big + y) <==> (a < b || (a == b && x < y))) by (nonlinear_arith)
        requires
            0 <= x < big,
            0 <= y < big,
            0 <= a,
            0 <= b,
    {
        if a < b {
            assert(a * big + big <= b * big);
        } else if a > b {
            assert(b * big + big <= a * big);
        }
    }
}

/// Identifiers sort by the moment they were made: an identifier made in an earlier millisecond
/// is smaller, whatever the randomness of either.
pub proof fn law_identifiers_sort_by_the_moment_they_were_made(earlier: nat, later: nat, first: nat, second: nat)
    requires
        earlier < later < two_to(48),
    ensures
        (earlier % two_to(48)) * two_to(80) + first % two_to(80) < (later % two_to(48)) * two_to(80) + second
            % two_to(80),
{
    lemma_two_to_values();
    vstd::arithmetic::div_mod::lemma_small_mod(earlier, two_to(48));
    vstd::arithmetic::div_mod::lemma_small_mod(later, two_to(48));
    vstd::arithmetic::div_mod::lemma_mod_pos_bound(first as int, two_to(80) as int);
    vstd::arithmetic::div_mod::lemma_mod_pos_bound(second as int, two_to(80) as int);
    assert(earlier * two_to(80) + two_to(80) <= later * two_to(80)) by (nonlinear_arith)
        requires
            earlier < later,
            two_to(80) > 0,
    ;
}

/// Appends the last `n` base32 digits of `v`, most significant first.
fn push_base32(out: &mut Vec<char>, v: u128, n: usize)
    ensures
        final(out)@ == old(out)@ + crockford_text(v as nat, n as nat),
    decreases n,
{
    if n > 0 {
        push_base32(out, v / 32, n - 1);
        let c = crockford_digit((v % 32) as u8);
        out.push(c);
        assert(out@ =~= old(out)@ + crockford_text(v as nat, n as nat));
    }
}

/// The character of the base32 digit `d`.
fn crockford_digit(d: u8) -> (c: char)
    requires
        d < 32,
    ensures
        c == crockford_char(d as nat),
{
    let code: u8 = if d < 10 {
        48 + d
    } else if d < 18 {
        65 + d - 10
    } else if d < 20 {
        74 + d - 18
    } else if d < 22 {
        77 + d - 20
    } else if d < 27 {
        80 + d - 22
    } else {
        86 + d - 27
    };
    code as char
}

/// The value of one Crockford base32 character, or `None` when it is not one.
fn digit_of(c: char) -> (digit: Option<u8>)
    ensures
        match digit {
            Some(d) => crockford_value(c) == Some(d as nat) && d < 32,
            None => crockford_value(c) is None,
        },
{
    let u: u32 = if 'a' <= c && c <= 'z' { c as u32 - 32 } else { c as u32 };
    if 48 <= u && u <= 57 {
        Some((u - 48) as u8)
    } else if u == 79 {
        Some(0)
    } else if u == 73 || u == 76 {
        Some(1)
    } else if 65 <= u && u <= 72 {
        Some((u - 65 + 10) as u8)
    } else if u == 74 || u == 75 {
        Some((u - 74 + 18) as u8)
    } else if u == 77 || u == 78 {
        Some((u - 77 + 20) as u8)
    } else if 80 <= u && u <= 84 {
        Some((u - 80 + 22) as u8)
    } else if 86 <= u && u <= 90 {
        Some((u - 86 + 27) as u8)
    } else {
        None
    }
}

/// Sixty four bits from the operating system's seed for hashers. Nothing is promised of them.
#[verifier::external_body]
fn random_bits() -> u64 {
    let mut hasher = RandomState::new().build_hasher();
    hasher.write_u8(0);
    hasher.finish()
}

} // verus!
