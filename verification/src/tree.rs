//! The categories a person keeps, the focuses under them and the goals they set.
//!
//! The tree is written whole and rarely, and a person may fix it by hand, so it is TOML. A broken
//! entry never empties the file: it is skipped, it becomes a located diagnostic, and the rest is
//! kept. Every text value is written between quotes with anything that would end the string
//! hidden behind a backslash.

use vstd::prelude::*;

use std::collections::HashSet;

use crate::diagnostics::{Diagnostic, DiagnosticView, Severity};
use crate::document::{
    Document, Entry, Item, Value, boolean_is, error_at, error_at_byte, error_note, error_notes, find, find_key, holds_once, lacks,
    lemma_holds_once, lemma_lacks, locate, location_at, text_is, whole_is,
};
use crate::id::{Id, parsed};
use crate::session::line::{diagnostic_views, id_text};
use crate::store::reader::without_underscores;
use crate::text::{chars_of, decimal, push_chars, push_str, push_u64, signed_value, string_of, within};

verus! {

broadcast use vstd::std_specs::hash::group_hash_axioms;

/// How often a goal starts over.
#[derive(Debug, Clone, Copy, PartialEq, Eq, Structural)]
pub enum Period {
    /// Every day.
    Day,
    /// Every week.
    Week,
    /// Every month.
    Month,
}

/// The word a period is written as.
pub open spec fn period_word(period: Period) -> Seq<char> {
    match period {
        Period::Day => "day"@,
        Period::Week => "week"@,
        Period::Month => "month"@,
    }
}

/// The period a word names.
pub open spec fn period_named(word: Seq<char>) -> Option<Period> {
    if word == "day"@ {
        Some(Period::Day)
    } else if word == "week"@ {
        Some(Period::Week)
    } else if word == "month"@ {
        Some(Period::Month)
    } else {
        None
    }
}

impl Period {
    /// The word written in a file.
    pub fn as_str(self) -> (word: &'static str)
        ensures
            word@ == period_word(self),
    {
        match self {
            Period::Day => "day",
            Period::Week => "week",
            Period::Month => "month",
        }
    }

    /// Reads the word written in a file.
    pub fn parse(text: &str) -> (period: Option<Self>)
        ensures
            period == period_named(text@),
    {
        let chars = chars_of(text);
        if crate::text::chars_are(chars.as_slice(), "day") {
            Some(Period::Day)
        } else if crate::text::chars_are(chars.as_slice(), "week") {
            Some(Period::Week)
        } else if crate::text::chars_are(chars.as_slice(), "month") {
            Some(Period::Month)
        } else {
            None
        }
    }
}

/// Time a person means to give something.
#[derive(Debug, Clone, Copy, PartialEq, Eq, Structural)]
pub struct Goal {
    /// Seconds in the period.
    pub amount: u32,
    /// How often it starts over.
    pub period: Period,
}

/// The upper-case hexadecimal digit of `d`.
pub open spec fn hex_digit(d: nat) -> char {
    if d < 10 {
        (48 + d) as char
    } else {
        (55 + d) as char
    }
}

/// One character of a text value as it is written.
pub open spec fn escaped_char(c: char) -> Seq<char> {
    if c == '"' {
        seq!['\\', '"']
    } else if c == '\\' {
        seq!['\\', '\\']
    } else if c == '\n' {
        seq!['\\', 'n']
    } else if c == '\r' {
        seq!['\\', 'r']
    } else if c == '\t' {
        seq!['\\', 't']
    } else if (c as u32) < 0x20 {
        seq!['\\', 'u', '0', '0', hex_digit((c as u32 / 16) as nat), hex_digit((c as u32 % 16) as nat)]
    } else {
        seq![c]
    }
}

/// The first `n` characters of a text value as they are written.
pub open spec fn escaped_upto(text: Seq<char>, n: int) -> Seq<char>
    decreases n,
{
    if n <= 0 {
        Seq::empty()
    } else {
        escaped_upto(text, n - 1) + escaped_char(text[n - 1])
    }
}

/// The line `key = "text"`.
pub open spec fn text_line(key: Seq<char>, text: Seq<char>) -> Seq<char> {
    key + " = \""@ + escaped_upto(text, text.len() as int) + "\"\n"@
}

/// The line a goal is written as.
pub open spec fn goal_line(goal: Goal) -> Seq<char> {
    "goal = { amount = "@ + decimal(goal.amount as nat) + ", period = \""@ + period_word(goal.period) + "\" }\n"@
}

/// Appends one character of a text value as it is written.
fn push_escaped(out: &mut Vec<char>, c: char)
    ensures
        final(out)@ == old(out)@ + escaped_char(c),
{
    if c == '"' {
        out.push('\\');
        out.push('"');
    } else if c == '\\' {
        out.push('\\');
        out.push('\\');
    } else if c == '\n' {
        out.push('\\');
        out.push('n');
    } else if c == '\r' {
        out.push('\\');
        out.push('r');
    } else if c == '\t' {
        out.push('\\');
        out.push('t');
    } else if (c as u32) < 0x20 {
        let v = c as u32;
        let high = v / 16;
        let low = v % 16;
        out.push('\\');
        out.push('u');
        out.push('0');
        out.push('0');
        out.push(if high < 10 { (48 + high) as u8 as char } else { (55 + high) as u8 as char });
        out.push(if low < 10 { (48 + low) as u8 as char } else { (55 + low) as u8 as char });
    } else {
        out.push(c);
    }
    assert(out@ =~= old(out)@ + escaped_char(c));
}

/// Writes `key = "text"`, hiding anything that would end the string.
pub fn write_text(out: &mut String, key: &str, text: &str)
    ensures
        final(out)@ == old(out)@ + text_line(key@, text@),
{
    let mut chars = chars_of(out.as_str());
    push_str(&mut chars, key);
    push_str(&mut chars, " = \"");
    let body = chars_of(text);
    let ghost start = chars@;
    let mut i: usize = 0;
    while i < body.len()
        invariant
            i <= body@.len(),
            body@ == text@,
            chars@ == start + escaped_upto(body@, i as int),
        decreases body@.len() - i,
    {
        push_escaped(&mut chars, body[i]);
        i = i + 1;
        assert(chars@ =~= start + escaped_upto(body@, i as int));
    }
    push_str(&mut chars, "\"\n");
    assert(chars@ =~= old(out)@ + text_line(key@, text@));
    *out = string_of(&chars);
}

/// Writes a goal as one line.
pub fn write_goal(out: &mut String, goal: Goal)
    ensures
        final(out)@ == old(out)@ + goal_line(goal),
{
    let mut chars = chars_of(out.as_str());
    push_str(&mut chars, "goal = { amount = ");
    push_u64(&mut chars, goal.amount as u64);
    push_str(&mut chars, ", period = \"");
    push_str(&mut chars, goal.period.as_str());
    push_str(&mut chars, "\" }\n");
    assert(chars@ =~= old(out)@ + goal_line(goal));
    *out = string_of(&chars);
}

/// Where an entry sits among its siblings, as the file gives it: the number written under
/// `order`, without its underscores, when there is one, and the place the entry was written in,
/// which stands for it when there is none or it does not read as a number.
#[derive(Debug, Clone, PartialEq)]
pub struct Order {
    pub written: Option<String>,
    pub place: usize,
}

/// One thing a person works on.
#[derive(Debug, Clone, PartialEq)]
pub struct Focus {
    /// Its permanent identifier; sessions carry this, never the name.
    pub id: Id,
    /// What the person calls it.
    pub name: String,
    /// What they mean to give it, if anything.
    pub goal: Option<Goal>,
    /// Archived focuses leave the lists but stay in the history.
    pub archived: bool,
    /// Where it sits among its siblings.
    pub order: Order,
}

/// A group of focuses.
#[derive(Debug, Clone, PartialEq)]
pub struct Category {
    /// Its permanent identifier.
    pub id: Id,
    /// What the person calls it.
    pub name: String,
    /// An icon from the icon set, if they chose one.
    pub icon: Option<String>,
    /// What they mean to give the whole category, if anything.
    pub goal: Option<Goal>,
    /// Archived categories leave the lists but stay in the history.
    pub archived: bool,
    /// Where it sits among its siblings.
    pub order: Order,
    /// The focuses under it.
    pub focuses: Vec<Focus>,
}

/// Every category a person keeps.
#[derive(Debug, Clone)]
pub struct Tree {
    /// The categories, in the order they were read.
    pub categories: Vec<Category>,
}

/// An order as values.
pub struct OrderView {
    pub written: Option<Seq<char>>,
    pub place: usize,
}

/// A focus as values.
pub struct FocusView {
    pub id: Id,
    pub name: Seq<char>,
    pub goal: Option<Goal>,
    pub archived: bool,
    pub order: OrderView,
}

/// A category as values.
pub struct CategoryView {
    pub id: Id,
    pub name: Seq<char>,
    pub icon: Option<Seq<char>>,
    pub goal: Option<Goal>,
    pub archived: bool,
    pub order: OrderView,
    pub focuses: Seq<FocusView>,
}

impl View for Order {
    type V = OrderView;

    open spec fn view(&self) -> OrderView {
        OrderView {
            written: match self.written {
                Some(w) => Some(w@),
                None => None,
            },
            place: self.place,
        }
    }
}

impl View for Focus {
    type V = FocusView;

    open spec fn view(&self) -> FocusView {
        FocusView { id: self.id, name: self.name@, goal: self.goal, archived: self.archived, order: self.order@ }
    }
}

/// The views of `focuses`.
pub open spec fn focus_views(focuses: Seq<Focus>) -> Seq<FocusView> {
    Seq::new(focuses.len(), |i: int| focuses[i]@)
}

impl View for Category {
    type V = CategoryView;

    open spec fn view(&self) -> CategoryView {
        CategoryView {
            id: self.id,
            name: self.name@,
            icon: match self.icon {
                Some(icon) => Some(icon@),
                None => None,
            },
            goal: self.goal,
            archived: self.archived,
            order: self.order@,
            focuses: focus_views(self.focuses@),
        }
    }
}

/// The views of `categories`.
pub open spec fn category_views(categories: Seq<Category>) -> Seq<CategoryView> {
    Seq::new(categories.len(), |i: int| categories[i]@)
}

/// The bits of the identifiers of `focuses`, in order.
pub open spec fn focus_ids(focuses: Seq<FocusView>) -> Seq<u128> {
    focuses.map_values(|focus: FocusView| focus.id.value())
}

/// The bits of every identifier of `categories`, in the order the file holds them: each
/// category's own, then those of its focuses.
pub open spec fn tree_ids(categories: Seq<CategoryView>) -> Seq<u128>
    decreases categories.len(),
{
    if categories.len() == 0 {
        Seq::empty()
    } else {
        tree_ids(categories.drop_last()) + seq![categories.last().id.value()] + focus_ids(categories.last().focuses)
    }
}

/// A value is in a sequence with one more at its end when it was in it or is that one.
proof fn lemma_push_contains(s: Seq<u128>, v: u128)
    ensures
        forall|x: u128| #[trigger] s.push(v).contains(x) <==> (s.contains(x) || x == v),
{
    assert forall|x: u128| #[trigger] s.push(v).contains(x) <==> (s.contains(x) || x == v) by {
        if s.contains(x) {
            let i = choose|i: int| 0 <= i < s.len() && s[i] == x;
            assert(s.push(v)[i] == x);
        }
        if x == v {
            assert(s.push(v)[s.len() as int] == x);
        }
        if s.push(v).contains(x) {
            let i = choose|i: int| 0 <= i < s.len() + 1 && s.push(v)[i] == x;
            if i < s.len() {
                assert(s[i] == x);
            }
        }
    }
}

/// A value is in two sequences one after the other when it is in one of them.
proof fn lemma_concat_contains(a: Seq<u128>, b: Seq<u128>)
    ensures
        forall|x: u128| #[trigger] (a + b).contains(x) <==> (a.contains(x) || b.contains(x)),
{
    assert forall|x: u128| #[trigger] (a + b).contains(x) <==> (a.contains(x) || b.contains(x)) by {
        if a.contains(x) {
            let i = choose|i: int| 0 <= i < a.len() && a[i] == x;
            assert((a + b)[i] == x);
        }
        if b.contains(x) {
            let i = choose|i: int| 0 <= i < b.len() && b[i] == x;
            assert((a + b)[a.len() + i] == x);
        }
        if (a + b).contains(x) {
            let i = choose|i: int| 0 <= i < a.len() + b.len() && (a + b)[i] == x;
            if i < a.len() {
                assert(a[i] == x);
            } else {
                assert(b[i - a.len()] == x);
            }
        }
    }
}

/// Two sequences without a repeat and without a value in common make one without a repeat.
proof fn lemma_concat_no_duplicates(a: Seq<u128>, b: Seq<u128>)
    requires
        a.no_duplicates(),
        b.no_duplicates(),
        forall|x: u128| a.contains(x) ==> !b.contains(x),
    ensures
        (a + b).no_duplicates(),
{
    let c = a + b;
    assert forall|i: int, j: int| 0 <= i < c.len() && 0 <= j < c.len() && i != j implies c[i] != c[j] by {
        if i < a.len() && j >= a.len() {
            assert(a.contains(c[i]));
            assert(b[j - a.len()] == c[j]);
            assert(b.contains(c[j]));
        } else if j < a.len() && i >= a.len() {
            assert(a.contains(c[j]));
            assert(b[i - a.len()] == c[i]);
            assert(b.contains(c[i]));
        } else if i >= a.len() && j >= a.len() {
            assert(b[i - a.len()] != b[j - a.len()]);
        }
    }
}

/// An identifier is read only when it is not among those seen, and is then seen too.
proof fn lemma_id_read_fresh(file: Seq<char>, src: Seq<char>, table: Seq<Entry>, seen: Set<u128>, kind: Seq<char>, index: int)
    ensures
        match id_read(file, src, table, seen, kind, index).0 {
            Some(id) => !seen.contains(id.value()) && id_read(file, src, table, seen, kind, index).1 == seen.insert(id.value()),
            None => id_read(file, src, table, seen, kind, index).1 == seen,
        },
{
    let written = match string_in(table, "id"@) {
        Some(text) => text,
        None => Seq::empty(),
    };
    match parsed(written) {
        Some(v) => Id::of(v).lemma_value(v),
        None => {},
    }
}

/// The focuses read from the first `n` entries carry identifiers that differ from one another
/// and from those seen before, and are seen after.
proof fn lemma_focus_ids_fresh(file: Seq<char>, src: Seq<char>, items: Seq<Item>, n: int, seen: Set<u128>)
    ensures
        focus_ids(focuses_upto(file, src, items, n, seen).0).no_duplicates(),
        forall|x: u128| #[trigger] focus_ids(focuses_upto(file, src, items, n, seen).0).contains(x) ==> !seen.contains(x),
        forall|x: u128| #[trigger] focuses_upto(file, src, items, n, seen).1.contains(x) <==> (seen.contains(x)
            || focus_ids(focuses_upto(file, src, items, n, seen).0).contains(x)),
    decreases n,
{
    if n > 0 {
        lemma_focus_ids_fresh(file, src, items, n - 1, seen);
        let (fs, before, notes) = focuses_upto(file, src, items, n - 1, seen);
        let ids = focus_ids(fs);
        match items[n - 1].value {
            Value::Table(child) => {
                lemma_id_read_fresh(file, src, child@, before, "focus"@, n - 1);
                let (id, after, more) = id_read(file, src, child@, before, "focus"@, n - 1);
                match id {
                    Some(id) => {
                        let now = focuses_upto(file, src, items, n, seen).0;
                        assert(focus_ids(now) =~= ids.push(id.value()));
                        lemma_push_contains(ids, id.value());
                        assert(!ids.contains(id.value()));
                        assert forall|i: int, j: int|
                            0 <= i < ids.len() + 1 && 0 <= j < ids.len() + 1 && i != j implies ids.push(id.value())[i]
                            != ids.push(id.value())[j] by {
                            if i < ids.len() && j < ids.len() {
                            } else if i < ids.len() {
                                assert(ids.contains(ids[i]));
                            } else {
                                assert(ids.contains(ids[j]));
                            }
                        }
                    },
                    None => {},
                }
            },
            _ => {},
        }
    } else {
        assert(focus_ids(focuses_upto(file, src, items, n, seen).0) =~= Seq::<u128>::empty());
    }
}

/// The categories read from the first `n` entries, with their focuses, carry identifiers that
/// differ from one another, and those are the identifiers seen.
proof fn lemma_tree_ids_fresh(file: Seq<char>, src: Seq<char>, items: Seq<Item>, n: int)
    ensures
        tree_ids(categories_upto(file, src, items, n).0).no_duplicates(),
        forall|x: u128| #[trigger] categories_upto(file, src, items, n).1.contains(x) <==> tree_ids(
            categories_upto(file, src, items, n).0,
        ).contains(x),
    decreases n,
{
    if n > 0 {
        lemma_tree_ids_fresh(file, src, items, n - 1);
        let (cs, seen, notes) = categories_upto(file, src, items, n - 1);
        let ids = tree_ids(cs);
        match items[n - 1].value {
            Value::Table(entry) => {
                lemma_id_read_fresh(file, src, entry@, seen, "category"@, n - 1);
                let (id, seen_id, more) = id_read(file, src, entry@, seen, "category"@, n - 1);
                match id {
                    Some(id) => {
                        let under = array_in(entry@, "focus"@);
                        lemma_focus_ids_fresh(file, src, under, under.len() as int, seen_id);
                        let (fs, seen_all, focus_notes) = focuses_upto(file, src, under, under.len() as int, seen_id);
                        let now = categories_upto(file, src, items, n).0;
                        assert(now.drop_last() =~= cs);
                        let head = ids + seq![id.value()];
                        assert(ids.push(id.value()) =~= head);
                        lemma_push_contains(ids, id.value());
                        assert(!ids.contains(id.value()));
                        assert(head.no_duplicates()) by {
                            assert forall|i: int, j: int|
                                0 <= i < head.len() && 0 <= j < head.len() && i != j implies head[i] != head[j] by {
                                if i < ids.len() && j < ids.len() {
                                } else if i < ids.len() {
                                    assert(ids.contains(ids[i]));
                                } else {
                                    assert(ids.contains(ids[j]));
                                }
                            }
                        }
                        lemma_concat_no_duplicates(head, focus_ids(fs));
                        assert(tree_ids(now) == head + focus_ids(fs));
                        lemma_concat_contains(head, focus_ids(fs));
                    },
                    None => {},
                }
            },
            _ => {},
        }
    } else {
        assert(tree_ids(categories_upto(file, src, items, n).0) =~= Seq::<u128>::empty());
    }
}

/// No identifier is read twice from a tree file: the categories and focuses read carry
/// identifiers that all differ, whatever the document holds. An entry whose identifier was
/// taken by one read before it is left out.
pub proof fn law_no_identifier_is_read_twice(file: Seq<char>, src: Seq<char>, doc: &Document)
    ensures
        tree_ids(tree_read(file, src, doc).0).no_duplicates(),
{
    let items = array_in(doc.entries@, "category"@);
    lemma_tree_ids_fresh(file, src, items, items.len() as int);
}

/// Every focus entry under a category read is either read or costs exactly one diagnostic.
pub proof fn law_each_focus_entry_is_read_or_reported_once(
    file: Seq<char>,
    src: Seq<char>,
    items: Seq<Item>,
    n: int,
    seen: Set<u128>,
)
    requires
        0 <= n,
    ensures
        focuses_upto(file, src, items, n, seen).0.len() + focuses_upto(file, src, items, n, seen).2.len() == n,
    decreases n,
{
    if n > 0 {
        law_each_focus_entry_is_read_or_reported_once(file, src, items, n - 1, seen);
    }
}

/// How many focuses the categories hold, all together.
pub open spec fn focus_count(categories: Seq<CategoryView>) -> nat
    decreases categories.len(),
{
    if categories.len() == 0 {
        0
    } else {
        focus_count(categories.drop_last()) + categories.last().focuses.len()
    }
}

/// How many entries reading the first `n` category entries looks at: each of them, and the
/// focus entries under each category that is read.
pub open spec fn entries_upto(file: Seq<char>, src: Seq<char>, items: Seq<Item>, n: int) -> nat
    decreases n,
{
    if n <= 0 {
        0
    } else {
        entries_upto(file, src, items, n - 1) + 1 + match items[n - 1].value {
            Value::Table(entry) => match id_read(
                file,
                src,
                entry@,
                categories_upto(file, src, items, n - 1).1,
                "category"@,
                n - 1,
            ).0 {
                Some(_) => array_in(entry@, "focus"@).len(),
                None => 0,
            },
            _ => 0,
        }
    }
}

/// Every entry reading a tree looks at is either read or costs exactly one diagnostic: a
/// category or focus that is not a table, has no readable identifier or repeats one is reported
/// once and left out, and nothing else is reported.
pub proof fn law_each_entry_is_read_or_reported_once(file: Seq<char>, src: Seq<char>, items: Seq<Item>, n: int)
    requires
        0 <= n,
    ensures
        categories_upto(file, src, items, n).0.len() + focus_count(categories_upto(file, src, items, n).0)
            + categories_upto(file, src, items, n).2.len() == entries_upto(file, src, items, n),
    decreases n,
{
    if n > 0 {
        law_each_entry_is_read_or_reported_once(file, src, items, n - 1);
        let (cs, seen, notes) = categories_upto(file, src, items, n - 1);
        match items[n - 1].value {
            Value::Table(entry) => {
                let (id, seen_id, more) = id_read(file, src, entry@, seen, "category"@, n - 1);
                let under = array_in(entry@, "focus"@);
                match id {
                    Some(_) => {
                        law_each_focus_entry_is_read_or_reported_once(file, src, under, under.len() as int, seen_id);
                        let now = categories_upto(file, src, items, n).0;
                        assert(now.drop_last() =~= cs);
                    },
                    None => {},
                }
            },
            _ => {},
        }
    }
}

/// A text value under `key`.
pub open spec fn string_in(table: Seq<Entry>, key: Seq<char>) -> Option<Seq<char>> {
    match find(table, key) {
        Some(i) => match table[i].value {
            Value::Text(s) => Some(s@),
            _ => None,
        },
        None => None,
    }
}

/// A true or false value under `key`.
pub open spec fn boolean_in(table: Seq<Entry>, key: Seq<char>) -> Option<bool> {
    match find(table, key) {
        Some(i) => match table[i].value {
            Value::Boolean(b) => Some(b),
            _ => None,
        },
        None => None,
    }
}

/// A whole number under `key`.
pub open spec fn integer_in(table: Seq<Entry>, key: Seq<char>) -> Option<int> {
    match find(table, key) {
        Some(i) => match table[i].value {
            Value::Integer(digits) => within(signed_value(without_underscores(digits@)), i64::MIN as int, i64::MAX as int),
            _ => None,
        },
        None => None,
    }
}

/// The number written under `key`, without its underscores. A whole number written without a
/// point counts too, so a hand-written `order = 2` is not thrown away.
pub open spec fn number_text_in(table: Seq<Entry>, key: Seq<char>) -> Option<Seq<char>> {
    match find(table, key) {
        Some(i) => match table[i].value {
            Value::Float(text) => Some(without_underscores(text@)),
            Value::Integer(text) => Some(without_underscores(text@)),
            _ => None,
        },
        None => None,
    }
}

/// The table under `key`.
pub open spec fn table_in(table: Seq<Entry>, key: Seq<char>) -> Option<Seq<Entry>> {
    match find(table, key) {
        Some(i) => match table[i].value {
            Value::Table(inner) => Some(inner@),
            _ => None,
        },
        None => None,
    }
}

/// The items of the array under `key`, none when there is no array.
pub open spec fn array_in(table: Seq<Entry>, key: Seq<char>) -> Seq<Item> {
    match find(table, key) {
        Some(i) => match table[i].value {
            Value::List(items) => items@,
            _ => Seq::empty(),
        },
        None => Seq::empty(),
    }
}

/// The goal of an entry, when it has one that can be read.
pub open spec fn goal_in(table: Seq<Entry>) -> Option<Goal> {
    match table_in(table, "goal"@) {
        Some(goal) => match integer_in(goal, "amount"@) {
            Some(amount) => if 0 <= amount <= u32::MAX {
                match string_in(goal, "period"@) {
                    Some(word) => match period_named(word) {
                        Some(period) => Some(Goal { amount: amount as u32, period }),
                        None => None,
                    },
                    None => None,
                }
            } else {
                None
            },
            None => None,
        },
        None => None,
    }
}

/// What reading the identifier of the `index`th entry of kind `kind` gives: the identifier, the
/// identifiers seen with it, and what went wrong. The place of the value points every mistake
/// at it; searching the text for what it says would find the same letters inside a comment.
pub open spec fn id_read(
    file: Seq<char>,
    src: Seq<char>,
    table: Seq<Entry>,
    seen: Set<u128>,
    kind: Seq<char>,
    index: int,
) -> (Option<Id>, Set<u128>, Seq<DiagnosticView>) {
    let location = match find(table, "id"@) {
        Some(i) => Some(locate(file, src, table[i].at as int)),
        None => None,
    };
    let written = match string_in(table, "id"@) {
        Some(text) => text,
        None => Seq::empty(),
    };
    match parsed(written) {
        None => (
            None,
            seen,
            seq![DiagnosticView { severity: Severity::Error, location, message: kind + " "@ + decimal((index + 1) as nat) + " has no readable id"@ }],
        ),
        Some(v) => if seen.contains(v) {
            (None, seen, seq![DiagnosticView { severity: Severity::Error, location, message: id_text(Id::of(v)) + " is used twice"@ }])
        } else {
            (Some(Id::of(v)), seen.insert(v), Seq::empty())
        },
    }
}

/// What reading the first `n` focuses of a category gives.
pub open spec fn focuses_upto(file: Seq<char>, src: Seq<char>, items: Seq<Item>, n: int, seen: Set<u128>) -> (
    Seq<FocusView>,
    Set<u128>,
    Seq<DiagnosticView>,
)
    decreases n,
{
    if n <= 0 {
        (Seq::empty(), seen, Seq::empty())
    } else {
        let (focuses, seen_before, notes) = focuses_upto(file, src, items, n - 1, seen);
        match items[n - 1].value {
            Value::Table(child) => {
                let (id, seen_after, more) = id_read(file, src, child@, seen_before, "focus"@, n - 1);
                match id {
                    Some(id) => (
                        focuses.push(
                            FocusView {
                                id,
                                name: match string_in(child@, "name"@) {
                                    Some(name) => name,
                                    None => Seq::empty(),
                                },
                                goal: goal_in(child@),
                                archived: match boolean_in(child@, "archived"@) {
                                    Some(b) => b,
                                    None => false,
                                },
                                order: OrderView { written: number_text_in(child@, "order"@), place: (n - 1) as usize },
                            },
                        ),
                        seen_after,
                        notes + more,
                    ),
                    None => (focuses, seen_after, notes + more),
                }
            },
            _ => (
                focuses,
                seen_before,
                notes.push(error_at(file, src, items[n - 1].at as int, "focus "@ + decimal(n as nat) + " is not a table"@)),
            ),
        }
    }
}

/// What reading the first `n` categories gives.
pub open spec fn categories_upto(file: Seq<char>, src: Seq<char>, items: Seq<Item>, n: int) -> (
    Seq<CategoryView>,
    Set<u128>,
    Seq<DiagnosticView>,
)
    decreases n,
{
    if n <= 0 {
        (Seq::empty(), Set::empty(), Seq::empty())
    } else {
        let (categories, seen, notes) = categories_upto(file, src, items, n - 1);
        match items[n - 1].value {
            Value::Table(entry) => {
                let (id, seen_id, more) = id_read(file, src, entry@, seen, "category"@, n - 1);
                match id {
                    Some(id) => {
                        let under = array_in(entry@, "focus"@);
                        let (focuses, seen_all, focus_notes) = focuses_upto(file, src, under, under.len() as int, seen_id);
                        (
                            categories.push(
                                CategoryView {
                                    id,
                                    name: match string_in(entry@, "name"@) {
                                        Some(name) => name,
                                        None => Seq::empty(),
                                    },
                                    icon: string_in(entry@, "icon"@),
                                    goal: goal_in(entry@),
                                    archived: match boolean_in(entry@, "archived"@) {
                                        Some(b) => b,
                                        None => false,
                                    },
                                    order: OrderView { written: number_text_in(entry@, "order"@), place: (n - 1) as usize },
                                    focuses,
                                },
                            ),
                            seen_all,
                            notes + more + focus_notes,
                        )
                    },
                    None => (categories, seen_id, notes + more),
                }
            },
            _ => (
                categories,
                seen,
                notes.push(error_at(file, src, items[n - 1].at as int, "category "@ + decimal(n as nat) + " is not a table"@)),
            ),
        }
    }
}

/// What reading a tree from the parsed document `doc` of `src`, in the file `file`, gives: the
/// categories that could be read, and everything that went wrong.
pub open spec fn tree_read(file: Seq<char>, src: Seq<char>, doc: &Document) -> (Seq<CategoryView>, Seq<DiagnosticView>) {
    let items = array_in(doc.entries@, "category"@);
    let (categories, _, notes) = categories_upto(file, src, items, items.len() as int);
    (categories, error_notes(file, src, doc.errors@) + notes)
}

/// A text value under `key`.
fn text_in(table: &Vec<Entry>, key: &str) -> (found: Option<String>)
    ensures
        match found {
            Some(t) => string_in(table@, key@) == Some(t@),
            None => string_in(table@, key@) is None,
        },
{
    match find_key(table, key) {
        Some(i) => match &table[i].value {
            Value::Text(t) => Some(string_of(&chars_of(t.as_str()))),
            _ => None,
        },
        None => None,
    }
}

/// A true or false value under `key`.
fn flag_in(table: &Vec<Entry>, key: &str) -> (found: Option<bool>)
    ensures
        found == boolean_in(table@, key@),
{
    match find_key(table, key) {
        Some(i) => match &table[i].value {
            Value::Boolean(b) => Some(*b),
            _ => None,
        },
        None => None,
    }
}

/// `text` without its underscores, as characters.
fn plain_digits(text: &String) -> (out: Vec<char>)
    ensures
        out@ == without_underscores(text@),
{
    let chars = chars_of(text.as_str());
    let mut out: Vec<char> = Vec::new();
    let mut k: usize = 0;
    while k < chars.len()
        invariant
            k <= chars@.len(),
            out@ == without_underscores(chars@.subrange(0, k as int)),
        decreases chars@.len() - k,
    {
        assert(chars@.subrange(0, k + 1).drop_last() =~= chars@.subrange(0, k as int));
        if chars[k] != '_' {
            out.push(chars[k]);
        }
        k = k + 1;
    }
    assert(chars@.subrange(0, chars@.len() as int) =~= chars@);
    out
}

/// A whole number under `key`.
fn whole_in(table: &Vec<Entry>, key: &str) -> (found: Option<i64>)
    ensures
        match found {
            Some(v) => integer_in(table@, key@) == Some(v as int),
            None => integer_in(table@, key@) is None,
        },
{
    match find_key(table, key) {
        Some(i) => match &table[i].value {
            Value::Integer(digits) => {
                let plain = plain_digits(digits);
                match crate::text::parse_signed(plain.as_slice(), 0x8000_0000_0000_0000, 0x7fff_ffff_ffff_ffff) {
                    Some(v) => Some(v as i64),
                    None => None,
                }
            },
            _ => None,
        },
        None => None,
    }
}

/// The number written under `key`, without its underscores.
fn number_text(table: &Vec<Entry>, key: &str) -> (found: Option<String>)
    ensures
        match found {
            Some(t) => number_text_in(table@, key@) == Some(t@),
            None => number_text_in(table@, key@) is None,
        },
{
    match find_key(table, key) {
        Some(i) => match &table[i].value {
            Value::Float(text) => Some(string_of(&plain_digits(text))),
            Value::Integer(text) => Some(string_of(&plain_digits(text))),
            _ => None,
        },
        None => None,
    }
}

/// The table under `key`.
fn inner_table<'a>(table: &'a Vec<Entry>, key: &str) -> (found: Option<&'a Vec<Entry>>)
    ensures
        match found {
            Some(t) => table_in(table@, key@) == Some(t@),
            None => table_in(table@, key@) is None,
        },
{
    match find_key(table, key) {
        Some(i) => match &table[i].value {
            Value::Table(inner) => Some(inner),
            _ => None,
        },
        None => None,
    }
}

/// The items of the array under `key`, if there is an array.
fn items_in<'a>(table: &'a Vec<Entry>, key: &str) -> (found: Option<&'a Vec<Item>>)
    ensures
        match found {
            Some(items) => array_in(table@, key@) == items@,
            None => array_in(table@, key@) == Seq::<Item>::empty(),
        },
{
    match find_key(table, key) {
        Some(i) => match &table[i].value {
            Value::List(items) => Some(items),
            _ => None,
        },
        None => None,
    }
}

/// The goal of an entry, when it has one that can be read.
fn goal_of(table: &Vec<Entry>) -> (goal: Option<Goal>)
    ensures
        goal == goal_in(table@),
{
    let goal = match inner_table(table, "goal") {
        Some(goal) => goal,
        None => return None,
    };
    let amount = match whole_in(goal, "amount") {
        Some(amount) => amount,
        None => return None,
    };
    if amount < 0 || amount > u32::MAX as i64 {
        return None;
    }
    let word = match text_in(goal, "period") {
        Some(word) => word,
        None => return None,
    };
    match Period::parse(word.as_str()) {
        Some(period) => Some(Goal { amount: amount as u32, period }),
        None => None,
    }
}

/// The identifier of the `index`th entry of kind `kind`, or `None` when it cannot be used.
fn read_id(
    file: &str,
    src: &Vec<char>,
    table: &Vec<Entry>,
    seen: &mut HashSet<u128>,
    kind: &str,
    index: usize,
    notes: &mut Vec<Diagnostic>,
) -> (id: Option<Id>)
    requires
        index < usize::MAX,
    ensures
        id == id_read(file@, src@, table@, old(seen)@, kind@, index as int).0,
        final(seen)@ == id_read(file@, src@, table@, old(seen)@, kind@, index as int).1,
        diagnostic_views(final(notes)@) == diagnostic_views(old(notes)@) + id_read(
            file@,
            src@,
            table@,
            old(seen)@,
            kind@,
            index as int,
        ).2,
{
    let ghost before = notes@;
    let location = match find_key(table, "id") {
        Some(i) => Some(location_at(file, src, table[i].at)),
        None => None,
    };
    let written = match text_in(table, "id") {
        Some(text) => text,
        None => String::new(),
    };
    match Id::parse(written.as_str()) {
        None => {
            let mut message: Vec<char> = Vec::new();
            push_str(&mut message, kind);
            push_str(&mut message, " ");
            push_u64(&mut message, index as u64 + 1);
            push_str(&mut message, " has no readable id");
            let note = Diagnostic::error(location, string_of(&message));
            notes.push(note);
            assert(diagnostic_views(notes@) =~= diagnostic_views(before).push(note@));
            None
        },
        Some(id) => {
            proof {
                let v = parsed(written@).unwrap();
                id.lemma_value(v);
            }
            if seen.contains(&id.bits()) {
                let mut message: Vec<char> = Vec::new();
                id.write_to(&mut message);
                push_str(&mut message, " is used twice");
                let note = Diagnostic::error(location, string_of(&message));
                notes.push(note);
                assert(diagnostic_views(notes@) =~= diagnostic_views(before).push(note@));
                None
            } else {
                seen.insert(id.bits());
                assert(diagnostic_views(notes@) =~= diagnostic_views(before) + Seq::empty());
                Some(id)
            }
        },
    }
}

/// The focuses of a category, read from the items of its `focus` array.
fn read_focuses(
    file: &str,
    src: &Vec<char>,
    items: &Vec<Item>,
    seen: &mut HashSet<u128>,
    notes: &mut Vec<Diagnostic>,
) -> (focuses: Vec<Focus>)
    ensures
        focus_views(focuses@) == focuses_upto(file@, src@, items@, items@.len() as int, old(seen)@).0,
        final(seen)@ == focuses_upto(file@, src@, items@, items@.len() as int, old(seen)@).1,
        diagnostic_views(final(notes)@) == diagnostic_views(old(notes)@) + focuses_upto(
            file@,
            src@,
            items@,
            items@.len() as int,
            old(seen)@,
        ).2,
{
    let ghost start = seen@;
    let ghost before = notes@;
    let mut focuses: Vec<Focus> = Vec::new();
    let mut place: usize = 0;
    while place < items.len()
        invariant
            place <= items@.len(),
            focus_views(focuses@) == focuses_upto(file@, src@, items@, place as int, start).0,
            seen@ == focuses_upto(file@, src@, items@, place as int, start).1,
            diagnostic_views(notes@) == diagnostic_views(before) + focuses_upto(file@, src@, items@, place as int, start).2,
        decreases items@.len() - place,
    {
        let ghost middle = notes@;
        match &items[place].value {
            Value::Table(child) => {
                match read_id(file, src, child, seen, "focus", place, notes) {
                    Some(id) => {
                        let focus = Focus {
                            id,
                            name: match text_in(child, "name") {
                                Some(name) => name,
                                None => String::new(),
                            },
                            goal: goal_of(child),
                            archived: match flag_in(child, "archived") {
                                Some(b) => b,
                                None => false,
                            },
                            order: Order { written: number_text(child, "order"), place },
                        };
                        let ghost shown = focus@;
                        let ghost old_focuses = focuses@;
                        focuses.push(focus);
                        assert(focus_views(focuses@) =~= focus_views(old_focuses).push(shown));
                    },
                    None => {},
                }
                assert(diagnostic_views(notes@) =~= diagnostic_views(before) + focuses_upto(
                    file@,
                    src@,
                    items@,
                    place + 1,
                    start,
                ).2);
            },
            _ => {
                let mut message: Vec<char> = Vec::new();
                push_str(&mut message, "focus ");
                push_u64(&mut message, place as u64 + 1);
                push_str(&mut message, " is not a table");
                let note = error_at_byte(file, src, items[place].at, string_of(&message));
                notes.push(note);
                assert(diagnostic_views(notes@) =~= diagnostic_views(middle).push(note@));
            },
        }
        place = place + 1;
    }
    focuses
}

impl Tree {
    /// Reads a tree from the text `text` of the file `file`, keeping everything that can be
    /// read: the text is parsed as TOML, and what the parser made of it is read as
    /// [`Tree::read_document`] reads it.
    pub fn read(file: &str, text: &str) -> (found: (Tree, Vec<Diagnostic>))
        ensures
            category_views(found.0.categories@) == tree_read(file@, text@, &crate::document::toml_document(text@)).0,
            diagnostic_views(found.1@) == tree_read(file@, text@, &crate::document::toml_document(text@)).1,
    {
        let doc = crate::document::parse(text);
        Tree::read_document(file, text, &doc)
    }

    /// Reads a tree from the parsed document `doc` of `text`, in the file `file`, keeping
    /// everything that can be read.
    ///
    /// A mistake in one entry costs that entry and nothing else: a category or focus that is not
    /// a table, has no readable identifier or repeats one is skipped with a diagnostic at the
    /// value. The file on disk is never rewritten here, so nothing a person typed is lost to a
    /// parse error.
    pub fn read_document(file: &str, text: &str, doc: &Document) -> (found: (Tree, Vec<Diagnostic>))
        ensures
            category_views(found.0.categories@) == tree_read(file@, text@, doc).0,
            diagnostic_views(found.1@) == tree_read(file@, text@, doc).1,
    {
        let src = chars_of(text);
        let mut notes: Vec<Diagnostic> = Vec::new();
        let mut e: usize = 0;
        while e < doc.errors.len()
            invariant
                e <= doc.errors@.len(),
                src@ == text@,
                diagnostic_views(notes@) == error_notes(file@, text@, doc.errors@).subrange(0, e as int),
            decreases doc.errors@.len() - e,
        {
            let note = error_note(file, &src, &doc.errors[e]);
            let ghost before = notes@;
            let ghost shown_note = note@;
            notes.push(note);
            assert(diagnostic_views(notes@) =~= diagnostic_views(before).push(shown_note));
            e = e + 1;
            assert(diagnostic_views(notes@) =~= error_notes(file@, text@, doc.errors@).subrange(0, e as int));
        }
        assert(error_notes(file@, text@, doc.errors@).subrange(0, e as int) =~= error_notes(file@, text@, doc.errors@));
        let ghost parse_notes = diagnostic_views(notes@);
        let empty: Vec<Item> = Vec::new();
        let items = match items_in(&doc.entries, "category") {
            Some(items) => items,
            None => &empty,
        };
        let mut seen: HashSet<u128> = HashSet::new();
        let mut categories: Vec<Category> = Vec::new();
        let mut index: usize = 0;
        while index < items.len()
            invariant
                index <= items@.len(),
                src@ == text@,
                items@ == array_in(doc.entries@, "category"@),
                category_views(categories@) == categories_upto(file@, text@, items@, index as int).0,
                seen@ == categories_upto(file@, text@, items@, index as int).1,
                diagnostic_views(notes@) == parse_notes + categories_upto(file@, text@, items@, index as int).2,
            decreases items@.len() - index,
        {
            let ghost middle = notes@;
            match &items[index].value {
                Value::Table(entry) => {
                    match read_id(file, &src, entry, &mut seen, "category", index, &mut notes) {
                        Some(id) => {
                            let empty_focuses: Vec<Item> = Vec::new();
                            let under = match items_in(entry, "focus") {
                                Some(under) => under,
                                None => &empty_focuses,
                            };
                            let focuses = read_focuses(file, &src, under, &mut seen, &mut notes);
                            let category = Category {
                                id,
                                name: match text_in(entry, "name") {
                                    Some(name) => name,
                                    None => String::new(),
                                },
                                icon: text_in(entry, "icon"),
                                goal: goal_of(entry),
                                archived: match flag_in(entry, "archived") {
                                    Some(b) => b,
                                    None => false,
                                },
                                order: Order { written: number_text(entry, "order"), place: index },
                                focuses,
                            };
                            let ghost shown = category@;
                            let ghost old_categories = categories@;
                            categories.push(category);
                            assert(category_views(categories@) =~= category_views(old_categories).push(shown));
                        },
                        None => {},
                    }
                    assert(diagnostic_views(notes@) =~= parse_notes + categories_upto(file@, text@, items@, index + 1).2);
                },
                _ => {
                    let mut message: Vec<char> = Vec::new();
                    push_str(&mut message, "category ");
                    push_u64(&mut message, index as u64 + 1);
                    push_str(&mut message, " is not a table");
                    let note = error_at_byte(file, &src, items[index].at, string_of(&message));
                    notes.push(note);
                    assert(diagnostic_views(notes@) =~= diagnostic_views(middle).push(note@));
                },
            }
            index = index + 1;
        }
        (Tree { categories }, notes)
    }

    /// The focus with this identifier, wherever it sits: the first one, category by category.
    pub fn focus(&self, id: Id) -> (found: Option<&Focus>)
        ensures
            match found {
                Some(focus) => focus.id == id && exists|c: int, f: int|
                    0 <= c < self.categories@.len() && 0 <= f < self.categories@[c].focuses@.len()
                        && self.categories@[c].focuses@[f] == *focus
                        && forall|k: int, g: int|
                        #![trigger self.categories@[k].focuses@[g]]
                        (0 <= k < c && 0 <= g < self.categories@[k].focuses@.len()) || (k == c && 0 <= g < f)
                            ==> self.categories@[k].focuses@[g].id != id,
                None => forall|c: int, f: int|
                    0 <= c < self.categories@.len() && 0 <= f < self.categories@[c].focuses@.len()
                        ==> self.categories@[c].focuses@[f].id != id,
            },
    {
        let mut c: usize = 0;
        while c < self.categories.len()
            invariant
                c <= self.categories@.len(),
                forall|k: int, f: int|
                    0 <= k < c && 0 <= f < self.categories@[k].focuses@.len() ==> self.categories@[k].focuses@[f].id != id,
            decreases self.categories@.len() - c,
        {
            let focuses = &self.categories[c].focuses;
            let mut f: usize = 0;
            while f < focuses.len()
                invariant
                    f <= focuses@.len(),
                    c < self.categories@.len(),
                    focuses@ == self.categories@[c as int].focuses@,
                    forall|g: int| 0 <= g < f ==> focuses@[g].id != id,
                    forall|k: int, g: int|
                        0 <= k < c && 0 <= g < self.categories@[k].focuses@.len() ==> self.categories@[k].focuses@[g].id != id,
                decreases focuses@.len() - f,
            {
                if focuses[f].id == id {
                    proof {
                        let cc = c as int;
                        let ff = f as int;
                        assert forall|k: int, g: int|
                            (0 <= k < cc && 0 <= g < self.categories@[k].focuses@.len()) || (k == cc && 0 <= g < ff)
                            implies #[trigger] self.categories@[k].focuses@[g].id != id by {
                            if k == cc {
                                assert(focuses@[g].id != id);
                            }
                        }
                        assert(self.categories@[cc].focuses@[ff] == focuses@[ff]);
                    }
                    return Some(&focuses[f]);
                }
                f = f + 1;
            }
            c = c + 1;
        }
        None
    }
}

/// What pruning leaves of the first `n` focuses of a category, with how many went and how many
/// archived ones stayed.
pub open spec fn pruned_focuses(focuses: Seq<FocusView>, category_archived: bool, referenced: Set<u128>, n: int) -> (
    Seq<FocusView>,
    nat,
    nat,
)
    decreases n,
{
    if n <= 0 {
        (Seq::empty(), 0, 0)
    } else {
        let (kept, rows, stayed) = pruned_focuses(focuses, category_archived, referenced, n - 1);
        let focus = focuses[n - 1];
        if !(category_archived || focus.archived) {
            (kept.push(focus), rows, stayed)
        } else if referenced.contains(focus.id.value()) {
            (kept.push(focus), rows, stayed + 1)
        } else {
            (kept, rows + 1, stayed)
        }
    }
}

/// What pruning leaves of the first `n` categories, with how many rows went and how many
/// archived rows stayed.
pub open spec fn pruned_upto(categories: Seq<CategoryView>, referenced: Set<u128>, n: int) -> (Seq<CategoryView>, nat, nat)
    decreases n,
{
    if n <= 0 {
        (Seq::empty(), 0, 0)
    } else {
        let (kept, rows, stayed) = pruned_upto(categories, referenced, n - 1);
        let category = categories[n - 1];
        let (focuses, focus_rows, focus_stayed) = pruned_focuses(
            category.focuses,
            category.archived,
            referenced,
            category.focuses.len() as int,
        );
        let trimmed = CategoryView { focuses, ..category };
        if !category.archived {
            (kept.push(trimmed), rows + focus_rows, stayed + focus_stayed)
        } else if focuses.len() == 0 {
            (kept, rows + focus_rows + 1, stayed + focus_stayed)
        } else {
            (kept.push(trimmed), rows + focus_rows, stayed + focus_stayed + 1)
        }
    }
}

/// The number of rows of the first `n` categories: each category and each of its focuses.
pub open spec fn rows_upto(categories: Seq<CategoryView>, n: int) -> nat
    decreases n,
{
    if n <= 0 {
        0
    } else {
        rows_upto(categories, n - 1) + 1 + categories[n - 1].focuses.len()
    }
}

/// A copy of `text`.
fn copy_text(text: &String) -> (copy: String)
    ensures
        copy@ == text@,
{
    string_of(&chars_of(text.as_str()))
}

/// A copy of `focus`.
fn copy_focus(focus: &Focus) -> (copy: Focus)
    ensures
        copy@ == focus@,
{
    Focus {
        id: focus.id,
        name: copy_text(&focus.name),
        goal: focus.goal,
        archived: focus.archived,
        order: Order {
            written: match &focus.order.written {
                Some(w) => Some(copy_text(w)),
                None => None,
            },
            place: focus.order.place,
        },
    }
}

/// The identifiers a set of ids holds, as bits.
fn bits_of(ids: &[Id]) -> (set: std::collections::HashSet<u128>)
    ensures
        forall|v: u128| set@.contains(v) <==> exists|k: int| 0 <= k < ids@.len() && ids@[k].value() == v,
{
    let mut set: std::collections::HashSet<u128> = std::collections::HashSet::new();
    let mut k: usize = 0;
    while k < ids.len()
        invariant
            k <= ids@.len(),
            forall|v: u128| set@.contains(v) <==> exists|j: int| 0 <= j < k && ids@[j].value() == v,
        decreases ids@.len() - k,
    {
        set.insert(ids[k].bits());
        assert forall|v: u128| set@.contains(v) <==> exists|j: int| 0 <= j < k + 1 && ids@[j].value() == v by {
            if v == ids@[k as int].value() {
                assert(0 <= k < k + 1 && ids@[k as int].value() == v);
            }
        }
        k = k + 1;
    }
    set
}

/// `tree` without the archived rows nothing in `referenced` needs, with how many rows went and
/// how many archived rows stayed.
///
/// A focus counts as archived when it is, or when its category is. An archived category goes
/// only once no focus is left in it.
pub fn prune(tree: &Tree, referenced: &[Id]) -> (found: (Tree, usize, usize))
    requires
        rows_upto(category_views(tree.categories@), tree.categories@.len() as int) <= usize::MAX,
    ensures
        ({
            let r = Set::new(|v: u128| exists|k: int| 0 <= k < referenced@.len() && referenced@[k].value() == v);
            let (kept, rows, stayed) = pruned_upto(category_views(tree.categories@), r, tree.categories@.len() as int);
            category_views(found.0.categories@) == kept && found.1 == rows && found.2 == stayed
        }),
{
    let ghost r = Set::new(|v: u128| exists|k: int| 0 <= k < referenced@.len() && referenced@[k].value() == v);
    let ghost cats = category_views(tree.categories@);
    let wanted = bits_of(referenced);
    assert(wanted@ =~= r);
    let mut kept: Vec<Category> = Vec::new();
    let mut rows: usize = 0;
    let mut stayed: usize = 0;
    let mut c: usize = 0;
    while c < tree.categories.len()
        invariant
            c <= tree.categories@.len(),
            cats == category_views(tree.categories@),
            wanted@ == r,
            rows_upto(cats, cats.len() as int) <= usize::MAX,
            category_views(kept@) == pruned_upto(cats, r, c as int).0,
            rows == pruned_upto(cats, r, c as int).1,
            stayed == pruned_upto(cats, r, c as int).2,
            rows + stayed <= rows_upto(cats, c as int),
        decreases tree.categories@.len() - c,
    {
        proof {
            lemma_rows_grow(cats, c as int + 1, cats.len() as int);
        }
        let category = &tree.categories[c];
        let archived = category.archived;
        let mut focuses: Vec<Focus> = Vec::new();
        let mut focus_rows: usize = 0;
        let mut focus_stayed: usize = 0;
        let ghost fs = focus_views(category.focuses@);
        let mut f: usize = 0;
        while f < category.focuses.len()
            invariant
                f <= category.focuses@.len(),
                fs == focus_views(category.focuses@),
                wanted@ == r,
                archived == category.archived,
                focus_views(focuses@) == pruned_focuses(fs, archived, r, f as int).0,
                focus_rows == pruned_focuses(fs, archived, r, f as int).1,
                focus_stayed == pruned_focuses(fs, archived, r, f as int).2,
                focus_rows + focus_stayed <= f,
            decreases category.focuses@.len() - f,
        {
            let focus = &category.focuses[f];
            if !(archived || focus.archived) {
                let copy = copy_focus(focus);
                let ghost before = focuses@;
                focuses.push(copy);
                assert(focus_views(focuses@) =~= focus_views(before).push(fs[f as int]));
            } else if wanted.contains(&focus.id.bits()) {
                let copy = copy_focus(focus);
                let ghost before = focuses@;
                focuses.push(copy);
                assert(focus_views(focuses@) =~= focus_views(before).push(fs[f as int]));
                focus_stayed = focus_stayed + 1;
            } else {
                focus_rows = focus_rows + 1;
            }
            f = f + 1;
        }
        assert(cats[c as int].focuses == fs);
        rows = rows + focus_rows;
        stayed = stayed + focus_stayed;
        let empty = focuses.len() == 0;
        let trimmed = Category {
            id: category.id,
            name: copy_text(&category.name),
            icon: match &category.icon {
                Some(icon) => Some(copy_text(icon)),
                None => None,
            },
            goal: category.goal,
            archived,
            order: Order {
                written: match &category.order.written {
                    Some(w) => Some(copy_text(w)),
                    None => None,
                },
                place: category.order.place,
            },
            focuses,
        };
        if !archived {
            let ghost shown = trimmed@;
            let ghost before = kept@;
            kept.push(trimmed);
            assert(category_views(kept@) =~= category_views(before).push(shown));
        } else if empty {
            rows = rows + 1;
        } else {
            let ghost shown = trimmed@;
            let ghost before = kept@;
            kept.push(trimmed);
            assert(category_views(kept@) =~= category_views(before).push(shown));
            stayed = stayed + 1;
        }
        c = c + 1;
    }
    (Tree { categories: kept }, rows, stayed)
}

/// The rows of a prefix are no more than those of a longer one.
proof fn lemma_rows_grow(categories: Seq<CategoryView>, m: int, n: int)
    requires
        0 <= m <= n <= categories.len(),
    ensures
        rows_upto(categories, m) <= rows_upto(categories, n),
    decreases n - m,
{
    if m < n {
        lemma_rows_grow(categories, m, n - 1);
    }
}

/// The `order` line of an entry: the number it was given, as written; an entry never given one
/// gets no line, and reading the file back gives it its place again.
pub open spec fn order_line(order: OrderView) -> Seq<char> {
    match order.written {
        Some(written) => "order = "@ + written + "\n"@,
        None => Seq::empty(),
    }
}

/// The lines that follow an entry's name: the archive flag when it is archived, its order when
/// it was given one, and its goal when it has one.
pub open spec fn tail_lines(archived: bool, order: OrderView, goal: Option<Goal>) -> Seq<char> {
    (if archived { "archived = true\n"@ } else { Seq::empty() }) + order_line(order) + match goal {
        Some(goal) => goal_line(goal),
        None => Seq::empty(),
    }
}

/// A focus as the file holds it, under its category.
pub open spec fn focus_block(focus: FocusView) -> Seq<char> {
    "\n[[category.focus]]\n"@ + text_line("id"@, id_text(focus.id)) + text_line("name"@, focus.name) + tail_lines(
        focus.archived,
        focus.order,
        focus.goal,
    )
}

/// The first `n` of `focuses` as the file holds them.
pub open spec fn focuses_text(focuses: Seq<FocusView>, n: int) -> Seq<char>
    decreases n,
{
    if n <= 0 {
        Seq::empty()
    } else {
        focuses_text(focuses, n - 1) + focus_block(focuses[n - 1])
    }
}

/// A category as the file holds it, with its focuses under it.
pub open spec fn category_block(category: CategoryView) -> Seq<char> {
    "[[category]]\n"@ + text_line("id"@, id_text(category.id)) + text_line("name"@, category.name) + match category.icon {
        Some(icon) => text_line("icon"@, icon),
        None => Seq::empty(),
    } + tail_lines(category.archived, category.order, category.goal) + focuses_text(
        category.focuses,
        category.focuses.len() as int,
    ) + "\n"@
}

/// The first `n` of `categories` as the file holds them.
pub open spec fn tree_text(categories: Seq<CategoryView>, n: int) -> Seq<char>
    decreases n,
{
    if n <= 0 {
        Seq::empty()
    } else {
        tree_text(categories, n - 1) + category_block(categories[n - 1])
    }
}

/// Writes the lines that follow an entry's name.
fn write_tail(out: &mut String, archived: bool, order: &Order, goal: Option<Goal>)
    ensures
        final(out)@ == old(out)@ + tail_lines(archived, order@, goal),
{
    let mut chars = chars_of(out.as_str());
    if archived {
        push_str(&mut chars, "archived = true\n");
    }
    match &order.written {
        Some(written) => {
            push_str(&mut chars, "order = ");
            push_str(&mut chars, written.as_str());
            push_str(&mut chars, "\n");
        },
        None => {},
    }
    *out = string_of(&chars);
    match goal {
        Some(goal) => write_goal(out, goal),
        None => {},
    }
    proof {
        reveal_strlit("archived = true\n");
        reveal_strlit("order = ");
        reveal_strlit("\n");
    }
    assert(out@ =~= old(out)@ + tail_lines(archived, order@, goal));
}

/// Writes a focus as its category's file block holds it.
fn write_focus(out: &mut String, focus: &Focus)
    ensures
        final(out)@ == old(out)@ + focus_block(focus@),
{
    let mut chars = chars_of(out.as_str());
    push_str(&mut chars, "\n[[category.focus]]\n");
    *out = string_of(&chars);
    write_text(out, "id", focus.id.to_string().as_str());
    write_text(out, "name", focus.name.as_str());
    write_tail(out, focus.archived, &focus.order, focus.goal);
    proof {
        reveal_strlit("\n[[category.focus]]\n");
    }
    assert(out@ =~= old(out)@ + focus_block(focus@));
}

/// Writes a category with its focuses under it.
#[verifier::spinoff_prover]
#[verifier::rlimit(40)]
fn write_category(out: &mut String, category: &Category)
    ensures
        final(out)@ == old(out)@ + category_block(category@),
{
    let mut chars = chars_of(out.as_str());
    push_str(&mut chars, "[[category]]\n");
    *out = string_of(&chars);
    write_text(out, "id", category.id.to_string().as_str());
    write_text(out, "name", category.name.as_str());
    match &category.icon {
        Some(icon) => write_text(out, "icon", icon.as_str()),
        None => {},
    }
    write_tail(out, category.archived, &category.order, category.goal);
    let ghost head = out@;
    let mut f: usize = 0;
    while f < category.focuses.len()
        invariant
            f <= category.focuses@.len(),
            out@ == head + focuses_text(focus_views(category.focuses@), f as int),
        decreases category.focuses@.len() - f,
    {
        write_focus(out, &category.focuses[f]);
        f = f + 1;
        assert(focus_views(category.focuses@)[f - 1] == category.focuses@[f - 1]@);
        assert(out@ =~= head + focuses_text(focus_views(category.focuses@), f as int));
    }
    let mut chars = chars_of(out.as_str());
    push_str(&mut chars, "\n");
    *out = string_of(&chars);
    proof {
        reveal_strlit("[[category]]\n");
        reveal_strlit("\n");
    }
    assert(focus_views(category.focuses@).len() == category.focuses@.len());
    assert(out@ =~= old(out)@ + category_block(category@));
}

impl Tree {
    /// The tree as the file holds it, every category with its focuses under it. Each order is
    /// written as the number text it holds; an entry that holds none gets no `order` line, so
    /// reading the file back gives it its place again.
    pub fn write(&self) -> (text: String)
        ensures
            text@ == tree_text(category_views(self.categories@), self.categories@.len() as int),
    {
        let mut out = String::new();
        let mut c: usize = 0;
        while c < self.categories.len()
            invariant
                c <= self.categories@.len(),
                out@ == tree_text(category_views(self.categories@), c as int),
            decreases self.categories@.len() - c,
        {
            write_category(&mut out, &self.categories[c]);
            c = c + 1;
            assert(category_views(self.categories@)[c - 1] == self.categories@[c - 1]@);
            assert(out@ =~= tree_text(category_views(self.categories@), c as int));
        }
        out
    }
}

/// A goal written as its inline table: the amount in seconds and the word of its period.
pub open spec fn goal_is(goal: Goal) -> spec_fn(Value) -> bool {
    |v: Value|
        match v {
            Value::Table(inner) => holds_once(inner@, "amount"@, whole_is(goal.amount as int)) && holds_once(
                inner@,
                "period"@,
                text_is(period_word(goal.period)),
            ),
            _ => false,
        }
}

/// An order written as the number text `text`, a whole number or one with a point.
pub open spec fn number_is(text: Seq<char>) -> spec_fn(Value) -> bool {
    |v: Value|
        match v {
            Value::Float(t) => t@ == text,
            Value::Integer(t) => t@ == text,
            _ => false,
        }
}

/// Whether `table` holds the lines that follow an entry's name, as [`tail_lines`] writes them.
pub open spec fn tail_table(table: Seq<Entry>, archived: bool, order: OrderView, goal: Option<Goal>) -> bool {
    &&& if archived {
        holds_once(table, "archived"@, boolean_is(true))
    } else {
        lacks(table, "archived"@)
    }
    &&& match order.written {
        Some(written) => holds_once(table, "order"@, number_is(written)),
        None => lacks(table, "order"@),
    }
    &&& match goal {
        Some(goal) => holds_once(table, "goal"@, goal_is(goal)),
        None => lacks(table, "goal"@),
    }
}

/// Whether `table` holds the keys and values a focus is written as.
pub open spec fn focus_table(table: Seq<Entry>, focus: FocusView) -> bool {
    &&& holds_once(table, "id"@, text_is(id_text(focus.id)))
    &&& holds_once(table, "name"@, text_is(focus.name))
    &&& tail_table(table, focus.archived, focus.order, focus.goal)
}

/// Whether `items` are the `[[category.focus]]` tables of `focuses`, one table each, in order.
pub open spec fn focus_items(items: Seq<Item>, focuses: Seq<FocusView>) -> bool {
    items.len() == focuses.len() && forall|i: int|
        0 <= i < items.len() ==> match #[trigger] items[i].value {
            Value::Table(t) => focus_table(t@, focuses[i]),
            _ => false,
        }
}

/// The array of the `[[category.focus]]` tables of `focuses`.
pub open spec fn focus_list_is(focuses: Seq<FocusView>) -> spec_fn(Value) -> bool {
    |v: Value|
        match v {
            Value::List(items) => focus_items(items@, focuses),
            _ => false,
        }
}

/// Whether `table` holds the keys and values a category is written as, its focuses under it.
pub open spec fn category_table(table: Seq<Entry>, category: CategoryView) -> bool {
    &&& holds_once(table, "id"@, text_is(id_text(category.id)))
    &&& holds_once(table, "name"@, text_is(category.name))
    &&& match category.icon {
        Some(icon) => holds_once(table, "icon"@, text_is(icon)),
        None => lacks(table, "icon"@),
    }
    &&& tail_table(table, category.archived, category.order, category.goal)
    &&& if category.focuses.len() > 0 {
        holds_once(table, "focus"@, focus_list_is(category.focuses))
    } else {
        lacks(table, "focus"@)
    }
}

/// Whether `items` are the `[[category]]` tables of `categories`, one table each, in order.
pub open spec fn category_items(items: Seq<Item>, categories: Seq<CategoryView>) -> bool {
    items.len() == categories.len() && forall|i: int|
        0 <= i < items.len() ==> match #[trigger] items[i].value {
            Value::Table(t) => category_table(t@, categories[i]),
            _ => false,
        }
}

/// The array of the `[[category]]` tables of `categories`.
pub open spec fn category_list_is(categories: Seq<CategoryView>) -> spec_fn(Value) -> bool {
    |v: Value|
        match v {
            Value::List(items) => category_items(items@, categories),
            _ => false,
        }
}

/// Whether `doc` is a document of the keys and values [`Tree::write`] puts out for
/// `categories`, without a mistake: the `[[category]]` tables, each with its focuses, and no
/// `category` key at all when there is no category.
pub open spec fn holds_tree(doc: &Document, categories: Seq<CategoryView>) -> bool {
    &&& doc.errors@.len() == 0
    &&& if categories.len() > 0 {
        holds_once(doc.entries@, "category"@, category_list_is(categories))
    } else {
        lacks(doc.entries@, "category"@)
    }
}

/// Whether an entry at `index` among its siblings can be read back as it is: its identifier is
/// one the text form carries, its place is where it stands, and an order it was given is written
/// without underscores, as the reader keeps it.
pub open spec fn entry_readable(id: Id, order: OrderView, index: int) -> bool {
    &&& id.value() < 0x8000_0000_0000_0000_0000_0000_0000_0000
    &&& order.place == index
    &&& match order.written {
        Some(written) => forall|k: int| 0 <= k < written.len() ==> written[k] != '_',
        None => true,
    }
}

/// Whether every category and focus of `categories` can be read back as it is, and no two of
/// them share an identifier.
pub open spec fn readable_tree(categories: Seq<CategoryView>) -> bool {
    &&& tree_ids(categories).no_duplicates()
    &&& forall|i: int|
        0 <= i < categories.len() ==> entry_readable(#[trigger] categories[i].id, categories[i].order, i) && forall|j: int|
            0 <= j < categories[i].focuses.len() ==> entry_readable(
                #[trigger] categories[i].focuses[j].id,
                categories[i].focuses[j].order,
                j,
            )
}

/// A text a table holds once is read as it is.
proof fn lemma_string_in(table: Seq<Entry>, key: Seq<char>, text: Seq<char>)
    requires
        holds_once(table, key, text_is(text)),
    ensures
        string_in(table, key) == Some(text),
{
    lemma_holds_once(table, key, text_is(text));
}

/// The lines after an entry's name read back as the archive flag, order and goal written.
proof fn lemma_tail_read(table: Seq<Entry>, archived: bool, order: OrderView, goal: Option<Goal>)
    requires
        tail_table(table, archived, order, goal),
        match order.written {
            Some(written) => forall|k: int| 0 <= k < written.len() ==> written[k] != '_',
            None => true,
        },
    ensures
        (match boolean_in(table, "archived"@) {
            Some(b) => b,
            None => false,
        }) == archived,
        number_text_in(table, "order"@) == order.written,
        goal_in(table) == goal,
{
    if archived {
        lemma_holds_once(table, "archived"@, boolean_is(true));
    } else {
        lemma_lacks(table, "archived"@);
    }
    match order.written {
        Some(written) => {
            lemma_holds_once(table, "order"@, number_is(written));
            crate::store::reader::lemma_no_underscores(written);
        },
        None => lemma_lacks(table, "order"@),
    }
    match goal {
        Some(g) => {
            lemma_holds_once(table, "goal"@, goal_is(g));
            let i = find(table, "goal"@).unwrap();
            let inner = match table[i].value {
                Value::Table(inner) => inner@,
                _ => Seq::empty(),
            };
            assert(table_in(table, "goal"@) == Some(inner));
            lemma_holds_once(inner, "amount"@, whole_is(g.amount as int));
            let digits = crate::text::signed_decimal(g.amount as int);
            crate::text::lemma_signed_decimal_chars(g.amount as int);
            crate::store::reader::lemma_no_underscores(digits);
            crate::text::lemma_signed_decimal_reads_back(g.amount as int);
            assert(integer_in(inner, "amount"@) == Some(g.amount as int));
            lemma_string_in(inner, "period"@, period_word(g.period));
            reveal_strlit("day");
            reveal_strlit("week");
            reveal_strlit("month");
            assert("week"@[0] != "day"@[0]);
            assert("month"@[0] != "day"@[0] && "month"@[0] != "week"@[0]);
            assert(period_named(period_word(g.period)) == Some(g.period));
        },
        None => lemma_lacks(table, "goal"@),
    }
}

/// The focus tables of a category read back as its focuses, one after another, each seen once.
proof fn lemma_focuses_read_back(
    file: Seq<char>,
    src: Seq<char>,
    items: Seq<Item>,
    focuses: Seq<FocusView>,
    n: int,
    seen: Set<u128>,
)
    requires
        0 <= n <= focuses.len(),
        focus_items(items, focuses),
        focus_ids(focuses).no_duplicates(),
        forall|x: u128| #[trigger] focus_ids(focuses).contains(x) ==> !seen.contains(x),
        forall|j: int| 0 <= j < focuses.len() ==> entry_readable(#[trigger] focuses[j].id, focuses[j].order, j),
    ensures
        focuses_upto(file, src, items, n, seen).0 == focuses.subrange(0, n),
        focuses_upto(file, src, items, n, seen).2.len() == 0,
        forall|x: u128| #[trigger] focuses_upto(file, src, items, n, seen).1.contains(x) <==> (seen.contains(x)
            || focus_ids(focuses.subrange(0, n)).contains(x)),
    decreases n,
{
    if n == 0 {
        assert(focuses.subrange(0, 0) =~= Seq::<FocusView>::empty());
        assert(focus_ids(focuses.subrange(0, 0)) =~= Seq::<u128>::empty());
    } else {
        lemma_focuses_read_back(file, src, items, focuses, n - 1, seen);
        let (fs, before, notes) = focuses_upto(file, src, items, n - 1, seen);
        let f = focuses[n - 1];
        let t = match items[n - 1].value {
            Value::Table(t) => t@,
            _ => Seq::empty(),
        };
        assert(focus_table(t, f));
        let v = f.id.value();
        assert(focus_ids(focuses)[n - 1] == v);
        assert(focus_ids(focuses).contains(v));
        assert(!focus_ids(focuses.subrange(0, n - 1)).contains(v)) by {
            if focus_ids(focuses.subrange(0, n - 1)).contains(v) {
                let k = choose|k: int| 0 <= k < n - 1 && #[trigger] focus_ids(focuses.subrange(0, n - 1))[k] == v;
                assert(focus_ids(focuses)[k] == v);
            }
        }
        assert(!before.contains(v));
        lemma_string_in(t, "id"@, id_text(f.id));
        lemma_string_in(t, "name"@, f.name);
        crate::id::law_an_identifier_reads_back_from_its_text(f.id);
        f.id.lemma_value(v);
        lemma_tail_read(t, f.archived, f.order, f.goal);
        let (id, after, more) = id_read(file, src, t, before, "focus"@, n - 1);
        assert(id == Some(f.id));
        assert(after == before.insert(v));
        assert(more.len() == 0);
        let now = focuses_upto(file, src, items, n, seen);
        assert(now.0 == fs.push(f));
        assert(focuses.subrange(0, n) =~= focuses.subrange(0, n - 1).push(f));
        assert(focus_ids(focuses.subrange(0, n)) =~= focus_ids(focuses.subrange(0, n - 1)).push(v));
        lemma_push_contains(focus_ids(focuses.subrange(0, n - 1)), v);
        assert(now.2 =~= notes + more);
    }
}

/// The category tables of a tree read back as its categories, one after another, their
/// identifiers and those of their focuses seen once each.
proof fn lemma_categories_read_back(file: Seq<char>, src: Seq<char>, items: Seq<Item>, categories: Seq<CategoryView>, n: int)
    requires
        0 <= n <= categories.len(),
        category_items(items, categories),
        readable_tree(categories),
    ensures
        categories_upto(file, src, items, n).0 == categories.subrange(0, n),
        categories_upto(file, src, items, n).2.len() == 0,
        forall|x: u128| #[trigger] categories_upto(file, src, items, n).1.contains(x) <==> tree_ids(
            categories.subrange(0, n),
        ).contains(x),
    decreases n,
{
    if n == 0 {
        assert(categories.subrange(0, 0) =~= Seq::<CategoryView>::empty());
        assert(tree_ids(categories.subrange(0, 0)) =~= Seq::<u128>::empty());
    } else {
        lemma_categories_read_back(file, src, items, categories, n - 1);
        let (cs, seen, notes) = categories_upto(file, src, items, n - 1);
        let c = categories[n - 1];
        let whole = categories.subrange(0, n);
        let front = categories.subrange(0, n - 1);
        assert(whole.drop_last() =~= front);
        assert(whole.last() == c);
        lemma_tree_ids_prefix(categories, n);
        let ids = tree_ids(front);
        let v = c.id.value();
        let head = ids + seq![v];
        assert(tree_ids(whole) == head + focus_ids(c.focuses));
        let all = tree_ids(whole);
        assert(all[ids.len() as int] == v);
        assert(!ids.contains(v)) by {
            if ids.contains(v) {
                let k = choose|k: int| 0 <= k < ids.len() && #[trigger] ids[k] == v;
                assert(all[k] == v);
            }
        }
        assert(!seen.contains(v));
        let t = match items[n - 1].value {
            Value::Table(t) => t@,
            _ => Seq::empty(),
        };
        assert(category_table(t, c));
        assert(entry_readable(c.id, c.order, n - 1));
        lemma_string_in(t, "id"@, id_text(c.id));
        lemma_string_in(t, "name"@, c.name);
        match c.icon {
            Some(icon) => lemma_string_in(t, "icon"@, icon),
            None => lemma_lacks(t, "icon"@),
        }
        crate::id::law_an_identifier_reads_back_from_its_text(c.id);
        c.id.lemma_value(v);
        lemma_tail_read(t, c.archived, c.order, c.goal);
        let (id, seen_id, more) = id_read(file, src, t, seen, "category"@, n - 1);
        assert(id == Some(c.id));
        assert(seen_id == seen.insert(v));
        let under = array_in(t, "focus"@);
        if c.focuses.len() > 0 {
            lemma_holds_once(t, "focus"@, focus_list_is(c.focuses));
        } else {
            lemma_lacks(t, "focus"@);
        }
        assert(focus_items(under, c.focuses));
        let fids = focus_ids(c.focuses);
        assert(fids.no_duplicates()) by {
            assert forall|i: int, j: int| 0 <= i < fids.len() && 0 <= j < fids.len() && i != j implies fids[i] != fids[j] by {
                assert(all[head.len() + i] == fids[i]);
                assert(all[head.len() + j] == fids[j]);
            }
        }
        assert forall|x: u128| #[trigger] fids.contains(x) implies !seen_id.contains(x) by {
            let k = choose|k: int| 0 <= k < fids.len() && #[trigger] fids[k] == x;
            assert(all[head.len() + k] == x);
            if ids.contains(x) {
                let m = choose|m: int| 0 <= m < ids.len() && #[trigger] ids[m] == x;
                assert(all[m] == x);
            }
        }
        assert forall|j: int| 0 <= j < c.focuses.len() implies entry_readable(
            #[trigger] c.focuses[j].id,
            c.focuses[j].order,
            j,
        ) by {
            assert(entry_readable(categories[n - 1].focuses[j].id, categories[n - 1].focuses[j].order, j));
        }
        lemma_focuses_read_back(file, src, under, c.focuses, c.focuses.len() as int, seen_id);
        assert(c.focuses.subrange(0, c.focuses.len() as int) =~= c.focuses);
        let now = categories_upto(file, src, items, n);
        assert(now.0 == cs.push(c));
        assert(whole =~= front.push(c));
        lemma_push_contains(ids, v);
        assert(ids.push(v) =~= head);
        lemma_concat_contains(head, fids);
    }
}

/// The identifiers of the first categories lead those of all of them.
proof fn lemma_tree_ids_prefix(categories: Seq<CategoryView>, n: int)
    requires
        0 <= n <= categories.len(),
        tree_ids(categories).no_duplicates(),
    ensures
        tree_ids(categories.subrange(0, n)).no_duplicates(),
    decreases categories.len() - n,
{
    if n < categories.len() {
        let longer = categories.subrange(0, n + 1);
        lemma_tree_ids_prefix(categories, n + 1);
        assert(longer.drop_last() =~= categories.subrange(0, n));
        let a = tree_ids(categories.subrange(0, n));
        let whole = tree_ids(longer);
        assert(whole == a + seq![longer.last().id.value()] + focus_ids(longer.last().focuses));
        assert forall|i: int, j: int| 0 <= i < a.len() && 0 <= j < a.len() && i != j implies a[i] != a[j] by {
            assert(whole[i] == a[i] && whole[j] == a[j]);
        }
    } else {
        assert(categories.subrange(0, n) =~= categories);
    }
}

/// What a read gives back of a write: a document holding the keys and values [`Tree::write`] puts
/// out for a tree reads back as that tree, without a diagnostic, whenever every entry of the
/// tree can be read back as it is and no two share an identifier.
pub proof fn law_a_written_tree_reads_back_as_itself(file: Seq<char>, src: Seq<char>, doc: &Document, categories: Seq<CategoryView>)
    requires
        holds_tree(doc, categories),
        readable_tree(categories),
    ensures
        tree_read(file, src, doc) == (categories, Seq::<DiagnosticView>::empty()),
{
    let items = array_in(doc.entries@, "category"@);
    if categories.len() > 0 {
        lemma_holds_once(doc.entries@, "category"@, category_list_is(categories));
    } else {
        lemma_lacks(doc.entries@, "category"@);
    }
    assert(category_items(items, categories));
    lemma_categories_read_back(file, src, items, categories, categories.len() as int);
    assert(categories.subrange(0, categories.len() as int) =~= categories);
    assert(error_notes(file, src, doc.errors@) =~= Seq::<DiagnosticView>::empty());
    let notes = categories_upto(file, src, items, items.len() as int).2;
    assert(error_notes(file, src, doc.errors@) + notes =~= Seq::<DiagnosticView>::empty());
}

/// The identifier text of a table: the text under `id`, or nothing.
pub open spec fn id_text_in(table: Seq<Entry>) -> Seq<char> {
    match string_in(table, "id"@) {
        Some(text) => text,
        None => Seq::empty(),
    }
}

/// Whether the entry `item` is a table whose identifier reads as one that `taken` does not hold.
pub open spec fn keeps(item: Item, taken: spec_fn(u128) -> bool) -> bool {
    match item.value {
        Value::Table(t) => match parsed(id_text_in(t@)) {
            Some(v) => !taken(v),
            None => false,
        },
        _ => false,
    }
}

/// Whether the fields of a focus are those its table holds, each with its default when it is
/// missing or mistyped: no name, no goal, not archived, no order of its own.
pub open spec fn focus_read_from(table: Seq<Entry>, focus: FocusView) -> bool {
    &&& parsed(id_text_in(table)) == Some(focus.id.value())
    &&& focus.name == match string_in(table, "name"@) {
        Some(name) => name,
        None => Seq::empty(),
    }
    &&& focus.goal == goal_in(table)
    &&& focus.archived == match boolean_in(table, "archived"@) {
        Some(b) => b,
        None => false,
    }
    &&& focus.order.written == number_text_in(table, "order"@)
}

/// Whether one of `entries` stands at place `p`.
pub open spec fn placed_at_focus(entries: Seq<FocusView>, p: int) -> bool {
    exists|k: int| 0 <= k < entries.len() && #[trigger] entries[k].order.place == p
}

/// Whether one of `entries` stands at place `p`.
pub open spec fn placed_at_category(entries: Seq<CategoryView>, p: int) -> bool {
    exists|k: int| 0 <= k < entries.len() && #[trigger] entries[k].order.place == p
}

/// Which focus entries are kept: the focuses read from the first `n` entries stand at the places
/// of their entries, in the order of the file, each read from its table with the defaults; and
/// the entry at a place is kept exactly when it is a table whose identifier reads and is neither
/// among those seen before nor among the focuses kept before it.
pub proof fn law_which_focus_entries_are_kept(file: Seq<char>, src: Seq<char>, items: Seq<Item>, n: int, seen: Set<u128>)
    requires
        0 <= n <= items.len(),
        n < usize::MAX,
    ensures
        ({
            let fs = focuses_upto(file, src, items, n, seen).0;
            &&& forall|k: int| 0 <= k < fs.len() ==> 0 <= #[trigger] fs[k].order.place < n
            &&& forall|k: int, l: int| 0 <= k < l < fs.len() ==> #[trigger] fs[k].order.place < #[trigger] fs[l].order.place
            &&& forall|k: int| 0 <= k < fs.len() ==> match #[trigger] items[fs[k].order.place as int].value {
                Value::Table(t) => focus_read_from(t@, fs[k]),
                _ => false,
            }
            &&& forall|p: int| 0 <= p < n ==> (placed_at_focus(fs, p) <==> keeps(
                #[trigger] items[p],
                |v: u128| seen.contains(v) || focus_ids(focuses_upto(file, src, items, p, seen).0).contains(v),
            ))
        }),
    decreases n,
{
    if n > 0 {
        law_which_focus_entries_are_kept(file, src, items, n - 1, seen);
        lemma_focus_ids_fresh(file, src, items, n - 1, seen);
        let (fs, before, notes) = focuses_upto(file, src, items, n - 1, seen);
        let now = focuses_upto(file, src, items, n, seen).0;
        let taken = |v: u128| seen.contains(v) || focus_ids(fs).contains(v);
        match items[n - 1].value {
            Value::Table(child) => {
                lemma_id_read_fresh(file, src, child@, before, "focus"@, n - 1);
                let (id, after, more) = id_read(file, src, child@, before, "focus"@, n - 1);
                match id {
                    Some(id) => {
                        assert(now == fs.push(now[fs.len() as int]));
                        assert(now[fs.len() as int].order.place == n - 1);
                        assert(id.value() == parsed(id_text_in(child@)).unwrap()) by {
                            let v = parsed(id_text_in(child@)).unwrap();
                            Id::of(v).lemma_value(v);
                        }
                        assert forall|p: int| 0 <= p < n implies (placed_at_focus(now, p) <==> keeps(
                            #[trigger] items[p],
                            |v: u128| seen.contains(v) || focus_ids(focuses_upto(file, src, items, p, seen).0).contains(v),
                        )) by {
                            if p < n - 1 {
                                if placed_at_focus(now, p) {
                                    let k = choose|k: int| 0 <= k < now.len() && #[trigger] now[k].order.place == p;
                                    assert(k < fs.len());
                                    assert(fs[k].order.place == p);
                                }
                                if placed_at_focus(fs, p) {
                                    let k = choose|k: int| 0 <= k < fs.len() && #[trigger] fs[k].order.place == p;
                                    assert(now[k].order.place == p);
                                }
                            } else {
                                assert(now[fs.len() as int].order.place == p);
                                assert(keeps(items[p], taken));
                            }
                        }
                    },
                    None => {
                        assert(now == fs);
                        assert forall|p: int| 0 <= p < n implies (placed_at_focus(now, p) <==> keeps(
                            #[trigger] items[p],
                            |v: u128| seen.contains(v) || focus_ids(focuses_upto(file, src, items, p, seen).0).contains(v),
                        )) by {
                            if p == n - 1 {
                                assert(!keeps(items[p], taken));
                                if placed_at_focus(now, p) {
                                    let k = choose|k: int| 0 <= k < now.len() && #[trigger] now[k].order.place == p;
                                }
                            }
                        }
                    },
                }
            },
            _ => {
                assert(now == fs);
                assert forall|p: int| 0 <= p < n implies (placed_at_focus(now, p) <==> keeps(
                    #[trigger] items[p],
                    |v: u128| seen.contains(v) || focus_ids(focuses_upto(file, src, items, p, seen).0).contains(v),
                )) by {
                    if p == n - 1 {
                        if placed_at_focus(now, p) {
                            let k = choose|k: int| 0 <= k < now.len() && #[trigger] now[k].order.place == p;
                        }
                    }
                }
            },
        }
    }
}

/// Whether the fields of a category are those its table holds, each with its default when it is
/// missing or mistyped, and its focuses are those read from its focus entries with the
/// identifiers `taken` already taken and its own.
pub open spec fn category_read_from(file: Seq<char>, src: Seq<char>, table: Seq<Entry>, category: CategoryView, taken: Set<u128>) -> bool {
    let under = array_in(table, "focus"@);
    &&& parsed(id_text_in(table)) == Some(category.id.value())
    &&& category.name == match string_in(table, "name"@) {
        Some(name) => name,
        None => Seq::empty(),
    }
    &&& category.icon == string_in(table, "icon"@)
    &&& category.goal == goal_in(table)
    &&& category.archived == match boolean_in(table, "archived"@) {
        Some(b) => b,
        None => false,
    }
    &&& category.order.written == number_text_in(table, "order"@)
    &&& category.focuses == focuses_upto(file, src, under, under.len() as int, taken.insert(category.id.value())).0
}

/// Which category entries are kept: the categories read from the first `n` entries stand at the
/// places of their entries, in the order of the file, each read from its table with the
/// defaults, its focuses read from its focus entries; and the entry at a place is kept exactly
/// when it is a table whose identifier reads and is not taken by a category or focus kept before
/// it.
pub proof fn law_which_category_entries_are_kept(file: Seq<char>, src: Seq<char>, items: Seq<Item>, n: int)
    requires
        0 <= n <= items.len(),
        n < usize::MAX,
    ensures
        ({
            let cs = categories_upto(file, src, items, n).0;
            &&& forall|k: int| 0 <= k < cs.len() ==> 0 <= #[trigger] cs[k].order.place < n
            &&& forall|k: int, l: int| 0 <= k < l < cs.len() ==> #[trigger] cs[k].order.place < #[trigger] cs[l].order.place
            &&& forall|k: int| 0 <= k < cs.len() ==> match #[trigger] items[cs[k].order.place as int].value {
                Value::Table(t) => category_read_from(
                    file,
                    src,
                    t@,
                    cs[k],
                    categories_upto(file, src, items, cs[k].order.place as int).1,
                ),
                _ => false,
            }
            &&& forall|p: int| 0 <= p < n ==> (placed_at_category(cs, p) <==> keeps(
                #[trigger] items[p],
                |v: u128| tree_ids(categories_upto(file, src, items, p).0).contains(v),
            ))
        }),
    decreases n,
{
    if n > 0 {
        law_which_category_entries_are_kept(file, src, items, n - 1);
        lemma_tree_ids_fresh(file, src, items, n - 1);
        let (cs, seen, notes) = categories_upto(file, src, items, n - 1);
        let now = categories_upto(file, src, items, n).0;
        let taken = |v: u128| tree_ids(cs).contains(v);
        match items[n - 1].value {
            Value::Table(entry) => {
                lemma_id_read_fresh(file, src, entry@, seen, "category"@, n - 1);
                let (id, seen_id, more) = id_read(file, src, entry@, seen, "category"@, n - 1);
                match id {
                    Some(id) => {
                        assert(now == cs.push(now[cs.len() as int]));
                        assert(now[cs.len() as int].order.place == n - 1);
                        assert(id.value() == parsed(id_text_in(entry@)).unwrap()) by {
                            let v = parsed(id_text_in(entry@)).unwrap();
                            Id::of(v).lemma_value(v);
                        }
                        assert(category_read_from(file, src, entry@, now[cs.len() as int], seen));
                        assert forall|k: int| 0 <= k < now.len() implies match #[trigger] items[now[k].order.place as int].value {
                            Value::Table(t) => category_read_from(
                                file,
                                src,
                                t@,
                                now[k],
                                categories_upto(file, src, items, now[k].order.place as int).1,
                            ),
                            _ => false,
                        } by {
                            if k < cs.len() {
                                assert(now[k] == cs[k]);
                            }
                        }
                        assert forall|p: int| 0 <= p < n implies (placed_at_category(now, p) <==> keeps(
                            #[trigger] items[p],
                            |v: u128| tree_ids(categories_upto(file, src, items, p).0).contains(v),
                        )) by {
                            if p < n - 1 {
                                if placed_at_category(now, p) {
                                    let k = choose|k: int| 0 <= k < now.len() && #[trigger] now[k].order.place == p;
                                    assert(k < cs.len());
                                    assert(cs[k].order.place == p);
                                }
                                if placed_at_category(cs, p) {
                                    let k = choose|k: int| 0 <= k < cs.len() && #[trigger] cs[k].order.place == p;
                                    assert(now[k].order.place == p);
                                }
                            } else {
                                assert(now[cs.len() as int].order.place == p);
                                assert(keeps(items[p], taken));
                            }
                        }
                    },
                    None => {
                        assert(now == cs);
                        assert forall|p: int| 0 <= p < n implies (placed_at_category(now, p) <==> keeps(
                            #[trigger] items[p],
                            |v: u128| tree_ids(categories_upto(file, src, items, p).0).contains(v),
                        )) by {
                            if p == n - 1 {
                                assert(!keeps(items[p], taken));
                                if placed_at_category(now, p) {
                                    let k = choose|k: int| 0 <= k < now.len() && #[trigger] now[k].order.place == p;
                                }
                            }
                        }
                    },
                }
            },
            _ => {
                assert(now == cs);
                assert forall|p: int| 0 <= p < n implies (placed_at_category(now, p) <==> keeps(
                    #[trigger] items[p],
                    |v: u128| tree_ids(categories_upto(file, src, items, p).0).contains(v),
                )) by {
                    if p == n - 1 {
                        if placed_at_category(now, p) {
                            let k = choose|k: int| 0 <= k < now.len() && #[trigger] now[k].order.place == p;
                        }
                    }
                }
            },
        }
    }
}

} // verus!
