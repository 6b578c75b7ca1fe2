//! The Records screen: every session as a table, newest first, with views of the archive, the
//! trash and the sessions whose focus is gone, a filter over focus, category and note, and the
//! spans of a session laid out on request.
//!
//! Rows are positions in the list a view draws from. The filter is matched without regard to
//! case against the category's name, the focus's name and the note; a session whose focus is in
//! no category is matched against the words the screen shows for an unknown focus.

use vstd::prelude::*;

use crate::id::Id;
use crate::session::Session;
use crate::span::{ClockSource, Span, SpanKind};
use crate::store::paths::{trim, trimmed};
use crate::text::{chars_of, string_of};
use crate::today::Row;
use crate::tree::{Category, CategoryView, Focus, FocusView, Tree, category_views, focus_views};

verus! {

/// Below this many columns the note column is left out.
pub const NOTE_BELOW: u16 = 88;

/// Below this many columns the source column is left out too.
pub const SOURCE_BELOW: u16 = 64;

/// Below this many columns the end column goes as well and the focus stands without its
/// category.
pub const END_BELOW: u16 = 48;

/// What `str::to_lowercase` makes of `text`: every character in its lower case form, as Unicode
/// defines it.
pub uninterp spec fn lowercase(text: Seq<char>) -> Seq<char>;

/// `str::to_lowercase`: `text` with every character in its lower case form, as Unicode defines
/// it; the result depends on the text alone.
#[verifier::external_body]
fn lower(text: &str) -> (low: String)
    ensures
        low@ == lowercase(text@),
{
    text.to_lowercase()
}

/// Whether `needle` stands in `hay` from position `i` on.
pub open spec fn stands_at(hay: Seq<char>, needle: Seq<char>, i: int) -> bool {
    0 <= i && i + needle.len() <= hay.len() && hay.subrange(i, i + needle.len()) == needle
}

/// Whether `needle` stands somewhere in `hay`; the empty needle stands everywhere.
pub open spec fn contains_text(hay: Seq<char>, needle: Seq<char>) -> bool {
    exists|i: int| #[trigger] stands_at(hay, needle, i)
}

/// Whether `needle` stands in `hay` from position `i` on.
fn stands_at_exec(hay: &[char], needle: &[char], i: usize) -> (found: bool)
    requires
        i + needle@.len() <= hay@.len(),
    ensures
        found == stands_at(hay@, needle@, i as int),
{
    let n = hay.len();
    let mut j: usize = 0;
    while j < needle.len()
        invariant
            n == hay@.len(),
            i + needle@.len() <= hay@.len(),
            j <= needle@.len(),
            forall|k: int| 0 <= k < j ==> hay@[i + k] == needle@[k],
        decreases needle@.len() - j,
    {
        if hay[i + j] != needle[j] {
            assert(hay@.subrange(i as int, i + needle@.len())[j as int] == hay@[i + j]);
            return false;
        }
        j = j + 1;
    }
    assert(hay@.subrange(i as int, i + needle@.len()) =~= needle@);
    true
}

/// Whether `needle` stands in `hay`.
pub fn contains(hay: &[char], needle: &[char]) -> (found: bool)
    ensures
        found == contains_text(hay@, needle@),
{
    if needle.len() > hay.len() {
        assert forall|i: int| !stands_at(hay@, needle@, i) by {}
        return false;
    }
    let last = hay.len() - needle.len();
    let mut i: usize = 0;
    loop
        invariant_except_break
            last == hay@.len() - needle@.len(),
            i <= last,
            forall|k: int| 0 <= k < i ==> !stands_at(hay@, needle@, k),
        ensures
            forall|k: int| 0 <= k <= last ==> !stands_at(hay@, needle@, k),
        decreases last - i,
    {
        if stands_at_exec(hay, needle, i) {
            return true;
        }
        if i == last {
            break;
        }
        i = i + 1;
    }
    assert forall|k: int| !stands_at(hay@, needle@, k) by {
        if 0 <= k && k + needle@.len() <= hay@.len() {
            assert(k <= last);
        }
    }
    false
}

/// The name of the first focus from `j` on with the identifier `id`.
pub open spec fn first_focus_name(focuses: Seq<Focus>, id: Id, j: int) -> Option<Seq<char>>
    decreases focuses.len() - j,
{
    if j < 0 || j >= focuses.len() {
        None
    } else if focuses[j].id == id {
        Some(focuses[j].name@)
    } else {
        first_focus_name(focuses, id, j + 1)
    }
}

/// The names of the category and the focus `id`, looking from category `c` on: the first
/// category that holds the focus, or nothing and `unknown` when none does.
pub open spec fn names_from(categories: Seq<Category>, id: Id, unknown: Seq<char>, c: int) -> (Seq<char>, Seq<char>)
    decreases categories.len() - c,
{
    if c < 0 || c >= categories.len() {
        (Seq::empty(), unknown)
    } else {
        match first_focus_name(categories[c].focuses@, id, 0) {
            Some(name) => (categories[c].name@, name),
            None => names_from(categories, id, unknown, c + 1),
        }
    }
}

/// Whether some category holds the focus `id`.
pub open spec fn focus_known(categories: Seq<Category>, id: Id) -> bool {
    exists|c: int, f: int|
        0 <= c < categories.len() && 0 <= f < categories[c].focuses@.len() && #[trigger] categories[c].focuses@[f].id
            == id
}

/// Whether `session` is matched by the filter `needle`, already in lower case: an empty filter
/// matches every session; another one matches when it stands in the category's name, the
/// focus's name or the note, each taken in lower case.
pub open spec fn session_matches(session: Session, categories: Seq<Category>, needle: Seq<char>, unknown: Seq<char>) -> bool {
    let (category, focus) = names_from(categories, session.focus, unknown, 0);
    needle.len() == 0 || contains_text(lowercase(category), needle) || contains_text(lowercase(focus), needle)
        || contains_text(lowercase(session.note@), needle)
}

/// Which part of the records is shown.
#[derive(Debug, Clone, Copy, PartialEq, Eq, Structural)]
pub enum ViewKind {
    /// Every current session.
    All,
    /// Archived categories and focuses.
    Archive,
    /// Removed sessions.
    Trash,
    /// What went wrong reading and resolving the files: the sessions whose focus is gone.
    Problems,
}

/// The view at `index` of the chooser; out of range is the first.
pub open spec fn view_at(index: int) -> ViewKind {
    if index == 1 {
        ViewKind::Archive
    } else if index == 2 {
        ViewKind::Trash
    } else if index == 3 {
        ViewKind::Problems
    } else {
        ViewKind::All
    }
}

impl ViewKind {
    /// The view at `index` of the chooser; out of range is the first.
    pub fn from_index(index: usize) -> (view: Self)
        ensures
            view == view_at(index as int),
    {
        match index {
            1 => ViewKind::Archive,
            2 => ViewKind::Trash,
            3 => ViewKind::Problems,
            _ => ViewKind::All,
        }
    }

    /// Where this view sits in the chooser.
    pub fn index(self) -> (index: usize)
        ensures
            view_at(index as int) == self,
            index < 4,
    {
        match self {
            ViewKind::All => 0,
            ViewKind::Archive => 1,
            ViewKind::Trash => 2,
            ViewKind::Problems => 3,
        }
    }
}

/// The list a view draws its session rows from.
pub open spec fn source_of(view: ViewKind, sessions: Seq<Session>, voided: Seq<Session>) -> Seq<Session> {
    match view {
        ViewKind::All | ViewKind::Problems => sessions,
        ViewKind::Trash => voided,
        ViewKind::Archive => Seq::empty(),
    }
}

/// Whether the session is a row of `view` under the filter: in the problems view only the
/// sessions whose focus is in no category, and in every view only those the filter matches.
pub open spec fn wanted(view: ViewKind, session: Session, categories: Seq<Category>, needle: Seq<char>, unknown: Seq<char>) -> bool {
    (view != ViewKind::Problems || !focus_known(categories, session.focus)) && session_matches(
        session,
        categories,
        needle,
        unknown,
    )
}

/// Whether the row at position `i` of `source` comes before the one at `j`: the later start
/// first, then the larger identifier, then, for two that tie, the one listed first.
pub open spec fn before(source: Seq<Session>, i: int, j: int) -> bool {
    source[i].started > source[j].started || (source[i].started == source[j].started && (source[i].id.value()
        > source[j].id.value() || (source[i].id.value() == source[j].id.value() && i < j)))
}

/// Whether `rows` lists, newest first, exactly the positions of `source` whose sessions `view`
/// wants under the filter.
pub open spec fn lists(
    rows: Seq<usize>,
    source: Seq<Session>,
    view: ViewKind,
    categories: Seq<Category>,
    needle: Seq<char>,
    unknown: Seq<char>,
) -> bool {
    &&& forall|k: int| 0 <= k < rows.len() ==> (#[trigger] rows[k]) < source.len() && wanted(view, source[rows[k] as int], categories, needle, unknown)
    &&& forall|i: int| 0 <= i < source.len() && #[trigger] wanted(view, source[i], categories, needle, unknown) ==> rows.contains(i as usize)
    &&& forall|a: int, b: int| 0 <= a < b < rows.len() ==> before(source, #[trigger] rows[a] as int, #[trigger] rows[b] as int)
}

/// The filter as it is matched: the query without the white space around it, in lower case.
pub open spec fn needle_of(query: Seq<char>) -> Seq<char> {
    lowercase(trimmed(query))
}

/// The session rows of `view` under the filter `query`, newest first, as positions in the list
/// the view draws from.
pub open spec fn row_list(
    view: ViewKind,
    sessions: Seq<Session>,
    voided: Seq<Session>,
    categories: Seq<Category>,
    query: Seq<char>,
    unknown: Seq<char>,
) -> Seq<usize> {
    choose|rows: Seq<usize>| lists(rows, source_of(view, sessions, voided), view, categories, needle_of(query), unknown)
}

/// Two lists of positions, each strictly in the order of [`before`], that hold the same
/// positions are the same list.
proof fn lemma_one_order(a: Seq<usize>, b: Seq<usize>, source: Seq<Session>)
    requires
        forall|p: int, q: int| 0 <= p < q < a.len() ==> before(source, #[trigger] a[p] as int, #[trigger] a[q] as int),
        forall|p: int, q: int| 0 <= p < q < b.len() ==> before(source, #[trigger] b[p] as int, #[trigger] b[q] as int),
        forall|x: usize| a.contains(x) <==> b.contains(x),
    ensures
        a == b,
    decreases a.len(),
{
    if a.len() == 0 {
        if b.len() > 0 {
            assert(b.contains(b[0]));
        }
        assert(a =~= b);
    } else {
        assert(a.contains(a[0]));
        assert(b.len() > 0);
        let x = a[0];
        let y = b[0];
        assert(b.contains(y));
        if x != y {
            let k = choose|k: int| 0 <= k < a.len() && a[k] == y;
            let m = choose|m: int| 0 <= m < b.len() && b[m] == x;
            assert(before(source, a[0] as int, a[k] as int));
            assert(before(source, b[0] as int, b[m] as int));
        }
        let ta = a.drop_first();
        let tb = b.drop_first();
        assert forall|z: usize| ta.contains(z) <==> tb.contains(z) by {
            if ta.contains(z) {
                let k = choose|k: int| 0 <= k < ta.len() && ta[k] == z;
                assert(a[k + 1] == z);
                assert(before(source, a[0] as int, a[k + 1] as int));
                assert(b.contains(z));
                let m = choose|m: int| 0 <= m < b.len() && b[m] == z;
                assert(m != 0);
                assert(tb[m - 1] == z);
            }
            if tb.contains(z) {
                let m = choose|m: int| 0 <= m < tb.len() && tb[m] == z;
                assert(b[m + 1] == z);
                assert(before(source, b[0] as int, b[m + 1] as int));
                assert(a.contains(z));
                let k = choose|k: int| 0 <= k < a.len() && a[k] == z;
                assert(k != 0);
                assert(ta[k - 1] == z);
            }
        }
        assert forall|p: int, q: int| 0 <= p < q < ta.len() implies before(source, #[trigger] ta[p] as int, #[trigger] ta[q] as int) by {
            assert(ta[p] == a[p + 1] && ta[q] == a[q + 1]);
        }
        assert forall|p: int, q: int| 0 <= p < q < tb.len() implies before(source, #[trigger] tb[p] as int, #[trigger] tb[q] as int) by {
            assert(tb[p] == b[p + 1] && tb[q] == b[q + 1]);
        }
        lemma_one_order(ta, tb, source);
        assert(a =~= seq![x] + ta);
        assert(b =~= seq![y] + tb);
    }
}

/// There is one list of the rows a view wants: two lists that both list them are the same.
proof fn lemma_one_list(
    a: Seq<usize>,
    b: Seq<usize>,
    source: Seq<Session>,
    view: ViewKind,
    categories: Seq<Category>,
    needle: Seq<char>,
    unknown: Seq<char>,
)
    requires
        lists(a, source, view, categories, needle, unknown),
        lists(b, source, view, categories, needle, unknown),
    ensures
        a == b,
{
    assert forall|x: usize| a.contains(x) <==> b.contains(x) by {
        if a.contains(x) {
            let k = choose|k: int| 0 <= k < a.len() && a[k] == x;
            assert(wanted(view, source[a[k] as int], categories, needle, unknown));
        }
        if b.contains(x) {
            let k = choose|k: int| 0 <= k < b.len() && b[k] == x;
            assert(wanted(view, source[b[k] as int], categories, needle, unknown));
        }
    }
    lemma_one_order(a, b, source);
}

/// Whether the name `name` is matched by the filter `needle`, already in lower case.
pub open spec fn name_matches(name: Seq<char>, needle: Seq<char>) -> bool {
    needle.len() == 0 || contains_text(lowercase(name), needle)
}

/// The archived rows among the first `n` focuses, each matching the filter.
pub open spec fn archived_focuses(focuses: Seq<Focus>, needle: Seq<char>, n: int) -> Seq<Row>
    decreases n,
{
    if n <= 0 || n > focuses.len() {
        Seq::empty()
    } else {
        let rest = archived_focuses(focuses, needle, n - 1);
        let focus = focuses[n - 1];
        if focus.archived && name_matches(focus.name@, needle) {
            rest.push(Row::Focus(focus.id))
        } else {
            rest
        }
    }
}

/// The archived rows among the first `n` categories: each archived category that matches the
/// filter, then the archived focuses under it that do.
pub open spec fn archived_upto(categories: Seq<Category>, needle: Seq<char>, n: int) -> Seq<Row>
    decreases n,
{
    if n <= 0 || n > categories.len() {
        Seq::empty()
    } else {
        let category = categories[n - 1];
        let own = if category.archived && name_matches(category.name@, needle) {
            seq![Row::Category(category.id)]
        } else {
            Seq::empty()
        };
        archived_upto(categories, needle, n - 1) + own + archived_focuses(
            category.focuses@,
            needle,
            category.focuses@.len() as int,
        )
    }
}

/// Where the first category from `c` on with the identifier `id` stands.
pub open spec fn category_at(categories: Seq<Category>, id: Id, c: int) -> Option<int>
    decreases categories.len() - c,
{
    if c < 0 || c >= categories.len() {
        None
    } else if categories[c].id == id {
        Some(c)
    } else {
        category_at(categories, id, c + 1)
    }
}

/// Where the first focus from `j` on with the identifier `id` stands.
pub open spec fn focus_index(focuses: Seq<Focus>, id: Id, j: int) -> Option<int>
    decreases focuses.len() - j,
{
    if j < 0 || j >= focuses.len() {
        None
    } else if focuses[j].id == id {
        Some(j)
    } else {
        focus_index(focuses, id, j + 1)
    }
}

/// Where the focus `id` stands, category by category from `c` on: the category and the place
/// in it.
pub open spec fn focus_at(categories: Seq<Category>, id: Id, c: int) -> Option<(int, int)>
    decreases categories.len() - c,
{
    if c < 0 || c >= categories.len() {
        None
    } else {
        match focus_index(categories[c].focuses@, id, 0) {
            Some(f) => Some((c, f)),
            None => focus_at(categories, id, c + 1),
        }
    }
}

/// What the first focus from `j` on with `id` is called, read from where it stands.
proof fn lemma_focus_name_index(focuses: Seq<Focus>, id: Id, j: int)
    requires
        0 <= j,
    ensures
        first_focus_name(focuses, id, j) == match focus_index(focuses, id, j) {
            Some(f) => Some(focuses[f].name@),
            None => None,
        },
        focus_index(focuses, id, j) matches Some(f) ==> j <= f < focuses.len() && focuses[f].id == id,
    decreases focuses.len() - j,
{
    if j < focuses.len() && focuses[j].id != id {
        lemma_focus_name_index(focuses, id, j + 1);
    }
}

/// The names of the category and the focus `id`, or nothing and `unknown` when no category
/// holds it.
fn names(catalog: &Tree, id: Id, unknown: &str) -> (found: (String, String))
    ensures
        found.0@ == names_from(catalog.categories@, id, unknown@, 0).0,
        found.1@ == names_from(catalog.categories@, id, unknown@, 0).1,
{
    let categories = &catalog.categories;
    let mut c: usize = 0;
    while c < categories.len()
        invariant
            c <= categories@.len(),
            categories@ == catalog.categories@,
            names_from(categories@, id, unknown@, 0) == names_from(categories@, id, unknown@, c as int),
        decreases categories@.len() - c,
    {
        let focuses = &categories[c].focuses;
        let mut f: usize = 0;
        while f < focuses.len()
            invariant
                c < categories@.len(),
                categories@ == catalog.categories@,
                names_from(categories@, id, unknown@, 0) == names_from(categories@, id, unknown@, c as int),
                focuses@ == categories@[c as int].focuses@,
                f <= focuses@.len(),
                first_focus_name(focuses@, id, 0) == first_focus_name(focuses@, id, f as int),
            decreases focuses@.len() - f,
        {
            if focuses[f].id == id {
                return (categories[c].name.clone(), focuses[f].name.clone());
            }
            f = f + 1;
        }
        c = c + 1;
    }
    (String::new(), unknown.to_owned())
}

/// Whether some category holds the focus `id`.
fn is_known(catalog: &Tree, id: Id) -> (known: bool)
    ensures
        known == focus_known(catalog.categories@, id),
{
    catalog.focus(id).is_some()
}

/// Whether the filter `needle`, in lower case, matches `session`.
fn matches(session: &Session, catalog: &Tree, needle: &[char], unknown: &str) -> (found: bool)
    ensures
        found == session_matches(*session, catalog.categories@, needle@, unknown@),
{
    if needle.len() == 0 {
        return true;
    }
    let (category, focus) = names(catalog, session.focus, unknown);
    let category = chars_of(lower(category.as_str()).as_str());
    if contains(category.as_slice(), needle) {
        return true;
    }
    let focus = chars_of(lower(focus.as_str()).as_str());
    if contains(focus.as_slice(), needle) {
        return true;
    }
    let note = chars_of(lower(session.note.as_str()).as_str());
    contains(note.as_slice(), needle)
}

/// Whether the filter `needle`, in lower case, matches the name `name`.
fn name_matches_exec(name: &str, needle: &[char]) -> (found: bool)
    ensures
        found == name_matches(name@, needle@),
{
    if needle.len() == 0 {
        return true;
    }
    let low = chars_of(lower(name).as_str());
    contains(low.as_slice(), needle)
}

/// Whether the row at `i` of `source` comes before the one at `j`.
fn comes_before(source: &[Session], i: usize, j: usize) -> (first: bool)
    requires
        i < source@.len(),
        j < source@.len(),
    ensures
        first == before(source@, i as int, j as int),
{
    let a = &source[i];
    let b = &source[j];
    if a.started != b.started {
        return a.started > b.started;
    }
    let x = a.id.bits();
    let y = b.id.bits();
    if x != y {
        return x > y;
    }
    i < j
}

/// Of two different positions one comes before the other, and never both.
proof fn lemma_before_total(source: Seq<Session>, i: int, j: int)
    ensures
        i != j ==> before(source, i, j) || before(source, j, i),
        !(before(source, i, j) && before(source, j, i)),
        !before(source, i, i),
{
}

/// Coming before carries over: when `i` comes before `j` and `j` before `k`, `i` comes before `k`.
proof fn lemma_before_transitive(source: Seq<Session>, i: int, j: int, k: int)
    requires
        before(source, i, j),
        before(source, j, k),
    ensures
        before(source, i, k),
{
}

/// Puts the position `i`, after every position already in `rows`, where it belongs among them.
fn insert_row(rows: &mut Vec<usize>, source: &[Session], i: usize)
    requires
        i < source@.len(),
        forall|k: int| 0 <= k < old(rows)@.len() ==> #[trigger] old(rows)@[k] < i,
        forall|p: int, q: int| 0 <= p < q < old(rows)@.len() ==> before(source@, #[trigger] old(rows)@[p] as int, #[trigger] old(rows)@[q] as int),
    ensures
        forall|k: int| 0 <= k < final(rows)@.len() ==> #[trigger] final(rows)@[k] <= i,
        forall|x: usize| final(rows)@.contains(x) <==> old(rows)@.contains(x) || x == i,
        forall|p: int, q: int| 0 <= p < q < final(rows)@.len() ==> before(source@, #[trigger] final(rows)@[p] as int, #[trigger] final(rows)@[q] as int),
{
    let mut at: usize = 0;
    while at < rows.len() && !comes_before(source, i, rows[at])
        invariant
            at <= rows@.len(),
            rows@ == old(rows)@,
            i < source@.len(),
            forall|k: int| 0 <= k < rows@.len() ==> #[trigger] rows@[k] < i,
            forall|k: int| 0 <= k < at ==> before(source@, #[trigger] rows@[k] as int, i as int),
        decreases rows@.len() - at,
    {
        proof {
            lemma_before_total(source@, i as int, rows@[at as int] as int);
        }
        at = at + 1;
    }
    let ghost old_rows = rows@;
    rows.insert(at, i);
    proof {
        let new_rows = rows@;
        assert(new_rows == old_rows.insert(at as int, i));
        assert forall|p: int, q: int| 0 <= p < q < new_rows.len() implies before(source@, #[trigger] new_rows[p] as int, #[trigger] new_rows[q] as int) by {
            if q < at {
                assert(new_rows[p] == old_rows[p] && new_rows[q] == old_rows[q]);
            } else if q == at {
                assert(new_rows[p] == old_rows[p]);
            } else if p == at {
                assert(new_rows[q] == old_rows[q - 1]);
                assert(at < old_rows.len());
                assert(before(source@, i as int, old_rows[at as int] as int));
                if q - 1 > at {
                    lemma_before_transitive(source@, i as int, old_rows[at as int] as int, old_rows[q - 1] as int);
                }
            } else if p < at {
                assert(new_rows[p] == old_rows[p] && new_rows[q] == old_rows[q - 1]);
            } else {
                assert(new_rows[p] == old_rows[p - 1] && new_rows[q] == old_rows[q - 1]);
            }
        }
        assert forall|x: usize| new_rows.contains(x) <==> old_rows.contains(x) || x == i by {
            if new_rows.contains(x) {
                let k = choose|k: int| 0 <= k < new_rows.len() && new_rows[k] == x;
                if k < at {
                    assert(old_rows[k] == x);
                } else if k > at {
                    assert(old_rows[k - 1] == x);
                }
            }
            if old_rows.contains(x) {
                let k = choose|k: int| 0 <= k < old_rows.len() && old_rows[k] == x;
                if k < at {
                    assert(new_rows[k] == x);
                } else {
                    assert(new_rows[k + 1] == x);
                }
            }
            if x == i {
                assert(new_rows[at as int] == x);
            }
        }
        assert forall|k: int| 0 <= k < new_rows.len() implies #[trigger] new_rows[k] <= i by {
            if k < at {
                assert(new_rows[k] == old_rows[k]);
            } else if k > at {
                assert(new_rows[k] == old_rows[k - 1]);
            }
        }
    }
}

/// What an event on the screen asks the application for.
#[derive(Debug, Clone, Copy, PartialEq, Eq, Structural)]
pub enum Request {
    /// Move this session to the trash.
    Void(Id),
    /// Bring this session back from the trash.
    Restore(Id),
    /// The catalogue changed and wants writing.
    Changed,
    /// Write the export files.
    Export,
    /// Open the form for a session typed in by hand.
    Add,
    /// Open the form over this session to correct it.
    Correct(Id),
    /// Open the form over this session, whose focus is gone, to attach it to one.
    Attach(Id),
}

/// Something that happened on the screen.
#[derive(Debug, Clone, PartialEq, Eq)]
pub enum Msg {
    /// A view was chosen.
    View(usize),
    /// A row was selected.
    Select(usize),
    /// A row was activated with Enter, Space or a click.
    Activate(usize),
    /// The search field was opened.
    Search,
    /// The search field changed.
    Typed(String),
    /// The search field was closed; the filter stays.
    SearchClose,
    /// The selected session is to be removed.
    Delete,
    /// A session is to be typed in by hand.
    Add,
    /// The selected session is to be corrected, or attached to a focus in the problems view.
    Correct,
    /// The spans of the selected session are to be laid out.
    Spans,
    /// The spans dialog was closed.
    CloseDump,
    /// A block of the session's timeline in the spans dialog was selected.
    DumpBlock(usize),
    /// Export was asked for.
    Export,
}

/// Something the screen shows or does besides its own state.
#[derive(Debug, Clone, PartialEq, Eq)]
pub enum Effect {
    /// The keyboard goes to the table.
    FocusTable,
    /// The keyboard goes to the search field.
    FocusSearch,
    /// The keyboard goes to the timeline of the spans dialog.
    FocusDumpStrip,
    /// A passing message that the category or focus of this name is back from the archive.
    Restored(String),
}

/// An effect as values.
pub enum EffectView {
    FocusTable,
    FocusSearch,
    FocusDumpStrip,
    Restored(Seq<char>),
}

/// The values of an effect.
pub open spec fn effect_view(effect: Option<Effect>) -> Option<EffectView> {
    match effect {
        Some(Effect::FocusTable) => Some(EffectView::FocusTable),
        Some(Effect::FocusSearch) => Some(EffectView::FocusSearch),
        Some(Effect::FocusDumpStrip) => Some(EffectView::FocusDumpStrip),
        Some(Effect::Restored(name)) => Some(EffectView::Restored(name@)),
        None => None,
    }
}

/// The state of the screen.
#[derive(Debug, Clone)]
pub struct Records {
    view: ViewKind,
    /// The selected row of the current view, by position in the filtered list.
    selected: Option<usize>,
    /// The text rows are filtered by; empty means every row.
    query: String,
    /// Whether the search field is open.
    searching: bool,
    /// The session whose spans are laid out in the dialog.
    dump: Option<Id>,
    /// The selected block of the session's timeline in the dialog.
    dump_block: Option<usize>,
}

/// The screen as values.
pub struct RecordsView {
    pub view: ViewKind,
    pub selected: Option<usize>,
    pub query: Seq<char>,
    pub searching: bool,
    pub dump: Option<Id>,
    pub dump_block: Option<usize>,
}

impl View for Records {
    type V = RecordsView;

    closed spec fn view(&self) -> RecordsView {
        RecordsView {
            view: self.view,
            selected: self.selected,
            query: self.query@,
            searching: self.searching,
            dump: self.dump,
            dump_block: self.dump_block,
        }
    }
}

/// The session selected on the current view, if a row is selected and there is a row there.
pub open spec fn selected_session(
    v: RecordsView,
    sessions: Seq<Session>,
    voided: Seq<Session>,
    categories: Seq<Category>,
    unknown: Seq<char>,
) -> Option<Session> {
    let rows = row_list(v.view, sessions, voided, categories, v.query, unknown);
    match v.selected {
        Some(i) => if i < rows.len() {
            Some(source_of(v.view, sessions, voided)[rows[i as int] as int])
        } else {
            None
        },
        None => None,
    }
}

/// The archived row selected, if a row is selected and there is a row there.
pub open spec fn selected_archived(v: RecordsView, categories: Seq<Category>) -> Option<Row> {
    let rows = archived_upto(categories, needle_of(v.query), categories.len() as int);
    match v.selected {
        Some(i) => if i < rows.len() {
            Some(rows[i as int])
        } else {
            None
        },
        None => None,
    }
}

/// The catalogue, as values, with the archived row `row` brought back, and its name; nothing
/// changes when the row is no category or focus of the catalogue.
pub open spec fn restored(categories: Seq<Category>, row: Row) -> (Seq<CategoryView>, Option<Seq<char>>) {
    let views = category_views(categories);
    match row {
        Row::Category(id) => match category_at(categories, id, 0) {
            Some(c) => (views.update(c, CategoryView { archived: false, ..views[c] }), Some(categories[c].name@)),
            None => (views, None),
        },
        Row::Focus(id) => match focus_at(categories, id, 0) {
            Some((c, f)) => {
                let focuses = views[c].focuses;
                (
                    views.update(c, CategoryView { focuses: focuses.update(f, FocusView { archived: false, ..focuses[f] }), ..views[c] }),
                    Some(focuses[f].name),
                )
            },
            None => (views, None),
        },
        _ => (views, None),
    }
}

/// The identifier of the session selected on the current view, if there is one.
pub open spec fn chosen_id(
    v: RecordsView,
    sessions: Seq<Session>,
    voided: Seq<Session>,
    categories: Seq<Category>,
    unknown: Seq<char>,
) -> Option<Id> {
    match selected_session(v, sessions, voided, categories, unknown) {
        Some(session) => Some(session.id),
        None => None,
    }
}

/// What activating the selected row does: the form over the session in the list, a return from
/// the trash, a return from the archive, the form to attach a lost session in the problems view.
pub open spec fn activated(
    v: RecordsView,
    sessions: Seq<Session>,
    voided: Seq<Session>,
    categories: Seq<Category>,
    unknown: Seq<char>,
) -> (RecordsView, Seq<CategoryView>, Option<EffectView>, Option<Request>) {
    let same = category_views(categories);
    let chosen = chosen_id(v, sessions, voided, categories, unknown);
    match v.view {
        ViewKind::All => (v, same, None, match chosen { Some(id) => Some(Request::Correct(id)), None => None }),
        ViewKind::Problems => (v, same, None, match chosen { Some(id) => Some(Request::Attach(id)), None => None }),
        ViewKind::Trash => (v, same, None, match chosen { Some(id) => Some(Request::Restore(id)), None => None }),
        ViewKind::Archive => match selected_archived(v, categories) {
            Some(row) => match restored(categories, row).1 {
                Some(name) => (v, restored(categories, row).0, Some(EffectView::Restored(name)), Some(Request::Changed)),
                None => (v, same, None, None),
            },
            None => (v, same, None, None),
        },
    }
}

/// What `msg` does to the screen and the catalogue, the effect it has and what it asks of the
/// application; `unknown` is what the screen calls a focus that is in no category.
pub open spec fn records_updated(
    v: RecordsView,
    sessions: Seq<Session>,
    voided: Seq<Session>,
    categories: Seq<Category>,
    msg: Msg,
    unknown: Seq<char>,
) -> (RecordsView, Seq<CategoryView>, Option<EffectView>, Option<Request>) {
    let same = category_views(categories);
    let chosen = chosen_id(v, sessions, voided, categories, unknown);
    match msg {
        Msg::View(index) => (
            if view_at(index as int) != v.view {
                RecordsView { view: view_at(index as int), selected: None, dump: None, dump_block: None, ..v }
            } else {
                v
            },
            same,
            Some(EffectView::FocusTable),
            None,
        ),
        Msg::Select(index) => (RecordsView { selected: Some(index), ..v }, same, None, None),
        Msg::Activate(index) => activated(RecordsView { selected: Some(index), ..v }, sessions, voided, categories, unknown),
        Msg::Search => (RecordsView { searching: true, ..v }, same, Some(EffectView::FocusSearch), None),
        Msg::Typed(text) => (RecordsView { query: text@, selected: None, ..v }, same, None, None),
        Msg::SearchClose => if v.searching {
            (RecordsView { searching: false, ..v }, same, Some(EffectView::FocusTable), None)
        } else {
            (v, same, None, None)
        },
        Msg::Delete => (v, same, None, if v.view == ViewKind::All {
            match chosen { Some(id) => Some(Request::Void(id)), None => None }
        } else {
            None
        }),
        Msg::Add => (v, same, None, Some(Request::Add)),
        Msg::Correct => (v, same, None, match chosen {
            Some(id) => if v.view == ViewKind::All {
                Some(Request::Correct(id))
            } else if v.view == ViewKind::Problems {
                Some(Request::Attach(id))
            } else {
                None
            },
            None => None,
        }),
        Msg::Spans => match chosen {
            Some(id) => if v.view == ViewKind::All {
                (RecordsView { dump: Some(id), dump_block: None, ..v }, same, Some(EffectView::FocusDumpStrip), None)
            } else {
                (v, same, None, None)
            },
            None => (v, same, None, None),
        },
        Msg::CloseDump => (RecordsView { dump: None, dump_block: None, ..v }, same, None, None),
        Msg::DumpBlock(index) => (RecordsView { dump_block: Some(index), ..v }, same, None, None),
        Msg::Export => (v, same, None, Some(Request::Export)),
    }
}

/// `qframe::i18n::translate_active` for the key `records.unknown-focus`: what the active
/// language calls a focus that is in no category. It depends on the language the program runs
/// in, so nothing is promised of it.
#[verifier::external_body]
fn unknown_focus_word() -> String {
    qframe::i18n::translate_active("records.unknown-focus", &[])
}

/// The filter `query` as it is matched: without the white space around it, in lower case.
fn needle(query: &str) -> (needle: Vec<char>)
    ensures
        needle@ == needle_of(query@),
{
    let chars = chars_of(query);
    let trimmed_query = trim(chars.as_slice());
    let low = lower(string_of(&trimmed_query).as_str());
    chars_of(low.as_str())
}

/// Brings back the first category with the identifier `id`, and gives its name; nothing changes
/// when there is none.
fn restore_category(catalog: &mut Tree, id: Id) -> (name: Option<String>)
    ensures
        category_views(final(catalog).categories@) == restored(old(catalog).categories@, Row::Category(id)).0,
        crate::screen::text_of(name) == restored(old(catalog).categories@, Row::Category(id)).1,
{
    let mut c: usize = 0;
    while c < catalog.categories.len()
        invariant
            c <= catalog.categories@.len(),
            catalog.categories@ == old(catalog).categories@,
            category_at(catalog.categories@, id, 0) == category_at(catalog.categories@, id, c as int),
        decreases catalog.categories@.len() - c,
    {
        if catalog.categories[c].id == id {
            let ghost before = catalog.categories@;
            let mut category = catalog.categories.remove(c);
            category.archived = false;
            let name = category.name.clone();
            catalog.categories.insert(c, category);
            proof {
                assert(catalog.categories@ =~= before.update(c as int, category));
                assert(category_views(catalog.categories@) =~= category_views(before).update(
                    c as int,
                    CategoryView { archived: false, ..category_views(before)[c as int] },
                ));
            }
            return Some(name);
        }
        c = c + 1;
    }
    None
}

/// Brings back the first focus, category by category, with the identifier `id`, and gives its
/// name; nothing changes when there is none.
fn restore_focus(catalog: &mut Tree, id: Id) -> (name: Option<String>)
    ensures
        category_views(final(catalog).categories@) == restored(old(catalog).categories@, Row::Focus(id)).0,
        crate::screen::text_of(name) == restored(old(catalog).categories@, Row::Focus(id)).1,
{
    let mut c: usize = 0;
    while c < catalog.categories.len()
        invariant
            c <= catalog.categories@.len(),
            catalog.categories@ == old(catalog).categories@,
            focus_at(catalog.categories@, id, 0) == focus_at(catalog.categories@, id, c as int),
        decreases catalog.categories@.len() - c,
    {
        let mut f: usize = 0;
        while f < catalog.categories[c].focuses.len()
            invariant
                c < catalog.categories@.len(),
                catalog.categories@ == old(catalog).categories@,
                focus_at(catalog.categories@, id, 0) == focus_at(catalog.categories@, id, c as int),
                f <= catalog.categories@[c as int].focuses@.len(),
                focus_index(catalog.categories@[c as int].focuses@, id, 0) == focus_index(
                    catalog.categories@[c as int].focuses@,
                    id,
                    f as int,
                ),
            decreases catalog.categories@[c as int].focuses@.len() - f,
        {
            if catalog.categories[c].focuses[f].id == id {
                let ghost before = catalog.categories@;
                let mut category = catalog.categories.remove(c);
                let ghost focuses_before = category.focuses@;
                let mut focus = category.focuses.remove(f);
                focus.archived = false;
                let name = focus.name.clone();
                category.focuses.insert(f, focus);
                catalog.categories.insert(c, category);
                proof {
                    assert(category.focuses@ =~= focuses_before.update(f as int, focus));
                    assert(focus_views(category.focuses@) =~= focus_views(focuses_before).update(
                        f as int,
                        FocusView { archived: false, ..focus_views(focuses_before)[f as int] },
                    ));
                    assert(catalog.categories@ =~= before.update(c as int, category));
                    let views = category_views(before);
                    assert(category_views(catalog.categories@) =~= views.update(
                        c as int,
                        CategoryView {
                            focuses: views[c as int].focuses.update(f as int, FocusView { archived: false, ..views[c as int].focuses[f as int] }),
                            ..views[c as int]
                        },
                    ));
                }
                return Some(name);
            }
            f = f + 1;
        }
        c = c + 1;
    }
    None
}

impl Records {
    /// The screen on the list of every session, nothing selected.
    pub fn new() -> (screen: Self)
        ensures
            screen@ == (RecordsView {
                view: ViewKind::All,
                selected: None,
                query: Seq::empty(),
                searching: false,
                dump: None,
                dump_block: None,
            }),
    {
        let screen = Records {
            view: ViewKind::All,
            selected: None,
            query: String::new(),
            searching: false,
            dump: None,
            dump_block: None,
        };
        assert(screen@.query =~= Seq::<char>::empty());
        screen
    }

    /// The view shown.
    pub fn view_kind(&self) -> (view: ViewKind)
        ensures
            view == self@.view,
    {
        self.view
    }

    /// The selected row, by position in the filtered list.
    pub fn selected(&self) -> (selected: Option<usize>)
        ensures
            selected == self@.selected,
    {
        self.selected
    }

    /// The text rows are filtered by.
    pub fn query(&self) -> (query: &str)
        ensures
            query@ == self@.query,
    {
        self.query.as_str()
    }

    /// Whether the search field is open.
    pub fn is_searching(&self) -> (searching: bool)
        ensures
            searching == self@.searching,
    {
        self.searching
    }

    /// Whether the spans dialog is open.
    pub fn is_dumping(&self) -> (dumping: bool)
        ensures
            dumping == self@.dump is Some,
    {
        self.dump.is_some()
    }

    /// The session whose spans are laid out in the dialog.
    pub fn dump(&self) -> (dump: Option<Id>)
        ensures
            dump == self@.dump,
    {
        self.dump
    }

    /// The selected block of the session's timeline in the dialog.
    pub fn dump_block(&self) -> (block: Option<usize>)
        ensures
            block == self@.dump_block,
    {
        self.dump_block
    }

    /// The session rows of the current view that match the filter, newest first, as positions
    /// in the list the view draws from: `sessions` for the list and the problems view, `voided`
    /// for the trash, none for the archive. The problems view holds the sessions whose focus is
    /// in no category; such a session is matched against `unknown`, what the screen calls it.
    pub fn rows_given(&self, sessions: &[Session], voided: &[Session], catalog: &Tree, unknown: &str) -> (rows: Vec<usize>)
        ensures
            rows@ == row_list(self@.view, sessions@, voided@, catalog.categories@, self@.query, unknown@),
            lists(rows@, source_of(self@.view, sessions@, voided@), self@.view, catalog.categories@, needle_of(self@.query), unknown@),
    {
        let empty: &[Session] = &[];
        let source: &[Session] = match self.view {
            ViewKind::All | ViewKind::Problems => sessions,
            ViewKind::Trash => voided,
            ViewKind::Archive => empty,
        };
        assert(source@ =~= source_of(self@.view, sessions@, voided@));
        let needle = needle(self.query.as_str());
        let ghost categories = catalog.categories@;
        let mut rows: Vec<usize> = Vec::new();
        let mut i: usize = 0;
        while i < source.len()
            invariant
                i <= source@.len(),
                needle@ == needle_of(self@.query),
                categories == catalog.categories@,
                forall|k: int| 0 <= k < rows@.len() ==> (#[trigger] rows@[k]) < i && wanted(self@.view, source@[rows@[k] as int], categories, needle@, unknown@),
                forall|j: int| 0 <= j < i && #[trigger] wanted(self@.view, source@[j], categories, needle@, unknown@) ==> rows@.contains(j as usize),
                forall|a: int, b: int| 0 <= a < b < rows@.len() ==> before(source@, #[trigger] rows@[a] as int, #[trigger] rows@[b] as int),
            decreases source@.len() - i,
        {
            let session = &source[i];
            let in_view = match self.view {
                ViewKind::Problems => !is_known(catalog, session.focus),
                _ => true,
            };
            if in_view && matches(session, catalog, needle.as_slice(), unknown) {
                let ghost old_rows = rows@;
                insert_row(&mut rows, source, i);
                proof {
                    assert forall|k: int| 0 <= k < rows@.len() implies (#[trigger] rows@[k]) < i + 1 && wanted(self@.view, source@[rows@[k] as int], categories, needle@, unknown@) by {
                        assert(rows@.contains(rows@[k]));
                        if rows@[k] != i {
                            assert(old_rows.contains(rows@[k]));
                            let m = choose|m: int| 0 <= m < old_rows.len() && old_rows[m] == rows@[k];
                        }
                    }
                    assert forall|j: int| 0 <= j < i + 1 && #[trigger] wanted(self@.view, source@[j], categories, needle@, unknown@) implies rows@.contains(j as usize) by {
                        if j < i {
                            assert(old_rows.contains(j as usize));
                        }
                    }
                }
            } else {
                assert(!wanted(self@.view, source@[i as int], categories, needle@, unknown@));
            }
            i = i + 1;
        }
        proof {
            let list = rows@;
            assert(lists(list, source_of(self@.view, sessions@, voided@), self@.view, categories, needle_of(self@.query), unknown@));
            let chosen = row_list(self@.view, sessions@, voided@, categories, self@.query, unknown@);
            assert(lists(chosen, source_of(self@.view, sessions@, voided@), self@.view, categories, needle_of(self@.query), unknown@));
            lemma_one_list(list, chosen, source_of(self@.view, sessions@, voided@), self@.view, categories, needle_of(self@.query), unknown@);
        }
        rows
    }

    /// The session rows of the current view that match the filter, newest first, as
    /// [`Records::rows_given`] gives them, a session in no category matched against what the
    /// active language calls it.
    pub fn rows(&self, sessions: &[Session], voided: &[Session], catalog: &Tree) -> (rows: Vec<usize>)
        ensures
            exists|unknown: Seq<char>| rows@ == row_list(self@.view, sessions@, voided@, catalog.categories@, self@.query, unknown),
    {
        let unknown = unknown_focus_word();
        self.rows_given(sessions, voided, catalog, unknown.as_str())
    }

    /// The archived rows: each archived category that matches the filter, then the archived
    /// focuses under it that do, category by category.
    pub fn archived(&self, catalog: &Tree) -> (rows: Vec<Row>)
        ensures
            rows@ == archived_upto(catalog.categories@, needle_of(self@.query), catalog.categories@.len() as int),
    {
        let needle = needle(self.query.as_str());
        let categories = &catalog.categories;
        let mut rows: Vec<Row> = Vec::new();
        let mut c: usize = 0;
        while c < categories.len()
            invariant
                c <= categories@.len(),
                needle@ == needle_of(self@.query),
                categories@ == catalog.categories@,
                rows@ == archived_upto(categories@, needle@, c as int),
            decreases categories@.len() - c,
        {
            let category = &categories[c];
            let ghost before = rows@;
            if category.archived && name_matches_exec(category.name.as_str(), needle.as_slice()) {
                rows.push(Row::Category(category.id));
            }
            let ghost with_own = rows@;
            let mut f: usize = 0;
            while f < category.focuses.len()
                invariant
                    c < categories@.len(),
                    *category == categories@[c as int],
                    f <= category.focuses@.len(),
                    rows@ == with_own + archived_focuses(category.focuses@, needle@, f as int),
                decreases category.focuses@.len() - f,
            {
                let focus = &category.focuses[f];
                if focus.archived && name_matches_exec(focus.name.as_str(), needle.as_slice()) {
                    rows.push(Row::Focus(focus.id));
                }
                f = f + 1;
            }
            assert(rows@ =~= archived_upto(categories@, needle@, c + 1));
            c = c + 1;
        }
        rows
    }

    /// The identifier of the session selected on the current view, if there is one.
    fn chosen(&self, sessions: &[Session], voided: &[Session], catalog: &Tree, unknown: &str) -> (id: Option<Id>)
        ensures
            id == chosen_id(self@, sessions@, voided@, catalog.categories@, unknown@),
    {
        let rows = self.rows_given(sessions, voided, catalog, unknown);
        let index = match self.selected {
            Some(index) => index,
            None => return None,
        };
        if index >= rows.len() {
            return None;
        }
        let at = rows[index];
        assert(rows@[index as int] < source_of(self@.view, sessions@, voided@).len());
        match self.view {
            ViewKind::All | ViewKind::Problems => Some(sessions[at].id),
            ViewKind::Trash => Some(voided[at].id),
            ViewKind::Archive => None,
        }
    }
}

/// Applies `msg` to the screen and the catalogue, and says what the screen shows and what the
/// application should do; `unknown` is what the screen calls a focus that is in no category.
pub fn update_given(
    screen: &mut Records,
    sessions: &[Session],
    voided: &[Session],
    catalog: &mut Tree,
    msg: Msg,
    unknown: &str,
) -> (answer: (Option<Effect>, Option<Request>))
    ensures
        final(screen)@ == records_updated(old(screen)@, sessions@, voided@, old(catalog).categories@, msg, unknown@).0,
        category_views(final(catalog).categories@) == records_updated(
            old(screen)@,
            sessions@,
            voided@,
            old(catalog).categories@,
            msg,
            unknown@,
        ).1,
        effect_view(answer.0) == records_updated(old(screen)@, sessions@, voided@, old(catalog).categories@, msg, unknown@).2,
        answer.1 == records_updated(old(screen)@, sessions@, voided@, old(catalog).categories@, msg, unknown@).3,
{
    match msg {
        Msg::View(index) => {
            let view = ViewKind::from_index(index);
            if view != screen.view {
                screen.view = view;
                screen.selected = None;
                screen.dump = None;
                screen.dump_block = None;
            }
            (Some(Effect::FocusTable), None)
        },
        Msg::Select(index) => {
            screen.selected = Some(index);
            (None, None)
        },
        Msg::Activate(index) => {
            screen.selected = Some(index);
            activate(screen, sessions, voided, catalog, unknown)
        },
        Msg::Search => {
            screen.searching = true;
            (Some(Effect::FocusSearch), None)
        },
        Msg::Typed(text) => {
            screen.query = text;
            screen.selected = None;
            (None, None)
        },
        Msg::SearchClose => {
            if screen.searching {
                screen.searching = false;
                (Some(Effect::FocusTable), None)
            } else {
                (None, None)
            }
        },
        Msg::Delete => {
            let chosen = screen.chosen(sessions, voided, catalog, unknown);
            match chosen {
                Some(id) => if screen.view == ViewKind::All {
                    (None, Some(Request::Void(id)))
                } else {
                    (None, None)
                },
                None => (None, None),
            }
        },
        Msg::Add => (None, Some(Request::Add)),
        Msg::Correct => {
            let chosen = screen.chosen(sessions, voided, catalog, unknown);
            match chosen {
                Some(id) => if screen.view == ViewKind::All {
                    (None, Some(Request::Correct(id)))
                } else if screen.view == ViewKind::Problems {
                    (None, Some(Request::Attach(id)))
                } else {
                    (None, None)
                },
                None => (None, None),
            }
        },
        Msg::Spans => {
            let chosen = screen.chosen(sessions, voided, catalog, unknown);
            match chosen {
                Some(id) => if screen.view == ViewKind::All {
                    screen.dump = Some(id);
                    screen.dump_block = None;
                    (Some(Effect::FocusDumpStrip), None)
                } else {
                    (None, None)
                },
                None => (None, None),
            }
        },
        Msg::CloseDump => {
            screen.dump = None;
            screen.dump_block = None;
            (None, None)
        },
        Msg::DumpBlock(index) => {
            screen.dump_block = Some(index);
            (None, None)
        },
        Msg::Export => (None, Some(Request::Export)),
    }
}

/// What activating the selected row does.
fn activate(screen: &mut Records, sessions: &[Session], voided: &[Session], catalog: &mut Tree, unknown: &str) -> (answer: (
    Option<Effect>,
    Option<Request>,
))
    ensures
        final(screen)@ == activated(old(screen)@, sessions@, voided@, old(catalog).categories@, unknown@).0,
        category_views(final(catalog).categories@) == activated(old(screen)@, sessions@, voided@, old(catalog).categories@, unknown@).1,
        effect_view(answer.0) == activated(old(screen)@, sessions@, voided@, old(catalog).categories@, unknown@).2,
        answer.1 == activated(old(screen)@, sessions@, voided@, old(catalog).categories@, unknown@).3,
{
    match screen.view {
        ViewKind::All => match screen.chosen(sessions, voided, catalog, unknown) {
            Some(id) => (None, Some(Request::Correct(id))),
            None => (None, None),
        },
        ViewKind::Problems => match screen.chosen(sessions, voided, catalog, unknown) {
            Some(id) => (None, Some(Request::Attach(id))),
            None => (None, None),
        },
        ViewKind::Trash => match screen.chosen(sessions, voided, catalog, unknown) {
            Some(id) => (None, Some(Request::Restore(id))),
            None => (None, None),
        },
        ViewKind::Archive => {
            let rows = screen.archived(catalog);
            let index = match screen.selected {
                Some(index) => index,
                None => return (None, None),
            };
            if index >= rows.len() {
                return (None, None);
            }
            let name = match &rows[index] {
                Row::Category(id) => restore_category(catalog, *id),
                Row::Focus(id) => restore_focus(catalog, *id),
                _ => None,
            };
            match name {
                Some(name) => (Some(Effect::Restored(name)), Some(Request::Changed)),
                None => (None, None),
            }
        },
    }
}

/// Applies `msg` to the screen and the catalogue, as [`update_given`] does, a session in no
/// category matched against what the active language calls it.
pub fn update(screen: &mut Records, sessions: &[Session], voided: &[Session], catalog: &mut Tree, msg: Msg) -> (answer: (
    Option<Effect>,
    Option<Request>,
))
    ensures
        exists|unknown: Seq<char>|
            {
                let next = #[trigger] records_updated(old(screen)@, sessions@, voided@, old(catalog).categories@, msg, unknown);
                &&& final(screen)@ == next.0
                &&& category_views(final(catalog).categories@) == next.1
                &&& effect_view(answer.0) == next.2
                &&& answer.1 == next.3
            },
{
    let unknown = unknown_focus_word();
    update_given(screen, sessions, voided, catalog, msg, unknown.as_str())
}

/// Which columns of the session table fit.
#[derive(Debug, Clone, Copy, PartialEq, Eq, Structural)]
pub struct Shown {
    /// The end of the session, and the category beside the focus.
    pub end: bool,
    /// Where the session came from.
    pub source: bool,
    /// The note.
    pub note: bool,
}

impl Shown {
    /// Which columns fit in `width` columns of terminal: the note goes first, then the source,
    /// then the end.
    pub fn at(width: u16) -> (shown: Self)
        ensures
            shown == (Shown { end: width >= END_BELOW, source: width >= SOURCE_BELOW, note: width >= NOTE_BELOW }),
    {
        Shown { end: width >= END_BELOW, source: width >= SOURCE_BELOW, note: width >= NOTE_BELOW }
    }
}

/// What a span of a session is called in its row.
#[derive(Debug, Clone, Copy, PartialEq, Eq, Structural)]
pub enum SpanLabel {
    /// The kind of the span alone.
    Kind(SpanKind),
    /// The kind, counted through a sleep.
    Asleep(SpanKind),
    /// Time nobody measured because the program was not running.
    Down,
}

/// What `span` is called: time counted through a sleep says so beside its kind, and a gap says
/// whether the machine slept (older records hold sleeps as gaps on the clock that runs in sleep)
/// or the program was not running.
pub open spec fn label_of(span: Span) -> SpanLabel {
    if span.kind == SpanKind::Gap {
        if span.clock == ClockSource::Boot {
            SpanLabel::Kind(SpanKind::Gap)
        } else {
            SpanLabel::Down
        }
    } else if span.clock == ClockSource::Boot {
        SpanLabel::Asleep(span.kind)
    } else {
        SpanLabel::Kind(span.kind)
    }
}

/// What `span` is called in its row.
pub fn span_label(span: &Span) -> (label: SpanLabel)
    ensures
        label == label_of(*span),
{
    match (span.kind, span.clock) {
        (SpanKind::Gap, ClockSource::Boot) => SpanLabel::Kind(SpanKind::Gap),
        (SpanKind::Gap, _) => SpanLabel::Down,
        (kind, ClockSource::Boot) => SpanLabel::Asleep(kind),
        (kind, _) => SpanLabel::Kind(kind),
    }
}

/// The tone a span kind is drawn in on a session's timeline: work, breaks and idle time each
/// their own; a gap is not drawn, the machine was off.
pub open spec fn tone_of_kind(kind: SpanKind) -> Option<usize> {
    match kind {
        SpanKind::Work => Some(0),
        SpanKind::Pause => Some(1),
        SpanKind::Idle => Some(2),
        SpanKind::Gap => None,
    }
}

/// One block of a session's timeline: what it is called, where it starts and ends, in seconds
/// since the Unix epoch, and its tone.
#[derive(Debug, Clone, Copy, PartialEq, Eq, Structural)]
pub struct Stretch {
    pub label: SpanLabel,
    pub start: i64,
    pub end: i64,
    pub tone: usize,
}

/// The blocks of the first `n` spans of a session that began at `started`.
pub open spec fn stretches_upto(spans: Seq<Span>, started: i64, n: int) -> Seq<Stretch>
    decreases n,
{
    if n <= 0 || n > spans.len() {
        Seq::empty()
    } else {
        let rest = stretches_upto(spans, started, n - 1);
        let span = spans[n - 1];
        match tone_of_kind(span.kind) {
            Some(tone) => {
                let start = crate::arith::clamp_i64(started + span.offset);
                rest.push(Stretch { label: label_of(span), start: start as i64, end: crate::arith::clamp_i64(start + span.seconds) as i64, tone })
            },
            None => rest,
        }
    }
}

/// The spans of `session` as blocks of its own timeline: work, breaks and idle time each in the
/// tone of its kind, whether measured awake or through a sleep, and a gap left as a hole.
pub fn session_stretches(session: &Session) -> (blocks: Vec<Stretch>)
    ensures
        blocks@ == stretches_upto(session.spans@, session.started, session.spans@.len() as int),
{
    let mut blocks: Vec<Stretch> = Vec::new();
    let mut i: usize = 0;
    while i < session.spans.len()
        invariant
            i <= session.spans@.len(),
            blocks@ == stretches_upto(session.spans@, session.started, i as int),
        decreases session.spans@.len() - i,
    {
        let span = &session.spans[i];
        let tone: Option<usize> = match span.kind {
            SpanKind::Work => Some(0),
            SpanKind::Pause => Some(1),
            SpanKind::Idle => Some(2),
            SpanKind::Gap => None,
        };
        if let Some(tone) = tone {
            let start = crate::arith::add_i64(session.started, span.offset as i64);
            let end = crate::arith::add_i64(start, span.seconds as i64);
            blocks.push(Stretch { label: span_label(span), start, end, tone });
        }
        i = i + 1;
    }
    blocks
}

/// A moment as `HH:MM` in the offset given.
pub fn clock_of(seconds: i64, offset_minutes: i16) -> (text: String)
    ensures
        text@ == crate::liveness::clock_text(
            crate::calendar::moment_at(seconds, offset_minutes).hour,
            crate::calendar::moment_at(seconds, offset_minutes).minute,
        ),
{
    let moment = crate::calendar::local_moment(seconds, offset_minutes);
    let parts = crate::liveness::MomentParts { hour: moment.hour, minute: moment.minute, other_day: None };
    crate::liveness::clock_words(&parts)
}

} // verus!
