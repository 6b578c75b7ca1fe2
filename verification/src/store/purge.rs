//! Emptying the trash: the one place qfocus takes something off the disk for good.
//!
//! Everything else is an append. This is the exception the person asks for by name, so it is as
//! careful as an append: a line this version cannot read is kept byte for byte, and only whole
//! chains of records in the trash are taken.

use vstd::prelude::*;

use crate::id::Id;
use crate::session::Session;
use crate::session::line::{read, reading_of};
use crate::session::resolve::Roots;

verus! {

/// What emptying the trash would take, counted without writing anything.
#[derive(Debug, Clone, Copy, Default, PartialEq, Eq, Structural)]
pub struct PurgePlan {
    /// Records in the trash, each going with every line of its chain.
    pub records: usize,
    /// Archived categories and focuses that nothing refers to any more.
    pub rows: usize,
    /// Archived categories and focuses that stay, because a record still refers to them.
    pub kept_rows: usize,
}

impl PurgePlan {
    /// Whether there is nothing to take. Copies in the trash folder alone do not count: they are
    /// backups, and the next purge that takes something takes them too.
    pub fn is_empty(&self) -> (empty: bool)
        ensures
            empty == (self.records == 0 && self.rows == 0),
    {
        self.records == 0 && self.rows == 0
    }
}

/// What emptying the trash took.
#[derive(Debug, Clone, Copy, Default, PartialEq, Eq, Structural)]
pub struct Purged {
    /// Records taken off the disk, each with its whole chain.
    pub records: usize,
    /// Lines taken out of the month files.
    pub lines: usize,
    /// Archived categories and focuses taken out of the tree.
    pub rows: usize,
    /// Archived categories and focuses kept, because a record still refers to them.
    pub kept_rows: usize,
    /// Files removed from the trash folder.
    pub backups: usize,
}

/// The text `bytes` spell in UTF-8, or `None` when they are not valid UTF-8.
pub uninterp spec fn utf8_decoded(bytes: Seq<u8>) -> Option<Seq<char>>;

/// How many bytes at the start of `bytes` are valid UTF-8, as `Utf8Error::valid_up_to` reports
/// it for bytes that are not.
pub uninterp spec fn utf8_valid_up_to(bytes: Seq<u8>) -> nat;

/// `std::str::from_utf8`: the text `bytes` spell, or, when they are not valid UTF-8, how many
/// bytes at their start are (`Utf8Error::valid_up_to`). The decoding is named by
/// [`utf8_decoded`], the valid start by [`utf8_valid_up_to`].
#[verifier::external_body]
pub(crate) fn utf8_text(bytes: &[u8]) -> (text: Result<String, usize>)
    ensures
        match text {
            Ok(t) => utf8_decoded(bytes@) == Some(t@),
            Err(valid) => utf8_decoded(bytes@) is None && valid == utf8_valid_up_to(bytes@) && valid < bytes@.len(),
        },
{
    match std::str::from_utf8(bytes) {
        Ok(text) => Ok(text.to_string()),
        Err(error) => Err(error.valid_up_to()),
    }
}

/// Whether the text of a line, as read from the file `name`, is exactly one session of this
/// version; the session when it is.
pub open spec fn only_session(name: Seq<char>, text: Seq<char>) -> Option<Id> {
    let reading = reading_of(name, text);
    if reading.sessions.len() == 1 && reading.unknown_version == 0 {
        Some(reading.sessions[0].id)
    } else {
        None
    }
}

/// Whether the line `piece` of the file `name` is exactly one session whose chain `doomed`
/// accepts. Anything else, a line that is not text, not a session or not this version's, stays.
pub fn goes(name: &str, piece: &[u8], doomed: impl Fn(Id) -> bool) -> (gone: bool)
    requires
        forall|id: Id| call_requires(doomed, (id,)),
    ensures
        gone ==> exists|text: Seq<char>|
            utf8_decoded(piece@) == Some(text) && (only_session(name@, text) matches Some(id) && call_ensures(
                doomed,
                (id,),
                true,
            )),
        !gone ==> match utf8_decoded(piece@) {
            None => true,
            Some(text) => match only_session(name@, text) {
                None => true,
                Some(id) => call_ensures(doomed, (id,), false),
            },
        },
{
    let text = match utf8_text(piece) {
        Ok(text) => text,
        Err(_) => return false,
    };
    let reading = read(name, text.as_str());
    if reading.sessions.len() == 1 && reading.unknown_version == 0 {
        let id = reading.sessions[0].id;
        let answer = doomed(id);
        assert(only_session(name@, text@) == Some(id));
        assert(utf8_decoded(piece@) == Some(text@));
        answer
    } else {
        false
    }
}

/// `bytes` cut after each line feed, every piece keeping its own line ending; a last piece
/// without one is a piece too, and no bytes give no piece.
pub open spec fn split_lines(bytes: Seq<u8>) -> Seq<Seq<u8>>
    decreases bytes.len(),
{
    if bytes.len() == 0 {
        Seq::empty()
    } else {
        let before = split_lines(bytes.drop_last());
        if before.len() == 0 || before.last().last() == 10u8 {
            before.push(seq![bytes.last()])
        } else {
            before.update(before.len() - 1, before.last().push(bytes.last()))
        }
    }
}

/// The first `n` pieces, one after another.
pub open spec fn concat_upto(pieces: Seq<Seq<u8>>, n: int) -> Seq<u8>
    decreases n,
{
    if n <= 0 {
        Seq::empty()
    } else {
        concat_upto(pieces, n - 1) + pieces[n - 1]
    }
}

/// The first `n` pieces whose verdict is to stay, one after another.
pub open spec fn kept_upto(pieces: Seq<Seq<u8>>, goes: Seq<bool>, n: int) -> Seq<u8>
    decreases n,
{
    if n <= 0 {
        Seq::empty()
    } else {
        kept_upto(pieces, goes, n - 1) + if goes[n - 1] { Seq::empty() } else { pieces[n - 1] }
    }
}

/// How many of the first `n` verdicts are to go.
pub open spec fn gone_upto(goes: Seq<bool>, n: int) -> nat
    decreases n,
{
    if n <= 0 {
        0
    } else {
        gone_upto(goes, n - 1) + if goes[n - 1] { 1nat } else { 0nat }
    }
}

/// The views of `pieces`.
pub open spec fn piece_views(pieces: Seq<Vec<u8>>) -> Seq<Seq<u8>> {
    Seq::new(pieces.len(), |i: int| pieces[i]@)
}

/// Every piece but the last ends in a line feed, and no piece is empty.
proof fn lemma_pieces_shape(bytes: Seq<u8>)
    ensures
        forall|i: int| 0 <= i < split_lines(bytes).len() ==> #[trigger] split_lines(bytes)[i].len() > 0,
        forall|i: int| 0 <= i < split_lines(bytes).len() - 1 ==> #[trigger] split_lines(bytes)[i].last() == 10u8,
    decreases bytes.len(),
{
    if bytes.len() > 0 {
        let shorter = bytes.drop_last();
        lemma_pieces_shape(shorter);
        let before = split_lines(shorter);
        let now = split_lines(bytes);
        if before.len() == 0 || before.last().last() == 10u8 {
            assert(now == before.push(seq![bytes.last()]));
            assert forall|i: int| 0 <= i < now.len() implies #[trigger] now[i].len() > 0 by {
                if i < before.len() {
                    assert(now[i] == before[i]);
                }
            }
            assert forall|i: int| 0 <= i < now.len() - 1 implies #[trigger] now[i].last() == 10u8 by {
                assert(now[i] == before[i]);
            }
        } else {
            let n = before.len() as int;
            assert(now == before.update(n - 1, before[n - 1].push(bytes.last())));
            assert forall|i: int| 0 <= i < now.len() implies #[trigger] now[i].len() > 0 by {
                if i < n - 1 {
                    assert(now[i] == before[i]);
                }
            }
            assert forall|i: int| 0 <= i < now.len() - 1 implies #[trigger] now[i].last() == 10u8 by {
                assert(now[i] == before[i]);
            }
        }
    }
}

/// The pieces of a file put back together are the file, byte for byte.
pub proof fn law_the_pieces_of_a_file_make_the_file(bytes: Seq<u8>)
    ensures
        concat_upto(split_lines(bytes), split_lines(bytes).len() as int) == bytes,
    decreases bytes.len(),
{
    if bytes.len() > 0 {
        let shorter = bytes.drop_last();
        law_the_pieces_of_a_file_make_the_file(shorter);
        let before = split_lines(shorter);
        let now = split_lines(bytes);
        let b = bytes.last();
        lemma_pieces_shape(shorter);
        if before.len() == 0 || before.last().last() == 10u8 {
            assert(now == before.push(seq![b]));
            lemma_concat_prefix(before, now, before.len() as int);
            assert(concat_upto(now, now.len() as int) == concat_upto(before, before.len() as int) + seq![b]);
        } else {
            let n = before.len() as int;
            assert(now == before.update(n - 1, before[n - 1].push(b)));
            lemma_concat_prefix(before, now, n - 1);
            assert(concat_upto(now, n) == concat_upto(before, n - 1) + before[n - 1].push(b));
            assert(concat_upto(before, n) == concat_upto(before, n - 1) + before[n - 1]);
            assert(concat_upto(before, n - 1) + before[n - 1].push(b) =~= (concat_upto(before, n - 1) + before[n - 1]).push(b));
        }
        assert(shorter.push(b) =~= bytes);
    }
}

/// Pieces that agree up to `n` put together the same up to `n`.
proof fn lemma_concat_prefix(a: Seq<Seq<u8>>, b: Seq<Seq<u8>>, n: int)
    requires
        0 <= n <= a.len(),
        n <= b.len(),
        forall|i: int| 0 <= i < n ==> a[i] == b[i],
    ensures
        concat_upto(a, n) == concat_upto(b, n),
    decreases n,
{
    if n > 0 {
        lemma_concat_prefix(a, b, n - 1);
    }
}

/// Cuts `bytes` after each line feed, every piece keeping its own line ending.
pub fn split_lines_of(bytes: &[u8]) -> (pieces: Vec<Vec<u8>>)
    ensures
        piece_views(pieces@) == split_lines(bytes@),
{
    let mut pieces: Vec<Vec<u8>> = Vec::new();
    let mut i: usize = 0;
    while i < bytes.len()
        invariant
            i <= bytes@.len(),
            piece_views(pieces@) == split_lines(bytes@.subrange(0, i as int)),
        decreases bytes@.len() - i,
    {
        let b = bytes[i];
        let ghost before = piece_views(pieces@);
        let n = pieces.len();
        proof {
            assert(bytes@.subrange(0, i + 1).drop_last() =~= bytes@.subrange(0, i as int));
            assert(bytes@.subrange(0, i + 1).last() == b);
        }
        let mut opens: bool = n == 0;
        if n > 0 {
            let l = pieces[n - 1].len();
            opens = l == 0 || pieces[n - 1][l - 1] == 10u8;
        }
        if opens {
            let mut piece: Vec<u8> = Vec::new();
            piece.push(b);
            pieces.push(piece);
            proof {
                lemma_pieces_shape(bytes@.subrange(0, i as int));
                assert(piece_views(pieces@) =~= before.push(seq![b]));
            }
        } else {
            let mut last = pieces.pop().unwrap();
            last.push(b);
            pieces.push(last);
            proof {
                assert(piece_views(pieces@) =~= before.update(n - 1, before[n - 1].push(b)));
            }
        }
        i = i + 1;
    }
    assert(bytes@.subrange(0, bytes@.len() as int) =~= bytes@);
    pieces
}

/// The pieces whose verdict is to stay, put back together, and how many go.
pub fn sift(pieces: &Vec<Vec<u8>>, goes: &[bool]) -> (found: (Vec<u8>, usize))
    requires
        pieces@.len() == goes@.len(),
    ensures
        found.0@ == kept_upto(piece_views(pieces@), goes@, goes@.len() as int),
        found.1 == gone_upto(goes@, goes@.len() as int),
{
    let mut kept: Vec<u8> = Vec::new();
    let mut gone: usize = 0;
    let mut i: usize = 0;
    while i < goes.len()
        invariant
            i <= goes@.len(),
            pieces@.len() == goes@.len(),
            kept@ == kept_upto(piece_views(pieces@), goes@, i as int),
            gone == gone_upto(goes@, i as int),
            gone <= i,
        decreases goes@.len() - i,
    {
        if goes[i] {
            gone = gone + 1;
        } else {
            let piece = &pieces[i];
            let ghost start = kept@;
            let mut k: usize = 0;
            while k < piece.len()
                invariant
                    k <= piece@.len(),
                    kept@ == start + piece@.subrange(0, k as int),
                decreases piece@.len() - k,
            {
                kept.push(piece[k]);
                k = k + 1;
                assert(kept@ =~= start + piece@.subrange(0, k as int));
            }
            assert(piece@.subrange(0, piece@.len() as int) =~= piece@);
        }
        i = i + 1;
        assert(kept@ =~= kept_upto(piece_views(pieces@), goes@, i as int));
    }
    (kept, gone)
}

/// What becomes of a month file once its lines are sifted.
#[derive(Debug, Clone, Copy, PartialEq, Eq, Structural)]
pub enum MonthChange {
    /// Nothing went, so the file is not touched.
    Untouched,
    /// Everything went, so the file is removed.
    Removed,
    /// Some lines went and some stay, so the file is written again with those that stay.
    Rewritten,
}

/// What becomes of a month file from which `gone` lines went and `kept` bytes stay.
pub fn month_change(gone: usize, kept: usize) -> (change: MonthChange)
    ensures
        change == if gone == 0 {
            MonthChange::Untouched
        } else if kept == 0 {
            MonthChange::Removed
        } else {
            MonthChange::Rewritten
        },
{
    if gone == 0 {
        MonthChange::Untouched
    } else if kept == 0 {
        MonthChange::Removed
    } else {
        MonthChange::Rewritten
    }
}

/// Whether `x` is the root of one of the first `n` of `voided` in `chains`.
pub open spec fn doomed_upto(voided: Seq<Session>, chains: Map<u128, Id>, n: int, x: Id) -> bool {
    exists|i: int| 0 <= i < n && chains.contains_key(voided[i].id.value()) && #[trigger] chains[voided[i].id.value()] == x
}

/// The chains the trash takes: the root of each session in the trash, once each; a session
/// without a root in `chains` takes none.
pub fn doomed_roots(voided: &[Session], chains: &Roots) -> (doomed: Vec<Id>)
    ensures
        doomed@.no_duplicates(),
        forall|x: Id| #[trigger] doomed@.contains(x) <==> doomed_upto(voided@, chains@, voided@.len() as int, x),
{
    let mut doomed: Vec<Id> = Vec::new();
    let mut i: usize = 0;
    while i < voided.len()
        invariant
            i <= voided@.len(),
            doomed@.no_duplicates(),
            forall|x: Id| #[trigger] doomed@.contains(x) <==> doomed_upto(voided@, chains@, i as int, x),
        decreases voided@.len() - i,
    {
        match chains.get(&voided[i].id) {
            Some(root) => {
                let root = *root;
                let mut seen = false;
                let mut k: usize = 0;
                while k < doomed.len()
                    invariant
                        k <= doomed@.len(),
                        seen == exists|j: int| 0 <= j < k && doomed@[j] == root,
                    decreases doomed@.len() - k,
                {
                    if doomed[k] == root {
                        seen = true;
                    }
                    k = k + 1;
                }
                let ghost before = doomed@;
                if !seen {
                    doomed.push(root);
                }
                assert forall|x: Id| #[trigger] doomed@.contains(x) <==> doomed_upto(voided@, chains@, i + 1, x) by {
                    if doomed_upto(voided@, chains@, i + 1, x) {
                        let j = choose|j: int|
                            0 <= j < i + 1 && chains@.contains_key(voided@[j].id.value()) && #[trigger] chains@[voided@[j].id.value()]
                                == x;
                        if j < i {
                            assert(doomed_upto(voided@, chains@, i as int, x));
                            assert(before.contains(x));
                            let m = choose|m: int| 0 <= m < before.len() && before[m] == x;
                            assert(doomed@[m] == x);
                        } else if !seen {
                            assert(doomed@[before.len() as int] == x);
                        } else {
                            let m = choose|m: int| 0 <= m < before.len() && before[m] == root;
                            assert(doomed@[m] == x);
                        }
                    }
                    if doomed@.contains(x) {
                        let m = choose|m: int| 0 <= m < doomed@.len() && doomed@[m] == x;
                        if m < before.len() {
                            assert(before.contains(x));
                            let j = choose|j: int|
                                0 <= j < i && chains@.contains_key(voided@[j].id.value()) && #[trigger] chains@[voided@[j].id.value()]
                                    == x;
                            assert(0 <= j < i + 1);
                        } else {
                            assert(x == root);
                            assert(chains@[voided@[i as int].id.value()] == x);
                        }
                    }
                }
            },
            None => {
                assert forall|x: Id| #[trigger] doomed@.contains(x) <==> doomed_upto(voided@, chains@, i + 1, x) by {
                    if doomed_upto(voided@, chains@, i + 1, x) {
                        let j = choose|j: int|
                            0 <= j < i + 1 && chains@.contains_key(voided@[j].id.value()) && #[trigger] chains@[voided@[j].id.value()]
                                == x;
                        assert(j < i);
                    }
                    if doomed_upto(voided@, chains@, i as int, x) {
                        let j = choose|j: int|
                            0 <= j < i && chains@.contains_key(voided@[j].id.value()) && #[trigger] chains@[voided@[j].id.value()]
                                == x;
                        assert(0 <= j < i + 1);
                    }
                }
            },
        }
        i = i + 1;
    }
    doomed
}

/// Whether the record `id` belongs to a chain the trash takes: it has a root in `chains`, and
/// that root is among `doomed`.
pub fn in_doomed_chain(chains: &Roots, doomed: &[Id], id: Id) -> (goes: bool)
    ensures
        goes == (chains@.contains_key(id.value()) && doomed@.contains(chains@[id.value()])),
{
    match chains.get(&id) {
        Some(root) => {
            let mut k: usize = 0;
            while k < doomed.len()
                invariant
                    k <= doomed@.len(),
                    chains@.contains_key(id.value()) && chains@[id.value()] == *root,
                    forall|j: int| 0 <= j < k ==> doomed@[j] != *root,
                decreases doomed@.len() - k,
            {
                if doomed[k] == *root {
                    assert(doomed@[k as int] == *root);
                    return true;
                }
                k = k + 1;
            }
            false
        },
        None => false,
    }
}

} // verus!
