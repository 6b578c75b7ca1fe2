//! What always holds of how records resolve, whatever order they come in.

use vstd::prelude::*;

use super::SessionView;
use super::resolve::{
    above, chain, chain_upto, forked, kept, kept_upto, link_of, newest, newest_upto, parent_map, parents_upto,
    resolution_of, root_in, root_set, same_revision_upto, carried, chain_roots, sessions_upto, voided_upto, forks_upto,
    is_orphan, orphans_upto, increasing, orphan_notes_upto, fork_notes_upto,
};
use crate::id::Id;

verus! {

/// Whether no two records of `records` carry the same identifier.
pub open spec fn unique_ids(records: Seq<SessionView>) -> bool {
    forall|i: int, j: int| 0 <= i < records.len() && 0 <= j < records.len() && i != j ==> records[i].id != records[j].id
}

/// Whether `a` and `b` hold the same records.
pub open spec fn same_members(a: Seq<SessionView>, b: Seq<SessionView>) -> bool {
    forall|r: SessionView| a.contains(r) <==> b.contains(r)
}

/// Identifiers with the same bits are the same identifier.
proof fn lemma_same_bits(a: Id, b: Id)
    ensures
        (a.value() == b.value()) == (a == b),
{
    a.lemma_value(b.value());
    b.lemma_value(b.value());
}

/// What the parent map of records with distinct identifiers holds.
proof fn lemma_parents(s: Seq<SessionView>, n: int)
    requires
        unique_ids(s),
        0 <= n <= s.len(),
    ensures
        forall|k: u128|
            parents_upto(s, n).contains_key(k) <==> exists|i: int|
                0 <= i < n && s[i].id.value() == k && link_of(s[i]) is Some,
        forall|i: int|
            0 <= i < n && link_of(s[i]) is Some ==> parents_upto(s, n)[s[i].id.value()] == link_of(
                s[i],
            ).unwrap().value(),
    decreases n,
{
    if n > 0 {
        lemma_parents(s, n - 1);
        let p = parents_upto(s, n);
        assert forall|k: u128|
            p.contains_key(k) <==> exists|i: int| 0 <= i < n && s[i].id.value() == k && link_of(s[i]) is Some by {
            if p.contains_key(k) && !(k == s[n - 1].id.value() && link_of(s[n - 1]) is Some) {
                assert(parents_upto(s, n - 1).contains_key(k));
                let i = choose|i: int| 0 <= i < n - 1 && s[i].id.value() == k && link_of(s[i]) is Some;
                assert(0 <= i < n && s[i].id.value() == k && link_of(s[i]) is Some);
            }
        }
        assert forall|i: int| 0 <= i < n && link_of(s[i]) is Some implies p[s[i].id.value()] == link_of(
            s[i],
        ).unwrap().value() by {
            if i < n - 1 {
                lemma_same_bits(s[i].id, s[n - 1].id);
            }
        }
    }
}

/// Records with distinct identifiers that hold the same records have the same parent map.
proof fn lemma_parents_same(a: Seq<SessionView>, b: Seq<SessionView>)
    requires
        unique_ids(a),
        unique_ids(b),
        same_members(a, b),
    ensures
        parent_map(a) == parent_map(b),
{
    lemma_parents(a, a.len() as int);
    lemma_parents(b, b.len() as int);
    let pa = parent_map(a);
    let pb = parent_map(b);
    assert forall|k: u128| pa.contains_key(k) implies pb.contains_key(k) && pb[k] == pa[k] by {
        let i = choose|i: int| 0 <= i < a.len() && a[i].id.value() == k && link_of(a[i]) is Some;
        assert(a.contains(a[i]));
        assert(b.contains(a[i]));
        let j = choose|j: int| 0 <= j < b.len() && b[j] == a[i];
        assert(0 <= j < b.len() && b[j].id.value() == k && link_of(b[j]) is Some);
    }
    assert forall|k: u128| pb.contains_key(k) implies pa.contains_key(k) by {
        let j = choose|j: int| 0 <= j < b.len() && b[j].id.value() == k && link_of(b[j]) is Some;
        assert(b.contains(b[j]));
        assert(a.contains(b[j]));
        let i = choose|i: int| 0 <= i < a.len() && a[i] == b[j];
        assert(0 <= i < a.len() && a[i].id.value() == k && link_of(a[i]) is Some);
    }
    assert(pa =~= pb);
}

/// The records of a chain are the records with that root, and they keep distinct identifiers.
proof fn lemma_chain(s: Seq<SessionView>, x: u128, n: int)
    requires
        unique_ids(s),
        0 <= n <= s.len(),
    ensures
        forall|r: SessionView|
            chain_upto(s, x, n).contains(r) <==> exists|i: int| 0 <= i < n && s[i] == r && root_in(s, r) == x,
        forall|k: int|
            0 <= k < chain_upto(s, x, n).len() ==> exists|i: int| 0 <= i < n && s[i] == #[trigger] chain_upto(s, x, n)[k],
        unique_ids(chain_upto(s, x, n)),
    decreases n,
{
    if n > 0 {
        lemma_chain(s, x, n - 1);
        let c = chain_upto(s, x, n);
        let before = chain_upto(s, x, n - 1);
        if root_in(s, s[n - 1]) == x {
            assert forall|r: SessionView| c.contains(r) <==> exists|i: int| 0 <= i < n && s[i] == r && root_in(s, r) == x by {
                if c.contains(r) {
                    let k = choose|k: int| 0 <= k < c.len() && c[k] == r;
                    if k < before.len() {
                        assert(before.contains(r));
                        let i = choose|i: int| 0 <= i < n - 1 && s[i] == r && root_in(s, r) == x;
                        assert(0 <= i < n && s[i] == r && root_in(s, r) == x);
                    } else {
                        assert(0 <= n - 1 < n && s[n - 1] == r && root_in(s, r) == x);
                    }
                }
                if exists|i: int| 0 <= i < n && s[i] == r && root_in(s, r) == x {
                    let i = choose|i: int| 0 <= i < n && s[i] == r && root_in(s, r) == x;
                    if i < n - 1 {
                        assert(before.contains(r));
                        let k = choose|k: int| 0 <= k < before.len() && before[k] == r;
                        assert(c[k] == r);
                    } else {
                        assert(c[c.len() - 1] == r);
                    }
                }
            }
            assert forall|k: int| 0 <= k < c.len() implies exists|i: int| 0 <= i < n && s[i] == #[trigger] c[k] by {
                if k < before.len() {
                    assert(c[k] == before[k]);
                    let i = choose|i: int| 0 <= i < n - 1 && s[i] == before[k];
                    assert(0 <= i < n && s[i] == c[k]);
                } else {
                    assert(0 <= n - 1 < n && s[n - 1] == c[k]);
                }
            }
            assert forall|p: int, q: int| 0 <= p < c.len() && 0 <= q < c.len() && p != q implies c[p].id != c[q].id by {
                if p < before.len() && q < before.len() {
                    assert(c[p] == before[p] && c[q] == before[q]);
                } else if p < before.len() {
                    assert(c[p] == before[p]);
                    let i = choose|i: int| 0 <= i < n - 1 && s[i] == before[p];
                    assert(s[i].id != s[n - 1].id);
                } else {
                    assert(c[q] == before[q]);
                    let i = choose|i: int| 0 <= i < n - 1 && s[i] == before[q];
                    assert(s[i].id != s[n - 1].id);
                }
            }
        } else {
            assert forall|r: SessionView| c.contains(r) <==> exists|i: int| 0 <= i < n && s[i] == r && root_in(s, r) == x by {
                if exists|i: int| 0 <= i < n && s[i] == r && root_in(s, r) == x {
                    let i = choose|i: int| 0 <= i < n && s[i] == r && root_in(s, r) == x;
                    assert(i != n - 1);
                    assert(0 <= i < n - 1 && s[i] == r && root_in(s, r) == x);
                }
                if c.contains(r) {
                    let i = choose|i: int| 0 <= i < n - 1 && s[i] == r && root_in(s, r) == x;
                    assert(0 <= i < n && s[i] == r && root_in(s, r) == x);
                }
            }
            assert forall|k: int| 0 <= k < c.len() implies exists|i: int| 0 <= i < n && s[i] == #[trigger] c[k] by {
                let i = choose|i: int| 0 <= i < n - 1 && s[i] == before[k];
                assert(0 <= i < n && s[i] == c[k]);
            }
        }
    }
}

/// The records of a chain that void nothing are those of its records, with distinct identifiers.
proof fn lemma_kept(c: Seq<SessionView>, n: int)
    requires
        unique_ids(c),
        0 <= n <= c.len(),
    ensures
        forall|r: SessionView| kept_upto(c, n).contains(r) <==> exists|i: int| 0 <= i < n && c[i] == r && r.voids is None,
        forall|k: int| 0 <= k < kept_upto(c, n).len() ==> exists|i: int| 0 <= i < n && c[i] == #[trigger] kept_upto(c, n)[k],
        unique_ids(kept_upto(c, n)),
    decreases n,
{
    if n > 0 {
        lemma_kept(c, n - 1);
        let f = kept_upto(c, n);
        let before = kept_upto(c, n - 1);
        if c[n - 1].voids is None {
            assert forall|r: SessionView| f.contains(r) <==> exists|i: int| 0 <= i < n && c[i] == r && r.voids is None by {
                if f.contains(r) {
                    let k = choose|k: int| 0 <= k < f.len() && f[k] == r;
                    if k < before.len() {
                        assert(before.contains(r));
                        let i = choose|i: int| 0 <= i < n - 1 && c[i] == r && r.voids is None;
                        assert(0 <= i < n && c[i] == r && r.voids is None);
                    } else {
                        assert(0 <= n - 1 < n && c[n - 1] == r && r.voids is None);
                    }
                }
                if exists|i: int| 0 <= i < n && c[i] == r && r.voids is None {
                    let i = choose|i: int| 0 <= i < n && c[i] == r && r.voids is None;
                    if i < n - 1 {
                        assert(before.contains(r));
                        let k = choose|k: int| 0 <= k < before.len() && before[k] == r;
                        assert(f[k] == r);
                    } else {
                        assert(f[f.len() - 1] == r);
                    }
                }
            }
            assert forall|k: int| 0 <= k < f.len() implies exists|i: int| 0 <= i < n && c[i] == #[trigger] f[k] by {
                if k < before.len() {
                    assert(f[k] == before[k]);
                    let i = choose|i: int| 0 <= i < n - 1 && c[i] == before[k];
                    assert(0 <= i < n && c[i] == f[k]);
                } else {
                    assert(0 <= n - 1 < n && c[n - 1] == f[k]);
                }
            }
            assert forall|p: int, q: int| 0 <= p < f.len() && 0 <= q < f.len() && p != q implies f[p].id != f[q].id by {
                if p < before.len() && q < before.len() {
                    assert(f[p] == before[p] && f[q] == before[q]);
                } else if p < before.len() {
                    assert(f[p] == before[p]);
                    let i = choose|i: int| 0 <= i < n - 1 && c[i] == before[p];
                    assert(c[i].id != c[n - 1].id);
                } else {
                    assert(f[q] == before[q]);
                    let i = choose|i: int| 0 <= i < n - 1 && c[i] == before[q];
                    assert(c[i].id != c[n - 1].id);
                }
            }
        } else {
            assert forall|r: SessionView| f.contains(r) <==> exists|i: int| 0 <= i < n && c[i] == r && r.voids is None by {
                if exists|i: int| 0 <= i < n && c[i] == r && r.voids is None {
                    let i = choose|i: int| 0 <= i < n && c[i] == r && r.voids is None;
                    assert(i != n - 1);
                    assert(0 <= i < n - 1 && c[i] == r && r.voids is None);
                }
                if f.contains(r) {
                    let i = choose|i: int| 0 <= i < n - 1 && c[i] == r && r.voids is None;
                    assert(0 <= i < n && c[i] == r && r.voids is None);
                }
            }
            assert forall|k: int| 0 <= k < f.len() implies exists|i: int| 0 <= i < n && c[i] == #[trigger] f[k] by {
                let i = choose|i: int| 0 <= i < n - 1 && c[i] == before[k];
                assert(0 <= i < n && c[i] == f[k]);
            }
        }
    }
}

/// Between records with distinct identifiers, `above` is a strict total order.
proof fn lemma_above_order(a: SessionView, b: SessionView, c: SessionView)
    ensures
        !(above(a, b) && above(b, a)),
        a.id != b.id ==> above(a, b) || above(b, a),
        above(a, b) && above(b, c) ==> above(a, c),
        !above(a, a),
{
    lemma_same_bits(a.id, b.id);
}

/// Of records with distinct identifiers, the one that counts is above every other.
proof fn lemma_newest(c: Seq<SessionView>, n: int)
    requires
        unique_ids(c),
        0 <= n <= c.len(),
    ensures
        n == 0 <==> newest_upto(c, n) is None,
        n > 0 ==> exists|k: int| 0 <= k < n && newest_upto(c, n) == Some(c[k]),
        n > 0 ==> forall|j: int| 0 <= j < n && c[j] != newest_upto(c, n).unwrap() ==> above(newest_upto(c, n).unwrap(), #[trigger] c[j]),
    decreases n,
{
    if n > 0 {
        lemma_newest(c, n - 1);
        if n > 1 {
            let best = newest_upto(c, n - 1).unwrap();
            let k = choose|k: int| 0 <= k < n - 1 && newest_upto(c, n - 1) == Some(c[k]);
            assert(c[k].id != c[n - 1].id);
            lemma_above_order(best, c[n - 1], best);
            if above(best, c[n - 1]) {
                assert(0 <= k < n && newest_upto(c, n) == Some(c[k]));
            } else {
                assert(above(c[n - 1], best));
                assert forall|j: int| 0 <= j < n && c[j] != c[n - 1] implies above(c[n - 1], #[trigger] c[j]) by {
                    if c[j] != best {
                        lemma_above_order(c[n - 1], best, c[j]);
                    }
                }
            }
        }
    }
}

/// Two chains that hold the same records with distinct identifiers agree on the one that counts.
proof fn lemma_newest_same(c1: Seq<SessionView>, c2: Seq<SessionView>)
    requires
        unique_ids(c1),
        unique_ids(c2),
        same_members(c1, c2),
    ensures
        newest(c1) == newest(c2),
{
    lemma_newest(c1, c1.len() as int);
    lemma_newest(c2, c2.len() as int);
    if c1.len() == 0 && c2.len() > 0 {
        assert(c2.contains(c2[0]));
    } else if c2.len() == 0 && c1.len() > 0 {
        assert(c1.contains(c1[0]));
    } else if c1.len() > 0 {
        let w1 = newest(c1).unwrap();
        let w2 = newest(c2).unwrap();
        let k1 = choose|k: int| 0 <= k < c1.len() && newest(c1) == Some(c1[k]);
        let k2 = choose|k: int| 0 <= k < c2.len() && newest(c2) == Some(c2[k]);
        assert(c1.contains(w1));
        assert(c2.contains(w1));
        assert(c2.contains(w2));
        assert(c1.contains(w2));
        let j2 = choose|j: int| 0 <= j < c2.len() && c2[j] == w1;
        let j1 = choose|j: int| 0 <= j < c1.len() && c1[j] == w2;
        if w1 != w2 {
            assert(above(w2, c2[j2]));
            assert(above(w1, c1[j1]));
            lemma_above_order(w1, w2, w1);
        }
    }
}

/// More than one record of `c` carries `revision` exactly when two of its places do.
proof fn lemma_same_revision(c: Seq<SessionView>, revision: u32, n: int)
    requires
        0 <= n <= c.len(),
    ensures
        same_revision_upto(c, revision, n) > 0 <==> exists|i: int| 0 <= i < n && c[i].revision == revision,
        same_revision_upto(c, revision, n) > 1 <==> exists|i: int, j: int|
            0 <= i < j < n && c[i].revision == revision && c[j].revision == revision,
    decreases n,
{
    if n > 0 {
        lemma_same_revision(c, revision, n - 1);
        if same_revision_upto(c, revision, n - 1) > 0 && c[n - 1].revision == revision {
            let i = choose|i: int| 0 <= i < n - 1 && c[i].revision == revision;
            assert(0 <= i < n - 1 < n && c[i].revision == revision && c[n - 1].revision == revision);
        }
        if exists|i: int, j: int| 0 <= i < j < n && c[i].revision == revision && c[j].revision == revision {
            let (i, j) = choose|i: int, j: int| 0 <= i < j < n && c[i].revision == revision && c[j].revision == revision;
            if j < n - 1 {
                assert(0 <= i < j < n - 1 && c[i].revision == revision && c[j].revision == revision);
            } else {
                assert(0 <= i < n - 1 && c[i].revision == revision);
            }
        }
        if exists|i: int| 0 <= i < n && c[i].revision == revision {
            let i = choose|i: int| 0 <= i < n && c[i].revision == revision;
            if i < n - 1 {
                assert(0 <= i < n - 1 && c[i].revision == revision);
            }
        }
    }
}

/// Two chains that hold the same records with distinct identifiers are forked alike.
proof fn lemma_two_with_revision_same(c1: Seq<SessionView>, c2: Seq<SessionView>, revision: u32)
    requires
        unique_ids(c1),
        unique_ids(c2),
        same_members(c1, c2),
        same_revision_upto(c1, revision, c1.len() as int) > 1,
    ensures
        same_revision_upto(c2, revision, c2.len() as int) > 1,
{
    lemma_same_revision(c1, revision, c1.len() as int);
    lemma_same_revision(c2, revision, c2.len() as int);
    let (i, j) = choose|i: int, j: int| 0 <= i < j < c1.len() && c1[i].revision == revision && c1[j].revision == revision;
    assert(c1.contains(c1[i]) && c1.contains(c1[j]));
    assert(c2.contains(c1[i]) && c2.contains(c1[j]));
    let p = choose|p: int| 0 <= p < c2.len() && c2[p] == c1[i];
    let q = choose|q: int| 0 <= q < c2.len() && c2[q] == c1[j];
    assert(c1[i].id != c1[j].id);
    if p < q {
        assert(0 <= p < q < c2.len() && c2[p].revision == revision && c2[q].revision == revision);
    } else {
        assert(0 <= q < p < c2.len() && c2[q].revision == revision && c2[p].revision == revision);
    }
}

/// Records that hold the same records with distinct identifiers give every chain the same
/// outcome.
proof fn lemma_chain_same(a: Seq<SessionView>, b: Seq<SessionView>, x: u128)
    requires
        unique_ids(a),
        unique_ids(b),
        same_members(a, b),
    ensures
        newest(chain(a, x)) == newest(chain(b, x)),
        newest(kept(chain(a, x))) == newest(kept(chain(b, x))),
        forked(a, x) == forked(b, x),
{
    lemma_parents_same(a, b);
    assert(forall|r: SessionView| root_in(a, r) == root_in(b, r));
    let ca = chain(a, x);
    let cb = chain(b, x);
    lemma_chain(a, x, a.len() as int);
    lemma_chain(b, x, b.len() as int);
    assert forall|r: SessionView| ca.contains(r) <==> cb.contains(r) by {
        if ca.contains(r) {
            let i = choose|i: int| 0 <= i < a.len() && a[i] == r && root_in(a, r) == x;
            assert(a.contains(r));
            let j = choose|j: int| 0 <= j < b.len() && b[j] == r;
            assert(0 <= j < b.len() && b[j] == r && root_in(b, r) == x);
        }
        if cb.contains(r) {
            let j = choose|j: int| 0 <= j < b.len() && b[j] == r && root_in(b, r) == x;
            assert(b.contains(r));
            let i = choose|i: int| 0 <= i < a.len() && a[i] == r;
            assert(0 <= i < a.len() && a[i] == r && root_in(a, r) == x);
        }
    }
    lemma_newest_same(ca, cb);
    lemma_kept(ca, ca.len() as int);
    lemma_kept(cb, cb.len() as int);
    assert forall|r: SessionView| kept(ca).contains(r) <==> kept(cb).contains(r) by {
        if kept(ca).contains(r) {
            let i = choose|i: int| 0 <= i < ca.len() && ca[i] == r && r.voids is None;
            assert(ca.contains(r));
            let j = choose|j: int| 0 <= j < cb.len() && cb[j] == r;
            assert(0 <= j < cb.len() && cb[j] == r && r.voids is None);
        }
        if kept(cb).contains(r) {
            let j = choose|j: int| 0 <= j < cb.len() && cb[j] == r && r.voids is None;
            assert(cb.contains(r));
            let i = choose|i: int| 0 <= i < ca.len() && ca[i] == r;
            assert(0 <= i < ca.len() && ca[i] == r && r.voids is None);
        }
    }
    lemma_newest_same(kept(ca), kept(cb));
    match newest(ca) {
        Some(w) => {
            if same_revision_upto(ca, w.revision, ca.len() as int) > 1 {
                lemma_two_with_revision_same(ca, cb, w.revision);
            }
            if same_revision_upto(cb, w.revision, cb.len() as int) > 1 {
                lemma_two_with_revision_same(cb, ca, w.revision);
            }
        },
        None => {},
    }
}

/// A reordering of records with distinct identifiers holds the same records, with distinct
/// identifiers.
proof fn lemma_reordered(a: Seq<SessionView>, b: Seq<SessionView>)
    requires
        unique_ids(a),
        a.to_multiset() == b.to_multiset(),
    ensures
        unique_ids(b),
        same_members(a, b),
{
    broadcast use vstd::seq_lib::group_to_multiset_ensures;

    assert forall|r: SessionView| a.contains(r) <==> b.contains(r) by {
        assert(a.contains(r) <==> a.to_multiset().count(r) > 0);
        assert(b.contains(r) <==> b.to_multiset().count(r) > 0);
    }
    assert(a.no_duplicates());
    a.lemma_multiset_has_no_duplicates();
    b.lemma_multiset_has_no_duplicates_conv();
    assert forall|i: int, j: int| 0 <= i < b.len() && 0 <= j < b.len() && i != j implies b[i].id != b[j].id by {
        assert(b[i] != b[j]);
        assert(b.contains(b[i]) && b.contains(b[j]));
        assert(a.contains(b[i]) && a.contains(b[j]));
        let p = choose|p: int| 0 <= p < a.len() && a[p] == b[i];
        let q = choose|q: int| 0 <= q < a.len() && a[q] == b[j];
        assert(p != q);
    }
}

/// A record is an orphan among the first `n` records as often as it is among them, when it is one.
proof fn lemma_orphans_count(records: Seq<SessionView>, n: int, x: SessionView)
    requires
        0 <= n <= records.len(),
    ensures
        orphans_upto(records, n).to_multiset().count(x) == if is_orphan(records, x) {
            records.subrange(0, n).to_multiset().count(x)
        } else {
            0
        },
    decreases n,
{
    broadcast use vstd::seq_lib::group_to_multiset_ensures;

    if n > 0 {
        lemma_orphans_count(records, n - 1, x);
        assert(records.subrange(0, n) =~= records.subrange(0, n - 1).push(records[n - 1]));
    } else {
        assert(records.subrange(0, 0) =~= Seq::<SessionView>::empty());
        assert(orphans_upto(records, 0) =~= Seq::<SessionView>::empty());
    }
}

/// The order records arrive in does not matter: records with distinct identifiers, in any order,
/// resolve to the same sessions, the same trash and the same forked chains, and to the same
/// orphans, in an order of their own.
pub proof fn law_the_order_records_arrive_in_does_not_matter(a: Seq<SessionView>, b: Seq<SessionView>)
    requires
        unique_ids(a),
        a.to_multiset() == b.to_multiset(),
    ensures
        resolution_of(a).sessions == resolution_of(b).sessions,
        resolution_of(a).voided == resolution_of(b).voided,
        resolution_of(a).forks == resolution_of(b).forks,
        resolution_of(a).orphans.to_multiset() == resolution_of(b).orphans.to_multiset(),
{
    lemma_reordered(a, b);
    lemma_parents_same(a, b);
    assert(forall|r: SessionView| root_in(a, r) == root_in(b, r));
    assert forall|x: u128| carried(a, x) <==> carried(b, x) by {
        if carried(a, x) {
            let i = choose|i: int| 0 <= i < a.len() && a[i].id.value() == x;
            assert(a.contains(a[i]));
            let j = choose|j: int| 0 <= j < b.len() && b[j] == a[i];
            assert(0 <= j < b.len() && b[j].id.value() == x);
        }
        if carried(b, x) {
            let j = choose|j: int| 0 <= j < b.len() && b[j].id.value() == x;
            assert(b.contains(b[j]));
            let i = choose|i: int| 0 <= i < a.len() && a[i] == b[j];
            assert(0 <= i < a.len() && a[i].id.value() == x);
        }
    }
    assert(root_set(a) =~= root_set(b)) by {
        assert forall|x: u128| root_set(a).contains(x) implies root_set(b).contains(x) by {
            let i = choose|i: int| 0 <= i < a.len() && root_in(a, a[i]) == x && carried(a, x);
            assert(a.contains(a[i]));
            let j = choose|j: int| 0 <= j < b.len() && b[j] == a[i];
            assert(0 <= j < b.len() && root_in(b, b[j]) == x && carried(b, x));
        }
        assert forall|x: u128| root_set(b).contains(x) implies root_set(a).contains(x) by {
            let j = choose|j: int| 0 <= j < b.len() && root_in(b, b[j]) == x && carried(b, x);
            assert(b.contains(b[j]));
            let i = choose|i: int| 0 <= i < a.len() && a[i] == b[j];
            assert(0 <= i < a.len() && root_in(a, a[i]) == x && carried(a, x));
        }
    }
    let roots = chain_roots(a);
    assert(chain_roots(b) == roots);
    assert forall|x: u128| #[trigger] newest(chain(a, x)) == newest(chain(b, x)) && newest(kept(chain(a, x))) == newest(
        kept(chain(b, x)),
    ) && forked(a, x) == forked(b, x) by {
        lemma_chain_same(a, b, x);
    }
    lemma_outcomes_same(a, b, roots, roots.len() as int);
    assert forall|x: SessionView| #[trigger] resolution_of(a).orphans.to_multiset().count(x) == resolution_of(
        b,
    ).orphans.to_multiset().count(x) by {
        lemma_orphans_count(a, a.len() as int, x);
        lemma_orphans_count(b, b.len() as int, x);
        assert(a.subrange(0, a.len() as int) =~= a);
        assert(b.subrange(0, b.len() as int) =~= b);
    }
    assert(resolution_of(a).orphans.to_multiset() =~= resolution_of(b).orphans.to_multiset());
}

/// When every chain has the same outcome, the lists built from them are the same.
proof fn lemma_outcomes_same(a: Seq<SessionView>, b: Seq<SessionView>, roots: Seq<u128>, n: int)
    requires
        0 <= n <= roots.len(),
        forall|x: u128| #[trigger] newest(chain(a, x)) == newest(chain(b, x)) && newest(kept(chain(a, x))) == newest(
            kept(chain(b, x)),
        ) && forked(a, x) == forked(b, x),
    ensures
        sessions_upto(a, roots, n) == sessions_upto(b, roots, n),
        voided_upto(a, roots, n) == voided_upto(b, roots, n),
        forks_upto(a, roots, n) == forks_upto(b, roots, n),
    decreases n,
{
    if n > 0 {
        lemma_outcomes_same(a, b, roots, n - 1);
        let x = roots[n - 1];
        assert(newest(chain(a, x)) == newest(chain(b, x)));
    }
}

/// The record that counts carries the highest revision of the first `n` records of its chain.
proof fn lemma_newest_is_highest(c: Seq<SessionView>, n: int)
    requires
        0 <= n <= c.len(),
    ensures
        forall|j: int| 0 <= j < n ==> #[trigger] c[j].revision <= newest_upto(c, n).unwrap().revision,
    decreases n,
{
    if n > 0 {
        lemma_newest_is_highest(c, n - 1);
    }
}

/// For a chain of identifiers the highest revision is the one that counts: no record of the chain
/// a session is shown for carries a higher revision than the session shown.
pub proof fn law_the_highest_revision_counts(records: Seq<SessionView>, root: u128, record: SessionView)
    requires
        chain(records, root).contains(record),
    ensures
        newest(chain(records, root)) is Some,
        record.revision <= newest(chain(records, root)).unwrap().revision,
{
    let c = chain(records, root);
    lemma_newest_is_highest(c, c.len() as int);
    let j = choose|j: int| 0 <= j < c.len() && c[j] == record;
    assert(c[j].revision <= newest(c).unwrap().revision);
}

/// The roots of the chains whose first record is here are finitely many.
proof fn lemma_root_set_finite(records: Seq<SessionView>)
    ensures
        root_set(records).finite(),
{
    let all = records.map_values(|r: SessionView| root_in(records, r)).to_set();
    vstd::seq_lib::seq_to_set_is_finite(records.map_values(|r: SessionView| root_in(records, r)));
    assert forall|x: u128| root_set(records).contains(x) implies all.contains(x) by {
        let i = choose|i: int| 0 <= i < records.len() && root_in(records, records[i]) == x && carried(records, x);
        assert(records.map_values(|r: SessionView| root_in(records, r))[i] == x);
    }
    vstd::set_lib::lemma_set_subset_finite(all, root_set(records));
}

/// A finite set laid out as a sequence holds each of its values once.
proof fn lemma_to_seq_no_duplicates(set: Set<u128>)
    requires
        set.finite(),
    ensures
        set.to_seq().no_duplicates(),
        set.to_seq().to_set() == set,
    decreases set.len(),
{
    set.lemma_to_seq_to_set_id();
    if set.len() > 0 {
        let x = set.choose();
        let rest = set.remove(x);
        lemma_to_seq_no_duplicates(rest);
        let tail = rest.to_seq();
        let whole = Seq::<u128>::empty().push(x) + tail;
        assert(set.to_seq() == whole);
        assert(!tail.contains(x)) by {
            if tail.contains(x) {
                assert(tail.to_set().contains(x));
            }
        }
        assert forall|i: int, j: int| 0 <= i < whole.len() && 0 <= j < whole.len() && i != j implies whole[i] != whole[j] by {
            if i == 0 {
                assert(whole[j] == tail[j - 1]);
                assert(tail.contains(tail[j - 1]));
            } else if j == 0 {
                assert(whole[i] == tail[i - 1]);
                assert(tail.contains(tail[i - 1]));
            } else {
                assert(whole[i] == tail[i - 1] && whole[j] == tail[j - 1]);
            }
        }
    }
}

/// The roots of the chains whose first record is here can be laid out from the smallest up, so
/// that is how they are taken.
proof fn lemma_chain_roots(records: Seq<SessionView>)
    ensures
        increasing(chain_roots(records)),
        chain_roots(records).to_set() == root_set(records),
{
    broadcast use vstd::seq_lib::group_to_multiset_ensures;

    let set = root_set(records);
    lemma_root_set_finite(records);
    lemma_to_seq_no_duplicates(set);
    let plain = set.to_seq();
    let leq = |a: u128, b: u128| a <= b;
    assert(vstd::relations::total_ordering(leq));
    plain.lemma_sort_by_ensures(leq);
    let sorted = plain.sort_by(leq);
    plain.lemma_multiset_has_no_duplicates();
    sorted.lemma_multiset_has_no_duplicates_conv();
    assert forall|i: int, j: int| 0 <= i < j < sorted.len() implies sorted[i] < sorted[j] by {
        assert(leq(sorted[i], sorted[j]));
    }
    assert forall|x: u128| sorted.to_set().contains(x) <==> set.contains(x) by {
        assert(sorted.contains(x) <==> sorted.to_multiset().count(x) > 0);
        assert(plain.contains(x) <==> plain.to_multiset().count(x) > 0);
        assert(plain.to_set().contains(x) <==> plain.contains(x));
    }
    assert(sorted.to_set() =~= set);
    assert(increasing(sorted) && sorted.to_set() == set);
}

/// The record that counts in a chain that is not empty is one of its records.
proof fn lemma_newest_is_in_chain(c: Seq<SessionView>, n: int)
    requires
        0 < n <= c.len(),
    ensures
        newest_upto(c, n) is Some,
        exists|i: int| 0 <= i < n && c[i] == newest_upto(c, n).unwrap(),
    decreases n,
{
    if n > 1 {
        lemma_newest_is_in_chain(c, n - 1);
        let best = newest_upto(c, n - 1).unwrap();
        let i = choose|i: int| 0 <= i < n - 1 && c[i] == best;
        if above(best, c[n - 1]) {
            assert(c[i] == newest_upto(c, n).unwrap());
        } else {
            assert(c[n - 1] == newest_upto(c, n).unwrap());
        }
    } else {
        assert(c[0] == newest_upto(c, n).unwrap());
    }
}

/// The first `n` records of a chain are records whose chain starts there.
proof fn lemma_chain_members(records: Seq<SessionView>, root: u128, n: int)
    requires
        0 <= n <= records.len(),
    ensures
        forall|r: SessionView| #[trigger] chain_upto(records, root, n).contains(r) ==> root_in(records, r) == root,
        forall|i: int| 0 <= i < n && root_in(records, records[i]) == root ==> chain_upto(records, root, n).contains(
            #[trigger] records[i],
        ),
    decreases n,
{
    if n > 0 {
        lemma_chain_members(records, root, n - 1);
        let before = chain_upto(records, root, n - 1);
        if root_in(records, records[n - 1]) == root {
            let now = before.push(records[n - 1]);
            assert forall|r: SessionView| #[trigger] now.contains(r) implies root_in(records, r) == root by {
                let i = choose|i: int| 0 <= i < now.len() && now[i] == r;
                if i < before.len() {
                    assert(before.contains(before[i]));
                }
            }
            assert forall|i: int| 0 <= i < n && root_in(records, records[i]) == root implies now.contains(
                #[trigger] records[i],
            ) by {
                if i < n - 1 {
                    let k = choose|k: int| 0 <= k < before.len() && before[k] == records[i];
                    assert(now[k] == records[i]);
                } else {
                    assert(now[before.len() as int] == records[i]);
                }
            }
        }
    }
}

/// The chain of a root whose first record is here has a record that counts, and that record
/// belongs to the chain.
proof fn lemma_winner(records: Seq<SessionView>, root: u128)
    requires
        root_set(records).contains(root),
    ensures
        newest(chain(records, root)) is Some,
        root_in(records, newest(chain(records, root)).unwrap()) == root,
{
    let i = choose|i: int| 0 <= i < records.len() && root_in(records, records[i]) == root && carried(records, root);
    lemma_chain_members(records, root, records.len() as int);
    let c = chain(records, root);
    assert(c.contains(records[i]));
    lemma_newest_is_in_chain(c, c.len() as int);
    let j = choose|j: int| 0 <= j < c.len() && c[j] == newest(c).unwrap();
    assert(c.contains(c[j]));
}

/// The sessions of the chains of the first `n` roots are the records that count in them and
/// void nothing, in the order of their roots.
proof fn lemma_sessions(records: Seq<SessionView>, roots: Seq<u128>, n: int)
    requires
        0 <= n <= roots.len(),
        increasing(roots),
        forall|j: int| 0 <= j < roots.len() ==> root_set(records).contains(#[trigger] roots[j]),
    ensures
        forall|r: SessionView| #[trigger] sessions_upto(records, roots, n).contains(r) <==> exists|j: int|
            0 <= j < n && newest(chain(records, roots[j])) == Some(r) && r.voids is None,
        forall|i: int, k: int| 0 <= i < k < sessions_upto(records, roots, n).len() ==> root_in(
            records,
            #[trigger] sessions_upto(records, roots, n)[i],
        ) < root_in(records, #[trigger] sessions_upto(records, roots, n)[k]),
        forall|i: int| 0 <= i < sessions_upto(records, roots, n).len() ==> exists|j: int|
            0 <= j < n && root_in(records, #[trigger] sessions_upto(records, roots, n)[i]) == roots[j],
    decreases n,
{
    if n > 0 {
        lemma_sessions(records, roots, n - 1);
        let before = sessions_upto(records, roots, n - 1);
        let x = roots[n - 1];
        lemma_winner(records, x);
        let w = newest(chain(records, x)).unwrap();
        if w.voids is None {
            let now = before.push(w);
            assert forall|r: SessionView| #[trigger] now.contains(r) <==> exists|j: int|
                0 <= j < n && newest(chain(records, roots[j])) == Some(r) && r.voids is None by {
                if now.contains(r) {
                    let i = choose|i: int| 0 <= i < now.len() && now[i] == r;
                    if i < before.len() {
                        assert(before.contains(before[i]));
                    } else {
                        assert(newest(chain(records, roots[n - 1])) == Some(r));
                    }
                }
                if exists|j: int| 0 <= j < n && newest(chain(records, roots[j])) == Some(r) && r.voids is None {
                    let j = choose|j: int| 0 <= j < n && newest(chain(records, roots[j])) == Some(r) && r.voids is None;
                    if j < n - 1 {
                        assert(before.contains(r));
                        let i = choose|i: int| 0 <= i < before.len() && before[i] == r;
                        assert(now[i] == r);
                    } else {
                        assert(now[before.len() as int] == r);
                    }
                }
            }
            assert forall|i: int, k: int| 0 <= i < k < now.len() implies root_in(records, #[trigger] now[i]) < root_in(
                records,
                #[trigger] now[k],
            ) by {
                if k < before.len() {
                    assert(now[i] == before[i] && now[k] == before[k]);
                } else {
                    assert(now[i] == before[i]);
                    let j = choose|j: int| 0 <= j < n - 1 && root_in(records, before[i]) == roots[j];
                }
            }
            assert forall|i: int| 0 <= i < now.len() implies exists|j: int|
                0 <= j < n && root_in(records, #[trigger] now[i]) == roots[j] by {
                if i < before.len() {
                    assert(now[i] == before[i]);
                    let j = choose|j: int| 0 <= j < n - 1 && root_in(records, before[i]) == roots[j];
                } else {
                    assert(root_in(records, now[i]) == roots[n - 1]);
                }
            }
        } else {
            assert forall|r: SessionView| #[trigger] before.contains(r) <==> exists|j: int|
                0 <= j < n && newest(chain(records, roots[j])) == Some(r) && r.voids is None by {
                if exists|j: int| 0 <= j < n && newest(chain(records, roots[j])) == Some(r) && r.voids is None {
                    let j = choose|j: int| 0 <= j < n && newest(chain(records, roots[j])) == Some(r) && r.voids is None;
                    if j == n - 1 {
                        assert(r == w);
                    }
                }
            }
            assert forall|i: int| 0 <= i < before.len() implies exists|j: int|
                0 <= j < n && root_in(records, #[trigger] before[i]) == roots[j] by {
                let j = choose|j: int| 0 <= j < n - 1 && root_in(records, before[i]) == roots[j];
            }
        }
    }
}

/// What the chains of the first `n` roots put among the voided: for each chain whose record
/// that counts voids, the highest record of it that voids nothing, when it has one.
proof fn lemma_voided(records: Seq<SessionView>, roots: Seq<u128>, n: int)
    requires
        0 <= n <= roots.len(),
    ensures
        forall|r: SessionView| #[trigger] voided_upto(records, roots, n).contains(r) <==> exists|j: int|
            0 <= j < n && newest(chain(records, roots[j])) is Some && newest(chain(records, roots[j])).unwrap().voids is Some
                && newest(kept(chain(records, roots[j]))) == Some(r),
    decreases n,
{
    if n > 0 {
        lemma_voided(records, roots, n - 1);
        let before = voided_upto(records, roots, n - 1);
        let c = chain(records, roots[n - 1]);
        let adds = newest(c) is Some && newest(c).unwrap().voids is Some && newest(kept(c)) is Some;
        if adds {
            let last = newest(kept(c)).unwrap();
            let now = before.push(last);
            assert(voided_upto(records, roots, n) == now);
            assert forall|r: SessionView| #[trigger] now.contains(r) <==> exists|j: int|
                0 <= j < n && newest(chain(records, roots[j])) is Some && newest(chain(records, roots[j])).unwrap().voids
                    is Some && newest(kept(chain(records, roots[j]))) == Some(r) by {
                if now.contains(r) {
                    let i = choose|i: int| 0 <= i < now.len() && now[i] == r;
                    if i < before.len() {
                        assert(before.contains(before[i]));
                    }
                }
                if exists|j: int|
                    0 <= j < n && newest(chain(records, roots[j])) is Some && newest(chain(records, roots[j])).unwrap().voids
                        is Some && newest(kept(chain(records, roots[j]))) == Some(r) {
                    let j = choose|j: int|
                        0 <= j < n && newest(chain(records, roots[j])) is Some && newest(
                            chain(records, roots[j]),
                        ).unwrap().voids is Some && newest(kept(chain(records, roots[j]))) == Some(r);
                    if j < n - 1 {
                        assert(before.contains(r));
                        let k = choose|k: int| 0 <= k < before.len() && before[k] == r;
                        assert(now[k] == r);
                    } else {
                        assert(now[before.len() as int] == r);
                    }
                }
            }
        } else {
            assert(voided_upto(records, roots, n) == before);
        }
    }
}

/// The forked chains among the first `n` roots, and how many warnings they give.
proof fn lemma_forks(records: Seq<SessionView>, roots: Seq<u128>, n: int)
    requires
        0 <= n <= roots.len(),
    ensures
        forall|id: Id| #[trigger] forks_upto(records, roots, n).contains(id) <==> exists|j: int|
            0 <= j < n && forked(records, roots[j]) && Id::of(roots[j]) == id,
        fork_notes_upto(records, roots, n).len() == forks_upto(records, roots, n).len(),
    decreases n,
{
    if n > 0 {
        lemma_forks(records, roots, n - 1);
        let before = forks_upto(records, roots, n - 1);
        if forked(records, roots[n - 1]) {
            let now = before.push(Id::of(roots[n - 1]));
            assert forall|id: Id| #[trigger] now.contains(id) <==> exists|j: int|
                0 <= j < n && forked(records, roots[j]) && Id::of(roots[j]) == id by {
                if now.contains(id) {
                    let i = choose|i: int| 0 <= i < now.len() && now[i] == id;
                    if i < before.len() {
                        assert(before.contains(before[i]));
                    }
                }
                if exists|j: int| 0 <= j < n && forked(records, roots[j]) && Id::of(roots[j]) == id {
                    let j = choose|j: int| 0 <= j < n && forked(records, roots[j]) && Id::of(roots[j]) == id;
                    if j < n - 1 {
                        assert(before.contains(id));
                        let i = choose|i: int| 0 <= i < before.len() && before[i] == id;
                        assert(now[i] == id);
                    } else {
                        assert(now[before.len() as int] == id);
                    }
                }
            }
        }
    }
}

/// The orphans among the first `n` records, and how many warnings they give.
proof fn lemma_orphans(records: Seq<SessionView>, n: int)
    requires
        0 <= n <= records.len(),
    ensures
        forall|r: SessionView| #[trigger] orphans_upto(records, n).contains(r) <==> exists|i: int|
            0 <= i < n && records[i] == r && is_orphan(records, r),
        orphan_notes_upto(records, n).len() == orphans_upto(records, n).len(),
    decreases n,
{
    if n > 0 {
        lemma_orphans(records, n - 1);
        let before = orphans_upto(records, n - 1);
        if is_orphan(records, records[n - 1]) {
            let now = before.push(records[n - 1]);
            assert forall|r: SessionView| #[trigger] now.contains(r) <==> exists|i: int|
                0 <= i < n && records[i] == r && is_orphan(records, r) by {
                if now.contains(r) {
                    let i = choose|i: int| 0 <= i < now.len() && now[i] == r;
                    if i < before.len() {
                        assert(before.contains(before[i]));
                    }
                }
                if exists|i: int| 0 <= i < n && records[i] == r && is_orphan(records, r) {
                    let i = choose|i: int| 0 <= i < n && records[i] == r && is_orphan(records, r);
                    if i < n - 1 {
                        assert(before.contains(r));
                        let k = choose|k: int| 0 <= k < before.len() && before[k] == r;
                        assert(now[k] == r);
                    } else {
                        assert(now[before.len() as int] == r);
                    }
                }
            }
        }
    }
}

/// How records resolve. A record whose chain starts at a record that is not here is an orphan,
/// with one warning. Every other chain has a record that counts, the highest by revision, then
/// write, then identifier: it is shown when it voids nothing, and the shown sessions come in
/// the order of the identifiers their chains start at; when it voids, the highest record of the
/// chain that voids nothing, if there is one, goes among the voided, and nothing else does; a
/// chain is forked, with one warning, exactly when two of its records claim the revision of the
/// one that counts.
pub proof fn law_how_records_resolve(records: Seq<SessionView>)
    ensures
        forall|r: SessionView| #[trigger] resolution_of(records).orphans.contains(r) <==> (records.contains(r)
            && !carried(records, root_in(records, r))),
        forall|root: u128| #[trigger] root_set(records).contains(root) ==> newest(chain(records, root)) is Some
            && root_in(records, newest(chain(records, root)).unwrap()) == root && (resolution_of(records).sessions.contains(
            newest(chain(records, root)).unwrap(),
        ) <==> newest(chain(records, root)).unwrap().voids is None),
        forall|r: SessionView| #[trigger] resolution_of(records).sessions.contains(r) ==> root_set(records).contains(
            root_in(records, r),
        ) && newest(chain(records, root_in(records, r))) == Some(r) && r.voids is None,
        forall|i: int, k: int| 0 <= i < k < resolution_of(records).sessions.len() ==> root_in(
            records,
            #[trigger] resolution_of(records).sessions[i],
        ) < root_in(records, #[trigger] resolution_of(records).sessions[k]),
        forall|root: u128| #[trigger] root_set(records).contains(root) ==> (resolution_of(records).forks.contains(
            Id::of(root),
        ) <==> forked(records, root)),
        resolution_of(records).diagnostics.len() == resolution_of(records).orphans.len() + resolution_of(
            records,
        ).forks.len(),
        forall|root: u128| #[trigger] root_set(records).contains(root) ==> (newest(chain(records, root)).unwrap().voids
            is Some && newest(kept(chain(records, root))) is Some ==> resolution_of(records).voided.contains(
            newest(kept(chain(records, root))).unwrap(),
        )),
        forall|r: SessionView| #[trigger] resolution_of(records).voided.contains(r) ==> exists|root: u128|
            #[trigger] root_set(records).contains(root) && newest(chain(records, root)) is Some && newest(
                chain(records, root),
            ).unwrap().voids is Some && newest(kept(chain(records, root))) == Some(r),
{
    let roots = chain_roots(records);
    lemma_chain_roots(records);
    assert forall|j: int| 0 <= j < roots.len() implies root_set(records).contains(#[trigger] roots[j]) by {
        assert(roots.to_set().contains(roots[j]));
    }
    lemma_sessions(records, roots, roots.len() as int);
    lemma_forks(records, roots, roots.len() as int);
    lemma_orphans(records, records.len() as int);
    lemma_voided(records, roots, roots.len() as int);
    let res = resolution_of(records);
    assert forall|root: u128| #[trigger] root_set(records).contains(root) implies (newest(chain(records, root)).unwrap().voids
        is Some && newest(kept(chain(records, root))) is Some ==> res.voided.contains(
        newest(kept(chain(records, root))).unwrap(),
    )) by {
        lemma_winner(records, root);
        assert(roots.to_set().contains(root));
        let j = choose|j: int| 0 <= j < roots.len() && roots[j] == root;
        if newest(chain(records, root)).unwrap().voids is Some && newest(kept(chain(records, root))) is Some {
            assert(res.voided.contains(newest(kept(chain(records, roots[j]))).unwrap()));
        }
    }
    assert forall|r: SessionView| #[trigger] res.voided.contains(r) implies exists|root: u128|
        #[trigger] root_set(records).contains(root) && newest(chain(records, root)) is Some && newest(
            chain(records, root),
        ).unwrap().voids is Some && newest(kept(chain(records, root))) == Some(r) by {
        let j = choose|j: int|
            0 <= j < roots.len() && newest(chain(records, roots[j])) is Some && newest(chain(records, roots[j])).unwrap().voids
                is Some && newest(kept(chain(records, roots[j]))) == Some(r);
        assert(root_set(records).contains(roots[j]));
    }
    assert forall|r: SessionView| #[trigger] res.orphans.contains(r) <==> (records.contains(r) && !carried(
        records,
        root_in(records, r),
    )) by {
        if records.contains(r) && !carried(records, root_in(records, r)) {
            let i = choose|i: int| 0 <= i < records.len() && records[i] == r;
            assert(is_orphan(records, r));
        }
    }
    assert forall|root: u128| #[trigger] root_set(records).contains(root) implies newest(chain(records, root)) is Some
        && root_in(records, newest(chain(records, root)).unwrap()) == root && (res.sessions.contains(
        newest(chain(records, root)).unwrap(),
    ) <==> newest(chain(records, root)).unwrap().voids is None) by {
        lemma_winner(records, root);
        let w = newest(chain(records, root)).unwrap();
        assert(roots.to_set().contains(root));
        let j = choose|j: int| 0 <= j < roots.len() && roots[j] == root;
        if res.sessions.contains(w) {
            let m = choose|m: int| 0 <= m < roots.len() && newest(chain(records, roots[m])) == Some(w) && w.voids is None;
        }
    }
    assert forall|r: SessionView| #[trigger] res.sessions.contains(r) implies root_set(records).contains(root_in(records, r))
        && newest(chain(records, root_in(records, r))) == Some(r) && r.voids is None by {
        let m = choose|m: int| 0 <= m < roots.len() && newest(chain(records, roots[m])) == Some(r) && r.voids is None;
        lemma_winner(records, roots[m]);
    }
    assert forall|root: u128| #[trigger] root_set(records).contains(root) implies (res.forks.contains(Id::of(root))
        <==> forked(records, root)) by {
        assert(roots.to_set().contains(root));
        let j = choose|j: int| 0 <= j < roots.len() && roots[j] == root;
        if res.forks.contains(Id::of(root)) {
            let m = choose|m: int| 0 <= m < roots.len() && forked(records, roots[m]) && Id::of(roots[m]) == Id::of(root);
            Id::of(root).lemma_value(roots[m]);
            Id::of(roots[m]).lemma_value(roots[m]);
            Id::of(root).lemma_value(root);
        }
    }
}

/// No record among the first `n` of a chain counts over the one that counts there.
proof fn lemma_nothing_above_the_newest(c: Seq<SessionView>, n: int)
    requires
        0 < n <= c.len(),
    ensures
        forall|i: int| 0 <= i < n ==> !above(#[trigger] c[i], newest_upto(c, n).unwrap()),
    decreases n,
{
    if n > 1 {
        lemma_nothing_above_the_newest(c, n - 1);
    }
}

/// The record that counts in a chain is the highest of it: no record of the chain has a higher
/// revision, or the same revision written later, or the same revision and write with a larger
/// identifier.
pub proof fn law_the_record_that_counts_is_the_highest(records: Seq<SessionView>, root: u128)
    ensures
        forall|i: int| 0 <= i < chain(records, root).len() ==> !above(
            #[trigger] chain(records, root)[i],
            newest(chain(records, root)).unwrap(),
        ),
{
    let c = chain(records, root);
    if c.len() > 0 {
        lemma_nothing_above_the_newest(c, c.len() as int);
    }
}

} // verus!
