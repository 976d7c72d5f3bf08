//! Deterministic ordering of group output.
//!
//! Group results are sorted descending by the primary metric (count or
//! sum), with ties broken by ascending lexicographic key order, so equal
//! inputs always produce byte-identical group output.

use vstd::prelude::*;
use vstd::multiset::Multiset;

use crate::groupmap::{gc_count, gc_has_key, gc_keys_unique, GroupCount, GroupAgg};

verus! {

/// Lexicographic byte order: `a` at or before `b`.
pub open spec fn lex_le(a: Seq<u8>, b: Seq<u8>) -> bool
    decreases a.len(),
{
    if a.len() == 0 {
        true
    } else if b.len() == 0 {
        false
    } else if a[0] < b[0] {
        true
    } else if a[0] > b[0] {
        false
    } else {
        lex_le(a.drop_first(), b.drop_first())
    }
}

/// Lexicographic order is reflexive.
pub proof fn lemma_lex_le_refl(a: Seq<u8>)
    ensures
        lex_le(a, a),
    decreases a.len(),
{
    if a.len() > 0 {
        lemma_lex_le_refl(a.drop_first());
    }
}

/// Lexicographic order is total.
pub proof fn lemma_lex_le_total(a: Seq<u8>, b: Seq<u8>)
    ensures
        lex_le(a, b) || lex_le(b, a),
    decreases a.len(),
{
    if a.len() > 0 && b.len() > 0 && a[0] == b[0] {
        lemma_lex_le_total(a.drop_first(), b.drop_first());
    }
}

/// Lexicographic order is transitive.
pub proof fn lemma_lex_le_trans(a: Seq<u8>, b: Seq<u8>, c: Seq<u8>)
    requires
        lex_le(a, b),
        lex_le(b, c),
    ensures
        lex_le(a, c),
    decreases a.len(),
{
    if a.len() > 0 && b.len() > 0 && c.len() > 0 && a[0] == b[0] && b[0] == c[0] {
        lemma_lex_le_trans(a.drop_first(), b.drop_first(), c.drop_first());
    }
}

/// Compare two byte keys lexicographically.
pub fn bytes_lex_le(a: &[u8], b: &[u8]) -> (r: bool)
    ensures
        r == lex_le(a@, b@),
{
    let mut i: usize = 0;
    let alen = a.len();
    let blen = b.len();
    proof {
        assert(a@.skip(0) =~= a@);
        assert(b@.skip(0) =~= b@);
    }
    while i < alen && i < blen
        invariant
            alen == a@.len(),
            blen == b@.len(),
            i <= alen,
            i <= blen,
            lex_le(a@, b@) == lex_le(a@.skip(i as int), b@.skip(i as int)),
            forall|j: int| 0 <= j < i ==> a@[j] == b@[j],
        decreases alen - i,
    {
        let x = a[i];
        let y = b[i];
        proof {
            let sa = a@.skip(i as int);
            let sb = b@.skip(i as int);
            assert(sa[0] == a@[i as int]);
            assert(sb[0] == b@[i as int]);
            assert(sa.drop_first() =~= a@.skip(i + 1));
            assert(sb.drop_first() =~= b@.skip(i + 1));
        }
        if x < y {
            return true;
        }
        if x > y {
            return false;
        }
        i += 1;
    }
    proof {
        let sa = a@.skip(i as int);
        let sb = b@.skip(i as int);
        if i == alen {
            assert(sa.len() == 0);
        } else {
            assert(sb.len() == 0);
            assert(sa.len() > 0);
        }
    }
    alen <= blen
}

/// Count order: greater counts first, ties by ascending key.
pub open spec fn gc_before(a: GroupCount, b: GroupCount) -> bool {
    a.count > b.count || (a.count == b.count && lex_le(a.key@, b.key@))
}

/// Sum order: greater sums first, ties by ascending key.
pub open spec fn ga_before(a: GroupAgg, b: GroupAgg) -> bool {
    a.agg.sum > b.agg.sum || (a.agg.sum == b.agg.sum && lex_le(a.key@, b.key@))
}

/// Sorted by the count order.
pub open spec fn gc_sorted(es: Seq<GroupCount>) -> bool {
    forall|i: int, j: int| 0 <= i < j < es.len() ==> gc_before(es[i], es[j])
}

/// Sorted by the sum order.
pub open spec fn ga_sorted(es: Seq<GroupAgg>) -> bool {
    forall|i: int, j: int| 0 <= i < j < es.len() ==> ga_before(es[i], es[j])
}

fn gc_before_exec(a: &GroupCount, b: &GroupCount) -> (r: bool)
    ensures
        r == gc_before(*a, *b),
{
    if a.count > b.count {
        true
    } else if a.count == b.count {
        bytes_lex_le(a.key.as_slice(), b.key.as_slice())
    } else {
        false
    }
}

fn ga_before_exec(a: &GroupAgg, b: &GroupAgg) -> (r: bool)
    ensures
        r == ga_before(*a, *b),
{
    if a.agg.sum > b.agg.sum {
        true
    } else if a.agg.sum == b.agg.sum {
        bytes_lex_le(a.key.as_slice(), b.key.as_slice())
    } else {
        false
    }
}

proof fn lemma_gc_before_total(a: GroupCount, b: GroupCount)
    ensures
        gc_before(a, b) || gc_before(b, a),
{
    lemma_lex_le_total(a.key@, b.key@);
}

proof fn lemma_gc_before_trans(a: GroupCount, b: GroupCount, c: GroupCount)
    requires
        gc_before(a, b),
        gc_before(b, c),
    ensures
        gc_before(a, c),
{
    if a.count == b.count && b.count == c.count {
        lemma_lex_le_trans(a.key@, b.key@, c.key@);
    }
}

proof fn lemma_ga_before_total(a: GroupAgg, b: GroupAgg)
    ensures
        ga_before(a, b) || ga_before(b, a),
{
    lemma_lex_le_total(a.key@, b.key@);
}

proof fn lemma_ga_before_trans(a: GroupAgg, b: GroupAgg, c: GroupAgg)
    requires
        ga_before(a, b),
        ga_before(b, c),
    ensures
        ga_before(a, c),
{
    if a.agg.sum == b.agg.sum && b.agg.sum == c.agg.sum {
        lemma_lex_le_trans(a.key@, b.key@, c.key@);
    }
}

/// Sort count entries descending by count, ties by ascending key.
pub fn sort_group_counts(src: Vec<GroupCount>) -> (r: Vec<GroupCount>)
    ensures
        gc_sorted(r@),
        r@.to_multiset() == src@.to_multiset(),
{
    broadcast use vstd::seq_lib::group_to_multiset_ensures;

    let mut rest = src;
    let mut out: Vec<GroupCount> = Vec::new();
    proof {
        assert(out@.to_multiset().add(rest@.to_multiset()) =~= src@.to_multiset());
    }
    while rest.len() > 0
        invariant
            gc_sorted(out@),
            out@.to_multiset().add(rest@.to_multiset()) == src@.to_multiset(),
            forall|i: int, j: int|
                0 <= i < out@.len() && 0 <= j < rest@.len() ==> gc_before(out@[i], rest@[j]),
        decreases rest@.len(),
    {
        let n = rest.len();
        let mut best: usize = 0;
        let mut t: usize = 1;
        proof {
            lemma_lex_le_refl(rest@[0].key@);
        }
        while t < n
            invariant
                n == rest@.len(),
                best < n,
                t <= n,
                forall|idx: int| 0 <= idx < t ==> gc_before(rest@[best as int], rest@[idx]),
            decreases n - t,
        {
            if !gc_before_exec(&rest[best], &rest[t]) {
                proof {
                    lemma_gc_before_total(rest@[best as int], rest@[t as int]);
                    assert forall|idx: int| 0 <= idx < t + 1 implies gc_before(
                        rest@[t as int],
                        rest@[idx],
                    ) by {
                        if idx < t {
                            lemma_gc_before_trans(rest@[t as int], rest@[best as int], rest@[idx]);
                        } else {
                            lemma_lex_le_refl(rest@[t as int].key@);
                        }
                    }
                }
                best = t;
            }
            t += 1;
        }
        let ghost pre = rest@;
        let e = rest.remove(best);
        proof {
            broadcast use vstd::seq_lib::group_to_multiset_ensures;

            assert(e == pre[best as int]);
            assert(rest@ == pre.remove(best as int));
            assert(rest@.to_multiset() =~= pre.to_multiset().remove(e));
            assert(pre.contains(e));
            assert(pre.to_multiset().count(e) >= 1);
            assert(out@.push(e).to_multiset() =~= out@.to_multiset().insert(e));
            assert(out@.push(e).to_multiset().add(rest@.to_multiset()) =~= src@.to_multiset());
            assert forall|i: int, j: int|
                0 <= i < out@.push(e).len() && 0 <= j < rest@.len() implies gc_before(
                out@.push(e)[i],
                rest@[j],
            ) by {
                assert(rest@[j] == pre[if j < best as int {
                    j
                } else {
                    j + 1
                }]);
                if i < out@.len() {
                } else {
                    assert(out@.push(e)[i] == e);
                }
            }
            assert forall|i: int, j: int|
                0 <= i < j < out@.push(e).len() implies gc_before(out@.push(e)[i], out@.push(e)[j])
            by {
                if j == out@.len() {
                    assert(out@.push(e)[j] == e);
                    assert(gc_before(out@[i], pre[best as int]));
                }
            }
        }
        out.push(e);
    }
    proof {
        broadcast use vstd::seq_lib::group_to_multiset_ensures;

        assert(rest@.to_multiset() =~= Multiset::<GroupCount>::empty());
        assert(out@.to_multiset().add(Multiset::<GroupCount>::empty()) =~= out@.to_multiset());
    }
    out
}

/// Sort aggregate entries descending by sum, ties by ascending key.
pub fn sort_group_aggs(src: Vec<GroupAgg>) -> (r: Vec<GroupAgg>)
    ensures
        ga_sorted(r@),
        r@.to_multiset() == src@.to_multiset(),
{
    broadcast use vstd::seq_lib::group_to_multiset_ensures;

    let mut rest = src;
    let mut out: Vec<GroupAgg> = Vec::new();
    proof {
        assert(out@.to_multiset().add(rest@.to_multiset()) =~= src@.to_multiset());
    }
    while rest.len() > 0
        invariant
            ga_sorted(out@),
            out@.to_multiset().add(rest@.to_multiset()) == src@.to_multiset(),
            forall|i: int, j: int|
                0 <= i < out@.len() && 0 <= j < rest@.len() ==> ga_before(out@[i], rest@[j]),
        decreases rest@.len(),
    {
        let n = rest.len();
        let mut best: usize = 0;
        let mut t: usize = 1;
        proof {
            lemma_lex_le_refl(rest@[0].key@);
        }
        while t < n
            invariant
                n == rest@.len(),
                best < n,
                t <= n,
                forall|idx: int| 0 <= idx < t ==> ga_before(rest@[best as int], rest@[idx]),
            decreases n - t,
        {
            if !ga_before_exec(&rest[best], &rest[t]) {
                proof {
                    lemma_ga_before_total(rest@[best as int], rest@[t as int]);
                    assert forall|idx: int| 0 <= idx < t + 1 implies ga_before(
                        rest@[t as int],
                        rest@[idx],
                    ) by {
                        if idx < t {
                            lemma_ga_before_trans(rest@[t as int], rest@[best as int], rest@[idx]);
                        } else {
                            lemma_lex_le_refl(rest@[t as int].key@);
                        }
                    }
                }
                best = t;
            }
            t += 1;
        }
        let ghost pre = rest@;
        let e = rest.remove(best);
        proof {
            broadcast use vstd::seq_lib::group_to_multiset_ensures;

            assert(e == pre[best as int]);
            assert(rest@ == pre.remove(best as int));
            assert(rest@.to_multiset() =~= pre.to_multiset().remove(e));
            assert(pre.contains(e));
            assert(pre.to_multiset().count(e) >= 1);
            assert(out@.push(e).to_multiset() =~= out@.to_multiset().insert(e));
            assert(out@.push(e).to_multiset().add(rest@.to_multiset()) =~= src@.to_multiset());
            assert forall|i: int, j: int|
                0 <= i < out@.push(e).len() && 0 <= j < rest@.len() implies ga_before(
                out@.push(e)[i],
                rest@[j],
            ) by {
                assert(rest@[j] == pre[if j < best as int {
                    j
                } else {
                    j + 1
                }]);
                if i < out@.len() {
                } else {
                    assert(out@.push(e)[i] == e);
                }
            }
            assert forall|i: int, j: int|
                0 <= i < j < out@.push(e).len() implies ga_before(out@.push(e)[i], out@.push(e)[j])
            by {
                if j == out@.len() {
                    assert(out@.push(e)[j] == e);
                    assert(ga_before(out@[i], pre[best as int]));
                }
            }
        }
        out.push(e);
    }
    proof {
        broadcast use vstd::seq_lib::group_to_multiset_ensures;

        assert(rest@.to_multiset() =~= Multiset::<GroupAgg>::empty());
        assert(out@.to_multiset().add(Multiset::<GroupAgg>::empty()) =~= out@.to_multiset());
    }
    out
}

/// A permutation of a map with unique keys keeps the keys unique, keeps
/// every entry, and holds exactly the same keys.
pub proof fn lemma_gc_permutation(a: Seq<GroupCount>, b: Seq<GroupCount>)
    requires
        a.to_multiset() == b.to_multiset(),
        gc_keys_unique(a),
    ensures
        gc_keys_unique(b),
        forall|i: int| 0 <= i < b.len() ==> #[trigger] a.contains(b[i]),
        forall|k: Seq<u8>| #[trigger] gc_has_key(b, k) == gc_has_key(a, k),
{
    broadcast use vstd::seq_lib::group_to_multiset_ensures;

    assert forall|i: int| 0 <= i < b.len() implies #[trigger] a.contains(b[i]) by {
        assert(b.to_multiset().count(b[i]) > 0);
    }
    assert forall|i: int, j: int| 0 <= i < j < b.len() implies b[i].key@ != b[j].key@ by {
        if b[i] == b[j] {
            let x = b[i];
            assert(b.remove(i).to_multiset() =~= b.to_multiset().remove(x));
            assert(b.remove(i)[j - 1] == x);
            assert(b.remove(i).to_multiset().count(x) > 0);
            assert(a.to_multiset().count(x) >= 2);
            let p = choose|p: int| 0 <= p < a.len() && a[p] == x;
            assert(a.remove(p).to_multiset() =~= a.to_multiset().remove(x));
            assert(a.remove(p).to_multiset().count(x) > 0);
            let q = choose|q: int| 0 <= q < a.remove(p).len() && a.remove(p)[q] == x;
            let q2 = if q < p {
                q
            } else {
                q + 1
            };
            assert(a[q2] == x);
            assert(p != q2);
        } else {
            assert(a.contains(b[i]));
            assert(a.contains(b[j]));
            let p = choose|p: int| 0 <= p < a.len() && a[p] == b[i];
            let q = choose|q: int| 0 <= q < a.len() && a[q] == b[j];
            assert(p != q);
        }
    }
    assert forall|k: Seq<u8>| #[trigger] gc_has_key(b, k) == gc_has_key(a, k) by {
        if gc_has_key(b, k) {
            let i = choose|i: int| 0 <= i < b.len() && b[i].key@ == k;
            assert(a.contains(b[i]));
            let p = choose|p: int| 0 <= p < a.len() && a[p] == b[i];
            assert(a[p].key@ == k);
        }
        if gc_has_key(a, k) {
            let i = choose|i: int| 0 <= i < a.len() && a[i].key@ == k;
            assert(a.to_multiset().count(a[i]) > 0);
            assert(b.to_multiset().count(a[i]) > 0);
            assert(b.contains(a[i]));
            let p = choose|p: int| 0 <= p < b.len() && b[p] == a[i];
            assert(b[p].key@ == k);
        }
    }
}


/// Lexicographic order is antisymmetric.
pub proof fn lemma_lex_le_antisym(a: Seq<u8>, b: Seq<u8>)
    requires
        lex_le(a, b),
        lex_le(b, a),
    ensures
        a =~= b,
    decreases a.len(),
{
    if a.len() > 0 && b.len() > 0 && a[0] == b[0] {
        lemma_lex_le_antisym(a.drop_first(), b.drop_first());
        assert(a =~= seq![a[0]] + a.drop_first());
        assert(b =~= seq![b[0]] + b.drop_first());
    }
}

/// A key's count splits off the first entry's contribution.
proof fn lemma_gc_count_drop_first(es: Seq<GroupCount>, k: Seq<u8>)
    requires
        es.len() > 0,
    ensures
        gc_count(es, k) == (if es[0].key@ == k {
            es[0].count as int
        } else {
            0
        }) + gc_count(es.drop_first(), k),
    decreases es.len(),
{
    if es.len() == 1 {
        assert(es.drop_last() =~= Seq::<GroupCount>::empty());
        assert(es.drop_first() =~= Seq::<GroupCount>::empty());
        assert(es.last() == es[0]);
    } else {
        lemma_gc_count_drop_first(es.drop_last(), k);
        assert(es.drop_last().drop_first() =~= es.drop_first().drop_last());
        assert(es.drop_last()[0] == es[0]);
        assert(es.drop_first().last() == es.last());
    }
}

/// With unique keys, each entry's count is positive exactly when the map
/// holds its key, so the key set and the count function pin each entry.
proof fn lemma_gc_has_key_drop_first(es: Seq<GroupCount>, k: Seq<u8>)
    requires
        es.len() > 0,
    ensures
        gc_has_key(es, k) == (es[0].key@ == k || gc_has_key(es.drop_first(), k)),
{
    if gc_has_key(es, k) {
        let i = choose|i: int| 0 <= i < es.len() && es[i].key@ == k;
        if i > 0 {
            assert(es.drop_first()[i - 1].key@ == k);
        }
    }
    if gc_has_key(es.drop_first(), k) {
        let i = choose|i: int| 0 <= i < es.drop_first().len() && es.drop_first()[i].key@ == k;
        assert(es[i + 1].key@ == k);
    }
    if es[0].key@ == k {
        assert(gc_has_key(es, k));
    }
}

/// Group output is pinned: two sorted maps with unique keys holding the
/// same keys with the same counts are the same list, entry for entry.
/// Repeated identical queries therefore yield identical group output.
pub proof fn lemma_group_output_pinned(a: Seq<GroupCount>, b: Seq<GroupCount>)
    requires
        gc_sorted(a),
        gc_keys_unique(a),
        gc_sorted(b),
        gc_keys_unique(b),
        forall|i: int| 0 <= i < a.len() ==> #[trigger] a[i].count >= 1,
        forall|i: int| 0 <= i < b.len() ==> #[trigger] b[i].count >= 1,
        forall|k: Seq<u8>| #[trigger] gc_has_key(a, k) == gc_has_key(b, k),
        forall|k: Seq<u8>| #[trigger] gc_count(a, k) == gc_count(b, k),
    ensures
        a.len() == b.len(),
        forall|i: int|
            0 <= i < a.len() ==> #[trigger] a[i].key@ == b[i].key@ && a[i].count == b[i].count,
    decreases a.len(),
{
    if a.len() == 0 {
        if b.len() > 0 {
            assert(gc_has_key(b, b[0].key@));
            assert(!gc_has_key(a, b[0].key@));
        }
    } else {
        assert(gc_has_key(a, a[0].key@));
        assert(b.len() > 0) by {
            if b.len() == 0 {
                assert(!gc_has_key(b, a[0].key@));
            }
        }
        assert(a[0].key@ == b[0].key@ && a[0].count == b[0].count) by {
            crate::groupmap::lemma_gc_entry_count(a, 0);
            crate::groupmap::lemma_gc_entry_count(b, 0);
            assert(gc_has_key(b, a[0].key@));
            let j = choose|j: int| 0 <= j < b.len() && b[j].key@ == a[0].key@;
            crate::groupmap::lemma_gc_entry_count(b, j);
            assert(b[j].count == a[0].count);
            assert(gc_has_key(a, b[0].key@));
            let i = choose|i: int| 0 <= i < a.len() && a[i].key@ == b[0].key@;
            crate::groupmap::lemma_gc_entry_count(a, i);
            assert(a[i].count == b[0].count);
            if a[0].key@ != b[0].key@ {
                assert(i != 0);
                assert(j != 0);
                assert(gc_before(a[0], a[i]));
                assert(gc_before(b[0], b[j]));
                lemma_lex_le_antisym(a[0].key@, b[0].key@);
            }
        }
        let ta = a.drop_first();
        let tb = b.drop_first();
        assert forall|i: int, j: int| 0 <= i < j < ta.len() implies gc_before(ta[i], ta[j]) by {
            assert(ta[i] == a[i + 1]);
            assert(ta[j] == a[j + 1]);
        }
        assert forall|i: int, j: int| 0 <= i < j < tb.len() implies gc_before(tb[i], tb[j]) by {
            assert(tb[i] == b[i + 1]);
            assert(tb[j] == b[j + 1]);
        }
        assert forall|i: int, j: int| 0 <= i < j < ta.len() implies ta[i].key@ != ta[j].key@ by {
            assert(ta[i] == a[i + 1]);
            assert(ta[j] == a[j + 1]);
        }
        assert forall|i: int, j: int| 0 <= i < j < tb.len() implies tb[i].key@ != tb[j].key@ by {
            assert(tb[i] == b[i + 1]);
            assert(tb[j] == b[j + 1]);
        }
        assert forall|i: int| 0 <= i < ta.len() implies #[trigger] ta[i].count >= 1 by {
            assert(ta[i] == a[i + 1]);
        }
        assert forall|i: int| 0 <= i < tb.len() implies #[trigger] tb[i].count >= 1 by {
            assert(tb[i] == b[i + 1]);
        }
        assert forall|k: Seq<u8>| #[trigger] gc_has_key(ta, k) == gc_has_key(tb, k) by {
            lemma_gc_has_key_drop_first(a, k);
            lemma_gc_has_key_drop_first(b, k);
            if k == a[0].key@ {
                if gc_has_key(ta, k) {
                    let i = choose|i: int| 0 <= i < ta.len() && ta[i].key@ == k;
                    assert(a[i + 1].key@ == a[0].key@);
                    assert(false);
                }
                if gc_has_key(tb, k) {
                    let i = choose|i: int| 0 <= i < tb.len() && tb[i].key@ == k;
                    assert(b[i + 1].key@ == b[0].key@);
                    assert(false);
                }
            }
        }
        assert forall|k: Seq<u8>| #[trigger] gc_count(ta, k) == gc_count(tb, k) by {
            lemma_gc_count_drop_first(a, k);
            lemma_gc_count_drop_first(b, k);
        }
        lemma_group_output_pinned(ta, tb);
        assert forall|i: int|
            0 <= i < a.len() implies #[trigger] a[i].key@ == b[i].key@ && a[i].count == b[i].count
        by {
            if i > 0 {
                assert(ta[i - 1] == a[i]);
                assert(tb[i - 1] == b[i]);
            }
        }
    }
}

} // verus!
