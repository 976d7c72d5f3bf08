//! Per-chunk group maps and their deterministic ordering.
//!
//! A scan groups lines by an owned key and folds a count or a numeric
//! aggregate per key.  The map is an association vector with unique keys;
//! merged outputs are sorted descending by the primary metric, ties
//! broken by ascending key byte order, so group output is deterministic.

use vstd::prelude::*;

use crate::agg::{agg_identity, agg_step, AggResult};
use crate::bytes::bytes_eq;

verus! {

/// A group key with its line count.
#[derive(Debug)]
pub struct GroupCount {
    /// The owned bytes of the group key.
    pub key: Vec<u8>,
    /// How many matching lines carried this key.
    pub count: u64,
}

/// A group key with its size aggregate.
#[derive(Debug)]
pub struct GroupAgg {
    /// The owned bytes of the group key.
    pub key: Vec<u8>,
    /// The aggregate of the sizes of the lines that carried this key.
    pub agg: AggResult,
}

/// No two entries share a key.
pub open spec fn gc_keys_unique(es: Seq<GroupCount>) -> bool {
    forall|i: int, j: int| 0 <= i < j < es.len() ==> es[i].key@ != es[j].key@
}

/// Every entry has a positive count.
pub open spec fn gc_counts_pos(es: Seq<GroupCount>) -> bool {
    forall|i: int| 0 <= i < es.len() ==> #[trigger] es[i].count >= 1
}

/// The total count recorded for key `k`.
pub open spec fn gc_count(es: Seq<GroupCount>, k: Seq<u8>) -> int
    decreases es.len(),
{
    if es.len() == 0 {
        0
    } else {
        gc_count(es.drop_last(), k) + if es.last().key@ == k {
            es.last().count as int
        } else {
            0
        }
    }
}

/// The sum of all counts in the map.
pub open spec fn gc_total(es: Seq<GroupCount>) -> int
    decreases es.len(),
{
    if es.len() == 0 {
        0
    } else {
        gc_total(es.drop_last()) + es.last().count
    }
}

/// Whether some entry holds key `k`.
pub open spec fn gc_has_key(es: Seq<GroupCount>, k: Seq<u8>) -> bool {
    exists|i: int| 0 <= i < es.len() && es[i].key@ == k
}

/// A key's count never exceeds the total.
proof fn lemma_gc_count_le_total(es: Seq<GroupCount>, k: Seq<u8>)
    ensures
        0 <= gc_count(es, k) <= gc_total(es),
    decreases es.len(),
{
    if es.len() > 0 {
        lemma_gc_count_le_total(es.drop_last(), k);
    }
}

/// With unique keys, the count of the key of entry `j` is that entry's.
proof fn lemma_gc_count_at(es: Seq<GroupCount>, j: int)
    requires
        gc_keys_unique(es),
        0 <= j < es.len(),
    ensures
        gc_count(es, es[j].key@) == es[j].count,
    decreases es.len(),
{
    if es.len() > 0 {
        if j == es.len() - 1 {
            lemma_gc_count_absent(es.drop_last(), es[j].key@);
        } else {
            assert(gc_keys_unique(es.drop_last()));
            lemma_gc_count_at(es.drop_last(), j);
        }
    }
}

/// A key held by no entry counts zero.
proof fn lemma_gc_count_absent(es: Seq<GroupCount>, k: Seq<u8>)
    requires
        forall|i: int| 0 <= i < es.len() ==> es[i].key@ != k,
    ensures
        gc_count(es, k) == 0,
    decreases es.len(),
{
    if es.len() > 0 {
        lemma_gc_count_absent(es.drop_last(), k);
    }
}

/// Replacing entry `j` shifts every key's count by the difference of the
/// old and new contributions.
proof fn lemma_gc_count_update(es: Seq<GroupCount>, j: int, e2: GroupCount, k: Seq<u8>)
    requires
        0 <= j < es.len(),
    ensures
        gc_count(es.update(j, e2), k) == gc_count(es, k) - (if es[j].key@ == k {
            es[j].count as int
        } else {
            0
        }) + (if e2.key@ == k {
            e2.count as int
        } else {
            0
        }),
        gc_total(es.update(j, e2)) == gc_total(es) - es[j].count + e2.count,
    decreases es.len(),
{
    if es.len() > 0 {
        if j == es.len() - 1 {
            assert(es.update(j, e2).drop_last() =~= es.drop_last());
            assert(es.update(j, e2).last() == e2);
        } else {
            lemma_gc_count_update(es.drop_last(), j, e2, k);
            assert(es.update(j, e2).drop_last() =~= es.drop_last().update(j, e2));
            assert(es.update(j, e2).last() == es.last());
        }
    }
}

/// Appending an entry adds its contribution.
proof fn lemma_gc_count_push(es: Seq<GroupCount>, e: GroupCount, k: Seq<u8>)
    ensures
        gc_count(es.push(e), k) == gc_count(es, k) + (if e.key@ == k {
            e.count as int
        } else {
            0
        }),
        gc_total(es.push(e)) == gc_total(es) + e.count,
{
    assert(es.push(e).drop_last() =~= es);
    assert(es.push(e).last() == e);
}

/// With unique keys, each entry's count is exactly its key's count.
pub proof fn lemma_gc_entry_count(es: Seq<GroupCount>, j: int)
    requires
        gc_keys_unique(es),
        0 <= j < es.len(),
    ensures
        gc_count(es, es[j].key@) == es[j].count,
{
    lemma_gc_count_at(es, j);
}

/// Record one more line with key `key` in the map.
pub fn bump(es: &mut Vec<GroupCount>, key: &[u8])
    requires
        gc_keys_unique(old(es)@),
        gc_counts_pos(old(es)@),
        gc_total(old(es)@) < u64::MAX,
    ensures
        gc_keys_unique(final(es)@),
        gc_counts_pos(final(es)@),
        gc_total(final(es)@) == gc_total(old(es)@) + 1,
        forall|k: Seq<u8>|
            #[trigger] gc_count(final(es)@, k) == gc_count(old(es)@, k) + if k == key@ {
                1int
            } else {
                0int
            },
        forall|k: Seq<u8>|
            #[trigger] gc_has_key(final(es)@, k) == (gc_has_key(old(es)@, k) || k == key@),
{
    let n = es.len();
    let mut j: usize = 0;
    while j < n
        invariant
            n == es@.len(),
            *es == *old(es),
            gc_keys_unique(es@),
            gc_counts_pos(es@),
            gc_total(es@) < u64::MAX,
            j <= n,
            forall|idx: int| 0 <= idx < j ==> es@[idx].key@ != key@,
        decreases n - j,
    {
        if bytes_eq(es[j].key.as_slice(), key) {
            proof {
                lemma_gc_count_at(es@, j as int);
                lemma_gc_count_le_total(es@, key@);
            }
            let c = es[j].count;
            let ghost before = es@;
            es[j].count = c + 1;
            proof {
                let e2 = GroupCount { key: before[j as int].key, count: (c + 1) as u64 };
                assert(es@ =~= before.update(j as int, es@[j as int]));
                assert(es@[j as int].key == before[j as int].key);
                assert forall|k: Seq<u8>|
                    #[trigger] gc_count(es@, k) == gc_count(before, k) + (if k == key@ {
                        1int
                    } else {
                        0int
                    }) by {
                    lemma_gc_count_update(before, j as int, es@[j as int], k);
                }
                lemma_gc_count_update(before, j as int, es@[j as int], key@);
                assert forall|k: Seq<u8>|
                    #[trigger] gc_has_key(es@, k) == (gc_has_key(before, k) || k == key@) by {
                    if gc_has_key(before, k) {
                        let w = choose|i: int| 0 <= i < before.len() && before[i].key@ == k;
                        assert(es@[w].key@ == k);
                    }
                    if gc_has_key(es@, k) {
                        let w = choose|i: int| 0 <= i < es@.len() && es@[i].key@ == k;
                        assert(before[w].key@ == k);
                    }
                    if k == key@ {
                        assert(es@[j as int].key@ == k);
                    }
                }
            }
            return ;
        }
        j += 1;
    }
    proof {
        lemma_gc_count_absent(es@, key@);
    }
    let owned = vstd::slice::slice_to_vec(key);
    let ghost before = es@;
    es.push(GroupCount { key: owned, count: 1 });
    proof {
        assert forall|k: Seq<u8>|
            #[trigger] gc_count(es@, k) == gc_count(before, k) + (if k == key@ {
                1int
            } else {
                0int
            }) by {
            lemma_gc_count_push(before, es@.last(), k);
            if k != key@ {
            } else {
                lemma_gc_count_absent(before, k);
            }
        }
        lemma_gc_count_push(before, es@.last(), key@);
        assert forall|k: Seq<u8>|
            #[trigger] gc_has_key(es@, k) == (gc_has_key(before, k) || k == key@) by {
            if gc_has_key(before, k) {
                let w = choose|i: int| 0 <= i < before.len() && before[i].key@ == k;
                assert(es@[w].key@ == k);
            }
            if gc_has_key(es@, k) {
                let w = choose|i: int| 0 <= i < es@.len() && es@[i].key@ == k;
                if w < before.len() {
                    assert(before[w].key@ == k);
                }
            }
            if k == key@ {
                assert(es@[es@.len() - 1].key@ == k);
            }
        }
    }
}

/// No two entries share a key.
pub open spec fn ga_keys_unique(es: Seq<GroupAgg>) -> bool {
    forall|i: int, j: int| 0 <= i < j < es.len() ==> es[i].key@ != es[j].key@
}

/// The aggregate recorded for key `k`; the empty aggregate when absent.
pub open spec fn ga_get(es: Seq<GroupAgg>, k: Seq<u8>) -> AggResult
    decreases es.len(),
{
    if es.len() == 0 {
        agg_identity()
    } else if es.last().key@ == k {
        es.last().agg
    } else {
        ga_get(es.drop_last(), k)
    }
}

/// Whether some entry holds key `k`.
pub open spec fn ga_has_key(es: Seq<GroupAgg>, k: Seq<u8>) -> bool {
    exists|i: int| 0 <= i < es.len() && es[i].key@ == k
}

/// With unique keys, `ga_get` of the key of entry `j` is that entry's aggregate.
proof fn lemma_ga_get_at(es: Seq<GroupAgg>, j: int)
    requires
        ga_keys_unique(es),
        0 <= j < es.len(),
    ensures
        ga_get(es, es[j].key@) == es[j].agg,
    decreases es.len(),
{
    if j < es.len() - 1 {
        assert(ga_keys_unique(es.drop_last()));
        lemma_ga_get_at(es.drop_last(), j);
    }
}

/// A key held by no entry yields the empty aggregate.
proof fn lemma_ga_get_absent(es: Seq<GroupAgg>, k: Seq<u8>)
    requires
        forall|i: int| 0 <= i < es.len() ==> es[i].key@ != k,
    ensures
        ga_get(es, k) == agg_identity(),
    decreases es.len(),
{
    if es.len() > 0 {
        lemma_ga_get_absent(es.drop_last(), k);
    }
}

/// Replacing entry `j` with one of the same key rewrites only that key.
proof fn lemma_ga_get_update(es: Seq<GroupAgg>, j: int, e2: GroupAgg, k: Seq<u8>)
    requires
        ga_keys_unique(es),
        0 <= j < es.len(),
        e2.key@ == es[j].key@,
    ensures
        ga_get(es.update(j, e2), k) == if k == es[j].key@ {
            e2.agg
        } else {
            ga_get(es, k)
        },
    decreases es.len(),
{
    if j == es.len() - 1 {
        assert(es.update(j, e2).drop_last() =~= es.drop_last());
        assert(es.update(j, e2).last() == e2);
        if k == es[j].key@ {
        } else {
        }
    } else {
        assert(ga_keys_unique(es.drop_last()));
        lemma_ga_get_update(es.drop_last(), j, e2, k);
        assert(es.update(j, e2).drop_last() =~= es.drop_last().update(j, e2));
        assert(es.update(j, e2).last() == es.last());
        if k == es[j].key@ {
            assert(es.last().key@ != es[j].key@);
        }
    }
}

/// Appending an entry rewrites only its key.
proof fn lemma_ga_get_push(es: Seq<GroupAgg>, e: GroupAgg, k: Seq<u8>)
    ensures
        ga_get(es.push(e), k) == if k == e.key@ {
            e.agg
        } else {
            ga_get(es, k)
        },
{
    assert(es.push(e).drop_last() =~= es);
    assert(es.push(e).last() == e);
}

/// Fold one size sample into the aggregate of key `key`.
pub fn add_sample_keyed(es: &mut Vec<GroupAgg>, key: &[u8], v: i64)
    requires
        ga_keys_unique(old(es)@),
    ensures
        ga_keys_unique(final(es)@),
        forall|k: Seq<u8>|
            #[trigger] ga_get(final(es)@, k) == if k == key@ {
                agg_step(ga_get(old(es)@, k), v)
            } else {
                ga_get(old(es)@, k)
            },
        forall|k: Seq<u8>|
            #[trigger] ga_has_key(final(es)@, k) == (ga_has_key(old(es)@, k) || k == key@),
{
    let n = es.len();
    let mut j: usize = 0;
    while j < n
        invariant
            n == es@.len(),
            *es == *old(es),
            ga_keys_unique(es@),
            j <= n,
            forall|idx: int| 0 <= idx < j ==> es@[idx].key@ != key@,
        decreases n - j,
    {
        if bytes_eq(es[j].key.as_slice(), key) {
            proof {
                lemma_ga_get_at(es@, j as int);
            }
            let mut updated = es[j].agg;
            updated.add_sample(v);
            let ghost before = es@;
            es[j].agg = updated;
            proof {
                assert(es@ =~= before.update(j as int, es@[j as int]));
                assert(es@[j as int].key == before[j as int].key);
                assert forall|k: Seq<u8>|
                    #[trigger] ga_get(es@, k) == (if k == key@ {
                        agg_step(ga_get(before, k), v)
                    } else {
                        ga_get(before, k)
                    }) by {
                    lemma_ga_get_update(before, j as int, es@[j as int], k);
                }
                assert forall|k: Seq<u8>|
                    #[trigger] ga_has_key(es@, k) == (ga_has_key(before, k) || k == key@) by {
                    if ga_has_key(before, k) {
                        let w = choose|i: int| 0 <= i < before.len() && before[i].key@ == k;
                        assert(es@[w].key@ == k);
                    }
                    if ga_has_key(es@, k) {
                        let w = choose|i: int| 0 <= i < es@.len() && es@[i].key@ == k;
                        assert(before[w].key@ == k);
                    }
                    if k == key@ {
                        assert(es@[j as int].key@ == k);
                    }
                }
            }
            return ;
        }
        j += 1;
    }
    proof {
        lemma_ga_get_absent(es@, key@);
    }
    let owned = vstd::slice::slice_to_vec(key);
    let mut fresh = crate::agg::AggResult::new();
    fresh.add_sample(v);
    let ghost before = es@;
    es.push(GroupAgg { key: owned, agg: fresh });
    proof {
        assert forall|k: Seq<u8>|
            #[trigger] ga_get(es@, k) == (if k == key@ {
                agg_step(ga_get(before, k), v)
            } else {
                ga_get(before, k)
            }) by {
            lemma_ga_get_push(before, es@.last(), k);
            if k == key@ {
                lemma_ga_get_absent(before, k);
            }
        }
        assert forall|k: Seq<u8>|
            #[trigger] ga_has_key(es@, k) == (ga_has_key(before, k) || k == key@) by {
            if ga_has_key(before, k) {
                let w = choose|i: int| 0 <= i < before.len() && before[i].key@ == k;
                assert(es@[w].key@ == k);
            }
            if ga_has_key(es@, k) {
                let w = choose|i: int| 0 <= i < es@.len() && es@[i].key@ == k;
                if w < before.len() {
                    assert(before[w].key@ == k);
                }
            }
            if k == key@ {
                assert(es@[es@.len() - 1].key@ == k);
            }
        }
    }
}

} // verus!
