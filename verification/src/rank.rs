//! Ranking records by their reported value.
//!
//! Records are ranked from the highest value down. Records of equal value
//! keep the order in which they were given.

use crate::record::{MortalityRecord, RecordView};
use vstd::prelude::*;

verus! {

/// How many causes a prediction names at most.
pub const TOP_CAUSES: usize = 10;

/// Whether no record of `s` is valued above one that stands before it.
pub open spec fn descending(s: Seq<RecordView>) -> bool {
    forall|i: int, j: int| 0 <= i < j < s.len() ==> s[i].val.rank() >= s[j].val.rank()
}

/// Where `x` joins `ranked`: right behind the last record that is valued at
/// least as high as `x`, or in front where there is none.
pub open spec fn slot(ranked: Seq<RecordView>, x: RecordView) -> int
    decreases ranked.len(),
{
    if ranked.len() == 0 {
        0
    } else if ranked.last().val.rank() >= x.val.rank() {
        ranked.len() as int
    } else {
        slot(ranked.drop_last(), x)
    }
}

/// `records` from the highest value down, records of equal value in the order
/// in which `records` holds them.
pub open spec fn ranked(records: Seq<RecordView>) -> Seq<RecordView>
    decreases records.len(),
{
    if records.len() == 0 {
        records
    } else {
        let before = ranked(records.drop_last());
        before.insert(slot(before, records.last()), records.last())
    }
}

/// The first `n` elements of `s`, or all of `s` where it holds fewer.
pub open spec fn first_of<T>(s: Seq<T>, n: nat) -> Seq<T> {
    if n <= s.len() {
        s.take(n as int)
    } else {
        s
    }
}

/// The cause names of the `limit` highest-valued records, highest first.
pub open spec fn top_causes_of(records: Seq<RecordView>, limit: nat) -> Seq<Seq<char>> {
    first_of(ranked(records), limit).map_values(|r: RecordView| r.cause_name)
}

/// `slot` lies inside `ranked`, every record from it on is valued below `x`,
/// and the record right before it is not.
pub proof fn lemma_slot(ranked: Seq<RecordView>, x: RecordView)
    ensures
        0 <= slot(ranked, x) <= ranked.len(),
        forall|k: int| slot(ranked, x) <= k < ranked.len() ==> ranked[k].val.rank() < x.val.rank(),
        slot(ranked, x) > 0 ==> ranked[slot(ranked, x) - 1].val.rank() >= x.val.rank(),
    decreases ranked.len(),
{
    if ranked.len() > 0 && ranked.last().val.rank() < x.val.rank() {
        let front = ranked.drop_last();
        lemma_slot(front, x);
        assert forall|k: int| slot(ranked, x) <= k < ranked.len() implies ranked[k].val.rank()
            < x.val.rank() by {
            if k < front.len() {
                assert(front[k] == ranked[k]);
            }
        }
        if slot(ranked, x) > 0 {
            assert(front[slot(ranked, x) - 1] == ranked[slot(ranked, x) - 1]);
        }
    }
}

/// Only one place has the properties of `slot`.
pub proof fn lemma_slot_found(ranked: Seq<RecordView>, x: RecordView, p: int)
    requires
        0 <= p <= ranked.len(),
        forall|k: int| p <= k < ranked.len() ==> ranked[k].val.rank() < x.val.rank(),
        p > 0 ==> ranked[p - 1].val.rank() >= x.val.rank(),
    ensures
        slot(ranked, x) == p,
{
    lemma_slot(ranked, x);
}

/// A ranking holds every record it was made from, and stays in descending
/// order.
pub proof fn lemma_ranked(records: Seq<RecordView>)
    ensures
        ranked(records).len() == records.len(),
        descending(ranked(records)),
        ranked(records).to_multiset() == records.to_multiset(),
    decreases records.len(),
{
    if records.len() > 0 {
        let front = records.drop_last();
        let x = records.last();
        let before = ranked(front);
        lemma_ranked(front);
        lemma_slot(before, x);
        let p = slot(before, x);
        let after = before.insert(p, x);
        assert forall|i: int, j: int| 0 <= i < j < after.len() implies after[i].val.rank()
            >= after[j].val.rank() by {
            if j < p {
                assert(after[i] == before[i] && after[j] == before[j]);
            } else if j == p {
                assert(after[j] == x);
                if p > 0 {
                    assert(after[i] == before[i]);
                    assert(before[i].val.rank() >= before[p - 1].val.rank());
                }
            } else {
                assert(after[j] == before[j - 1]);
                if i < p {
                    assert(after[i] == before[i]);
                } else if i == p {
                    assert(after[i] == x);
                } else {
                    assert(after[i] == before[i - 1]);
                }
            }
        }
        assert(records =~= front.push(x));
        vstd::seq_lib::to_multiset_build(front, x);
        assert(after.remove(p) =~= before);
        assert(after[p] == x);
        vstd::seq_lib::to_multiset_remove(after, p);
        after.to_multiset_ensures();
        assert(after.contains(x));
        assert(after.to_multiset() =~= before.to_multiset().insert(x));
    }
}

/// Whether the record at `i` goes before the record at `j`: it is valued
/// higher, or as high and given earlier.
pub open spec fn precedes(records: Seq<RecordView>, i: int, j: int) -> bool {
    ||| records[i].val.rank() > records[j].val.rank()
    ||| records[i].val.rank() == records[j].val.rank() && i < j
}

/// Whether `order` lists the places of `records`, each once, such that each
/// record goes before all that follow it.
pub open spec fn is_ranking(records: Seq<RecordView>, order: Seq<int>) -> bool {
    &&& order.len() == records.len()
    &&& forall|k: int| 0 <= k < order.len() ==> 0 <= #[trigger] order[k] < records.len()
    &&& forall|i: int| 0 <= i < records.len() ==> order.contains(i)
    &&& forall|k: int, l: int|
        0 <= k < l < order.len() ==> precedes(records, #[trigger] order[k], #[trigger] order[l])
}

/// The ranking of `records` takes its records from the places that some
/// `order` lists, and that order is a ranking: a higher value goes first, and
/// among equal values the record given earlier.
pub proof fn lemma_ranked_order(records: Seq<RecordView>) -> (order: Seq<int>)
    ensures
        is_ranking(records, order),
        forall|k: int| 0 <= k < records.len() ==> ranked(records)[k] == records[#[trigger] order[k]],
    decreases records.len(),
{
    lemma_ranked(records);
    if records.len() == 0 {
        Seq::empty()
    } else {
        let front = records.drop_last();
        let x = records.last();
        let last = records.len() - 1;
        let before = ranked(front);
        let old_order = lemma_ranked_order(front);
        lemma_ranked(front);
        lemma_slot(before, x);
        let p = slot(before, x);
        let order = old_order.insert(p, last);
        assert forall|i: int| 0 <= i < records.len() implies order.contains(i) by {
            if i < last {
                assert(old_order.contains(i));
                let k = choose|k: int| 0 <= k < old_order.len() && old_order[k] == i;
                if k < p {
                    assert(order[k] == i);
                } else {
                    assert(order[k + 1] == i);
                }
            } else {
                assert(order[p] == i);
            }
        }
        assert forall|k: int| 0 <= k < records.len() implies ranked(records)[k]
            == records[#[trigger] order[k]] by {
            if k < p {
                assert(order[k] == old_order[k]);
                assert(front[old_order[k]] == records[old_order[k]]);
            } else if k > p {
                assert(order[k] == old_order[k - 1]);
                assert(front[old_order[k - 1]] == records[old_order[k - 1]]);
            }
        }
        assert forall|k: int, l: int| 0 <= k < l < order.len() implies precedes(
            records,
            #[trigger] order[k],
            #[trigger] order[l],
        ) by {
            assert(ranked(records)[k] == records[order[k]]);
            assert(ranked(records)[l] == records[order[l]]);
            if l == p {
                assert(order[k] == old_order[k]);
                assert(before[k] == front[old_order[k]]);
                assert(before[k].val.rank() >= before[p - 1].val.rank());
            } else if k == p {
                assert(order[l] == old_order[l - 1]);
                assert(before[l - 1] == front[old_order[l - 1]]);
            } else {
                let k0 = if k < p { k } else { k - 1 };
                let l0 = if l < p { l } else { l - 1 };
                assert(order[k] == old_order[k0]);
                assert(order[l] == old_order[l0]);
                assert(precedes(front, old_order[k0], old_order[l0]));
                assert(front[old_order[k0]] == records[old_order[k0]]);
                assert(front[old_order[l0]] == records[old_order[l0]]);
            }
        }
        order
    }
}

/// Records have one ranking only.
pub proof fn lemma_ranking_unique(records: Seq<RecordView>, first: Seq<int>, second: Seq<int>)
    requires
        is_ranking(records, first),
        is_ranking(records, second),
    ensures
        first == second,
{
    assert forall|k: int| 0 <= k < first.len() implies first[k] == second[k] by {
        lemma_rankings_agree(records, first, second, k);
    }
    assert(first =~= second);
}

/// Two rankings of the same records agree at every place.
proof fn lemma_rankings_agree(
    records: Seq<RecordView>,
    first: Seq<int>,
    second: Seq<int>,
    k: int,
)
    requires
        is_ranking(records, first),
        is_ranking(records, second),
        0 <= k < records.len(),
    ensures
        first[k] == second[k],
    decreases k,
{
    assert forall|j: int| 0 <= j < k implies first[j] == second[j] by {
        lemma_rankings_agree(records, first, second, j);
    }
    let a = first[k];
    let b = second[k];
    if a != b {
        assert(second.contains(a));
        let l = choose|l: int| 0 <= l < second.len() && second[l] == a;
        assert(first.contains(b));
        let m = choose|m: int| 0 <= m < first.len() && first[m] == b;
        if l < k {
            assert(precedes(records, first[l], first[k]));
        } else if m < k {
            assert(precedes(records, second[m], second[k]));
        } else {
            assert(precedes(records, second[k], second[l]));
            assert(precedes(records, first[k], first[m]));
        }
    }
}

/// The top causes are as many as the limit allows and the records provide;
/// each is the cause of the record at its place in the ranking; and no record
/// behind a name is valued above the record behind the name before it.
pub proof fn lemma_top_causes(records: Seq<RecordView>, limit: nat)
    ensures
        top_causes_of(records, limit).len() == if limit <= records.len() {
            limit
        } else {
            records.len()
        },
        forall|k: int|
            0 <= k < top_causes_of(records, limit).len() ==> #[trigger] top_causes_of(
                records,
                limit,
            )[k] == ranked(records)[k].cause_name,
        forall|k: int|
            0 <= k && k + 1 < top_causes_of(records, limit).len() ==> (#[trigger] ranked(
                records,
            )[k]).val.rank() >= ranked(records)[k + 1].val.rank(),
{
    lemma_ranked(records);
}

/// What stands behind the first `limit` records of a ranking has no part in
/// what its first `limit` records are after one more record has joined.
pub proof fn lemma_first_of_insert(r: Seq<RecordView>, x: RecordView, limit: nat)
    requires
        descending(r),
    ensures
        first_of(r.insert(slot(r, x), x), limit) == first_of(
            first_of(r, limit).insert(slot(first_of(r, limit), x), x),
            limit,
        ),
{
    lemma_slot(r, x);
    let p = slot(r, x);
    let head = first_of(r, limit);
    if limit < r.len() {
        assert(head.len() == limit);
        if p < limit {
            assert forall|k: int| p <= k < head.len() implies head[k].val.rank()
                < x.val.rank() by {
                assert(head[k] == r[k]);
            }
            if p > 0 {
                assert(head[p - 1] == r[p - 1]);
            }
            lemma_slot_found(head, x, p);
            assert(r.insert(p, x).take(limit as int) =~= head.insert(p, x).take(limit as int));
        } else {
            if limit > 0 {
                assert(head[limit - 1] == r[limit - 1]);
                assert(r[limit - 1].val.rank() >= x.val.rank()) by {
                    if limit < p {
                        assert(r[limit - 1].val.rank() >= r[p - 1].val.rank());
                    }
                }
            }
            lemma_slot_found(head, x, limit as int);
            assert(r.insert(p, x).take(limit as int) =~= head.insert(limit as int, x).take(
                limit as int,
            ));
        }
    } else {
        assert(head =~= r);
    }
}

/// The cause names of the `limit` highest-valued records of `matched`, highest
/// first, records of equal value in the order given.
pub fn top_causes(matched: &Vec<&MortalityRecord>, limit: usize) -> (names: Vec<String>)
    ensures
        names.deep_view() == top_causes_of(matched.deep_view(), limit as nat),
{
    let ghost all = matched.deep_view();
    let mut best: Vec<&MortalityRecord> = Vec::new();
    let mut i: usize = 0;
    proof {
        assert(all.take(0) =~= Seq::<RecordView>::empty());
        assert(best.deep_view() =~= Seq::<RecordView>::empty());
    }
    while i < matched.len()
        invariant
            i <= matched.len(),
            all == matched.deep_view(),
            best.deep_view() == first_of(ranked(all.take(i as int)), limit as nat),
        decreases matched.len() - i,
    {
        let record: &MortalityRecord = matched[i];
        let ghost x = record@;
        let ghost seen = ranked(all.take(i as int));
        let ghost kept = best.deep_view();
        proof {
            assert(all.take(i + 1).drop_last() =~= all.take(i as int));
            assert(all.take(i + 1).last() == x);
            lemma_ranked(all.take(i as int));
            lemma_first_of_insert(seen, x, limit as nat);
        }
        let mut p: usize = best.len();
        while p > 0 && record.val.outranks(&best[p - 1].val)
            invariant
                p <= best.len(),
                kept == best.deep_view(),
                x == record@,
                forall|k: int| p <= k < kept.len() ==> kept[k].val.rank() < x.val.rank(),
            decreases p,
        {
            assert(kept[p - 1] == best[p - 1]@);
            p -= 1;
        }
        proof {
            if p > 0 {
                assert(kept[p - 1] == best[p - 1]@);
            }
            lemma_slot_found(kept, x, p as int);
        }
        if p < limit {
            best.insert(p, record);
            assert(best.deep_view() =~= kept.insert(p as int, x));
            if best.len() > limit {
                best.pop();
                assert(best.deep_view() =~= kept.insert(p as int, x).take(limit as int));
            }
        } else {
            assert(kept.insert(p as int, x).take(limit as int) =~= kept);
        }
        i += 1;
    }
    proof {
        assert(all.take(matched.len() as int) =~= all);
    }
    let mut names: Vec<String> = Vec::new();
    let mut k: usize = 0;
    while k < best.len()
        invariant
            k <= best.len(),
            names.len() == k,
            forall|j: int| 0 <= j < k ==> names[j]@ == (#[trigger] best[j])@.cause_name,
        decreases best.len() - k,
    {
        names.push(best[k].cause_name.clone());
        k += 1;
    }
    proof {
        let want = best.deep_view().map_values(|r: RecordView| r.cause_name);
        assert(names.deep_view() =~= want) by {
            assert forall|j: int| 0 <= j < names.len() implies names.deep_view()[j] == want[j] by {
                assert(names.deep_view()[j] == names[j]@);
                assert(best.deep_view()[j] == best[j]@);
            }
        }
    }
    names
}

/// The cause names of the ten highest-valued records of `filtered_records`,
/// highest first.
pub fn predict_top_causes_of_death(filtered_records: Vec<&MortalityRecord>) -> (top: Vec<String>)
    ensures
        top.deep_view() == top_causes_of(filtered_records.deep_view(), TOP_CAUSES as nat),
{
    top_causes(&filtered_records, TOP_CAUSES)
}

} // verus!
