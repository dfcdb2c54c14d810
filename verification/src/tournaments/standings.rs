//! Standings: players with their scores, and ordering them by score.
use vstd::prelude::*;

verus! {

/// A player's name and score, by their views.
pub open spec fn entry_view(e: (String, u32)) -> (Seq<char>, u32) {
    (e.0@, e.1)
}

/// The views of a list of standings.
pub open spec fn entries_view(v: Seq<(String, u32)>) -> Seq<(Seq<char>, u32)> {
    v.map_values(|e: (String, u32)| entry_view(e))
}

/// `after` should come after `before` in the requested order.
pub open spec fn in_order(before: u32, after: u32, descending: bool) -> bool {
    if descending {
        before >= after
    } else {
        before <= after
    }
}

/// Sorted in the requested direction.
pub open spec fn sorted_by_score(v: Seq<(Seq<char>, u32)>, descending: bool) -> bool {
    forall|i: int, j: int| 0 <= i < j < v.len() ==> in_order(v[i].1, v[j].1, descending)
}

fn copy_entry(e: &(String, u32)) -> (r: (String, u32))
    ensures
        entry_view(r) == entry_view(*e),
{
    (e.0.clone(), e.1)
}

/// The standings ordered by score, highest first when `descending`, lowest
/// first otherwise.
pub fn sort_by_score(entries: &Vec<(String, u32)>, descending: bool) -> (r: Vec<(String, u32)>)
    ensures
        entries_view(r@).to_multiset() == entries_view(entries@).to_multiset(),
        r@.len() == entries@.len(),
        sorted_by_score(entries_view(r@), descending),
{
    broadcast use vstd::seq_lib::group_to_multiset_ensures;
    let mut r: Vec<(String, u32)> = Vec::new();
    let mut k: usize = 0;
    assert(entries@.take(0) =~= Seq::<(String, u32)>::empty());
    assert(entries_view(r@) =~= Seq::<(Seq<char>, u32)>::empty());
    while k < entries.len()
        invariant
            k <= entries@.len(),
            r@.len() == k,
            entries_view(r@).to_multiset() == entries_view(entries@.take(k as int)).to_multiset(),
            sorted_by_score(entries_view(r@), descending),
        decreases entries@.len() - k,
    {
        let e = copy_entry(&entries[k]);
        let score = e.1;
        let mut p: usize = 0;
        while p < r.len() && in_order_exec(r[p].1, score, descending)
            invariant
                p <= r@.len(),
                forall|i: int| 0 <= i < p ==> in_order(r@[i].1, score, descending),
            decreases r@.len() - p,
        {
            p = p + 1;
        }
        let ghost old_r = r@;
        let ghost ev = entry_view(e);
        r.insert(p, e);
        proof {
            assert(entries_view(r@) =~= entries_view(old_r).insert(p as int, ev));
            vstd::seq_lib::to_multiset_insert(entries_view(old_r), p as int, ev);
            assert(entries@.take(k + 1) =~= entries@.take(k as int).push(entries@[k as int]));
            assert(entries_view(entries@.take(k + 1)) =~= entries_view(entries@.take(k as int)).push(ev));
            vstd::seq_lib::to_multiset_build(entries_view(entries@.take(k as int)), ev);
            assert forall|i: int, j: int| 0 <= i < j < r@.len() implies in_order(
                entries_view(r@)[i].1,
                entries_view(r@)[j].1,
                descending,
            ) by {
                if j < p {
                } else if j == p {
                } else if i < p {
                    // r[i] is before the insertion point, r[j] after it
                    if p < old_r.len() {
                        assert(!in_order(old_r[p as int].1, score, descending));
                    }
                } else if i == p {
                    assert(!in_order(old_r[p as int].1, score, descending));
                    if j - 1 > p {
                        assert(in_order(entries_view(old_r)[p as int].1, entries_view(old_r)[j - 1].1, descending));
                    }
                } else {
                }
            }
        }
        k = k + 1;
    }
    assert(entries@.take(entries@.len() as int) =~= entries@);
    r
}

fn in_order_exec(before: u32, after: u32, descending: bool) -> (b: bool)
    ensures
        b == in_order(before, after, descending),
{
    if descending {
        before >= after
    } else {
        before <= after
    }
}

} // verus!
