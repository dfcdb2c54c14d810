//! Small operations on lists of ids and names.
use vstd::prelude::*;
use crate::text::views;

verus! {

/// The list without any occurrence of `x`, the others kept in order.
pub open spec fn without(s: Seq<u32>, x: u32) -> Seq<u32>
    decreases s.len(),
{
    if s.len() == 0 {
        s
    } else if s.last() == x {
        without(s.drop_last(), x)
    } else {
        without(s.drop_last(), x).push(s.last())
    }
}

/// Removes every occurrence of `x`, keeping the others in order (as
/// `retain(|v| *v != x)` does).
pub fn remove_id(v: &mut Vec<u32>, x: u32)
    ensures
        final(v)@ == without(old(v)@, x),
{
    let ghost orig = v@;
    let mut kept: Vec<u32> = Vec::new();
    let mut i: usize = 0;
    assert(orig.take(0) =~= Seq::<u32>::empty());
    while i < v.len()
        invariant
            v@ == orig,
            i <= orig.len(),
            kept@ == without(orig.take(i as int), x),
        decreases orig.len() - i,
    {
        assert(orig.take(i + 1).drop_last() =~= orig.take(i as int));
        if v[i] != x {
            kept.push(v[i]);
        }
        i = i + 1;
    }
    assert(orig.take(orig.len() as int) =~= orig);
    *v = kept;
}

/// Whether the name is in the list.
pub fn contains_name(v: &Vec<String>, name: &String) -> (r: bool)
    ensures
        r == views(v@).contains(name@),
{
    let mut i: usize = 0;
    while i < v.len()
        invariant
            i <= v@.len(),
            forall|j: int| 0 <= j < i ==> v@[j]@ != name@,
        decreases v@.len() - i,
    {
        if v[i] == *name {
            assert(views(v@)[i as int] == name@);
            return true;
        }
        i = i + 1;
    }
    proof {
        if views(v@).contains(name@) {
            let j = choose|j: int| 0 <= j < views(v@).len() && views(v@)[j] == name@;
            assert(v@[j]@ == name@);
        }
    }
    false
}

/// A copy of a list of names.
pub fn copy_names(v: &Vec<String>) -> (r: Vec<String>)
    ensures
        views(r@) == views(v@),
{
    let mut r: Vec<String> = Vec::new();
    let mut i: usize = 0;
    while i < v.len()
        invariant
            i <= v@.len(),
            r@.len() == i,
            forall|j: int| 0 <= j < i ==> #[trigger] r@[j]@ == v@[j]@,
        decreases v@.len() - i,
    {
        r.push(v[i].clone());
        i = i + 1;
    }
    assert(views(r@) =~= views(v@));
    r
}

/// The list without any occurrence of `x`, the others kept in order.
pub open spec fn without_addr(s: Seq<u64>, x: u64) -> Seq<u64>
    decreases s.len(),
{
    if s.len() == 0 {
        s
    } else if s.last() == x {
        without_addr(s.drop_last(), x)
    } else {
        without_addr(s.drop_last(), x).push(s.last())
    }
}

/// Removes every occurrence of `x`, keeping the others in order.
pub fn remove_addr(v: &mut Vec<u64>, x: u64)
    ensures
        final(v)@ == without_addr(old(v)@, x),
{
    let ghost orig = v@;
    let mut kept: Vec<u64> = Vec::new();
    let mut i: usize = 0;
    assert(orig.take(0) =~= Seq::<u64>::empty());
    while i < v.len()
        invariant
            v@ == orig,
            i <= orig.len(),
            kept@ == without_addr(orig.take(i as int), x),
        decreases orig.len() - i,
    {
        assert(orig.take(i + 1).drop_last() =~= orig.take(i as int));
        if v[i] != x {
            kept.push(v[i]);
        }
        i = i + 1;
    }
    assert(orig.take(orig.len() as int) =~= orig);
    *v = kept;
}

/// The names without any occurrence of `x`, the others kept in order.
pub open spec fn without_name(s: Seq<Seq<char>>, x: Seq<char>) -> Seq<Seq<char>>
    decreases s.len(),
{
    if s.len() == 0 {
        s
    } else if s.last() == x {
        without_name(s.drop_last(), x)
    } else {
        without_name(s.drop_last(), x).push(s.last())
    }
}

/// Removes every occurrence of the name, keeping the others in order.
pub fn remove_name(v: &mut Vec<String>, x: &String)
    ensures
        views(final(v)@) == without_name(views(old(v)@), x@),
{
    let ghost orig = views(v@);
    let mut kept: Vec<String> = Vec::new();
    let mut i: usize = 0;
    proof {
        crate::text::lemma_views(v@);
    }
    assert(orig.take(0) =~= Seq::<Seq<char>>::empty());
    assert(views(kept@) =~= Seq::<Seq<char>>::empty());
    while i < v.len()
        invariant
            orig == views(v@),
            orig.len() == v@.len(),
            forall|k: int| 0 <= k < v@.len() ==> #[trigger] orig[k] == v@[k]@,
            i <= orig.len(),
            views(kept@) == without_name(orig.take(i as int), x@),
        decreases orig.len() - i,
    {
        assert(orig.take(i + 1).drop_last() =~= orig.take(i as int));
        assert(orig.take(i + 1).last() == v@[i as int]@);
        if v[i] != *x {
            let ghost before = views(kept@);
            kept.push(v[i].clone());
            assert(views(kept@) =~= before.push(v@[i as int]@));
        }
        i = i + 1;
    }
    assert(orig.take(orig.len() as int) =~= orig);
    *v = kept;
}

/// The views of a list of name pairs.
pub open spec fn pairs_view(s: Seq<(String, String)>) -> Seq<(Seq<char>, Seq<char>)> {
    s.map_values(|p: (String, String)| (p.0@, p.1@))
}

/// The pairs without any occurrence of `(a, b)`, the others kept in order.
pub open spec fn without_pair(s: Seq<(Seq<char>, Seq<char>)>, a: Seq<char>, b: Seq<char>) -> Seq<
    (Seq<char>, Seq<char>),
>
    decreases s.len(),
{
    if s.len() == 0 {
        s
    } else if s.last().0 == a && s.last().1 == b {
        without_pair(s.drop_last(), a, b)
    } else {
        without_pair(s.drop_last(), a, b).push(s.last())
    }
}

/// Removes every occurrence of the pair `(a, b)`, keeping the others in order.
pub fn remove_pair(v: &mut Vec<(String, String)>, a: &String, b: &String)
    ensures
        pairs_view(final(v)@) == without_pair(pairs_view(old(v)@), a@, b@),
{
    let ghost orig = pairs_view(v@);
    let mut kept: Vec<(String, String)> = Vec::new();
    let mut i: usize = 0;
    assert(orig.take(0) =~= Seq::<(Seq<char>, Seq<char>)>::empty());
    assert(pairs_view(kept@) =~= Seq::<(Seq<char>, Seq<char>)>::empty());
    while i < v.len()
        invariant
            orig == pairs_view(v@),
            orig.len() == v@.len(),
            i <= orig.len(),
            pairs_view(kept@) == without_pair(orig.take(i as int), a@, b@),
        decreases orig.len() - i,
    {
        assert(orig.take(i + 1).drop_last() =~= orig.take(i as int));
        assert(orig.take(i + 1).last() == (v@[i as int].0@, v@[i as int].1@));
        if !(v[i].0 == *a && v[i].1 == *b) {
            let ghost before = pairs_view(kept@);
            let p = (v[i].0.clone(), v[i].1.clone());
            kept.push(p);
            assert(pairs_view(kept@) =~= before.push((v@[i as int].0@, v@[i as int].1@)));
        }
        i = i + 1;
    }
    assert(orig.take(orig.len() as int) =~= orig);
    *v = kept;
}

/// Removing `x` keeps the other elements and nothing else, so a list
/// without duplicates stays so.
pub proof fn lemma_without_addr(s: Seq<u64>, x: u64)
    ensures
        forall|y: u64| without_addr(s, x).contains(y) <==> (s.contains(y) && y != x),
        s.no_duplicates() ==> without_addr(s, x).no_duplicates(),
    decreases s.len(),
{
    if s.len() > 0 {
        let prev = s.drop_last();
        lemma_without_addr(prev, x);
        assert forall|y: u64| without_addr(s, x).contains(y) <==> (s.contains(y) && y != x) by {
            let wp = without_addr(prev, x);
            let w = without_addr(s, x);
            if s.contains(y) && y != x {
                let k = choose|k: int| 0 <= k < s.len() && s[k] == y;
                if k < s.len() - 1 {
                    assert(prev[k] == y);
                    assert(prev.contains(y));
                    assert(wp.contains(y));
                    let kk = choose|kk: int| 0 <= kk < wp.len() && wp[kk] == y;
                    assert(w[kk] == y);
                } else {
                    assert(w[w.len() - 1] == y);
                }
            }
            if w.contains(y) {
                let k = choose|k: int| 0 <= k < w.len() && w[k] == y;
                if s.last() != x && k == w.len() - 1 {
                    assert(s[s.len() - 1] == y);
                } else {
                    assert(wp[k] == y);
                    assert(wp.contains(y));
                    assert(prev.contains(y));
                    let kk = choose|kk: int| 0 <= kk < prev.len() && prev[kk] == y;
                    assert(s[kk] == y);
                }
            }
        }
        if s.no_duplicates() {
            assert(prev.no_duplicates()) by {
                assert forall|i: int, j: int| 0 <= i < prev.len() && 0 <= j < prev.len() && i != j implies prev[i]
                    != prev[j] by {
                    assert(s[i] == prev[i] && s[j] == prev[j]);
                }
            }
            if s.last() != x {
                assert(!prev.contains(s.last())) by {
                    if prev.contains(s.last()) {
                        let k = choose|k: int| 0 <= k < prev.len() && prev[k] == s.last();
                        assert(s[k] == s[s.len() - 1]);
                    }
                }
                let w = without_addr(s, x);
                assert forall|i: int, j: int| 0 <= i < w.len() && 0 <= j < w.len() && i != j implies w[i] != w[j] by {
                    let wp = without_addr(prev, x);
                    if i == w.len() - 1 && j < w.len() - 1 {
                        assert(wp.contains(w[j]));
                    } else if j == w.len() - 1 && i < w.len() - 1 {
                        assert(wp.contains(w[i]));
                    } else {
                        assert(w[i] == wp[i] && w[j] == wp[j]);
                    }
                }
            }
        }
    }
}

/// A list without `x` keeps every other element, in order.
proof fn lemma_without_addr_absent(s: Seq<u64>, x: u64)
    requires
        !s.contains(x),
    ensures
        without_addr(s, x) == s,
    decreases s.len(),
{
    if s.len() > 0 {
        assert(!s.drop_last().contains(x)) by {
            if s.drop_last().contains(x) {
                let k = choose|k: int| 0 <= k < s.drop_last().len() && s.drop_last()[k] == x;
                assert(s[k] == x);
            }
        }
        lemma_without_addr_absent(s.drop_last(), x);
        assert(s.drop_last().push(s.last()) =~= s);
    }
}

/// Observing twice changes nothing: a connection that was not observing is
/// added at the end, then removed, which gives back the observers as they
/// were.
pub proof fn law_observe_twice(observers: Seq<u64>, addr: u64)
    requires
        !observers.contains(addr),
    ensures
        without_addr(observers.push(addr), addr) == observers,
{
    assert(observers.push(addr).drop_last() =~= observers);
    lemma_without_addr_absent(observers, addr);
}

/// Deleting a reservation just added leaves the reservations as deleting
/// it alone would have: every occurrence of the pair goes, the rest stays.
pub proof fn law_reservation_add_then_delete(s: Seq<(Seq<char>, Seq<char>)>, a: Seq<char>, b: Seq<char>)
    ensures
        without_pair(s.push((a, b)), a, b) == without_pair(s, a, b),
{
    assert(s.push((a, b)).drop_last() =~= s);
}

} // verus!
