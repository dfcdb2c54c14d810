//! The circle of a round robin: slot 0 stays put while the other slots turn
//! one place per round, so that every two slots face each other exactly
//! once over the tournament.
use vstd::prelude::*;
use vstd::arithmetic::div_mod::{lemma_fundamental_div_mod, lemma_mod_add_multiples_vanish, lemma_mod_bound,
    lemma_small_mod};
use crate::tournaments::round_robin::{round_count, slot_count, turned, RoundRobin};

verus! {

/// The slot at position `x` of the ring (every slot but 0, read along the
/// top row after slot 0, then back along the bottom row) before any turn,
/// with `m` slots.
pub open spec fn ring_start(m: int, x: int) -> int {
    let k = m / 2;
    if x < k - 1 {
        x + 1
    } else {
        m + k - 2 - x
    }
}

/// The position of slot `s` in the ring before any turn.
pub open spec fn start_pos(m: int, s: int) -> int {
    let k = m / 2;
    if s < k {
        s - 1
    } else {
        m + k - 2 - s
    }
}

/// The slot at ring position `p` after `r` turns: each turn moves every
/// slot of the ring one position on.
pub open spec fn ring_at(m: int, r: int, p: int) -> int {
    ring_start(m, (p - r) % (m - 1))
}

/// The top row after `r` turns.
pub open spec fn circle_top(m: int, r: int) -> Seq<u32> {
    Seq::new(
        (m / 2) as nat,
        |i: int|
            if i == 0 {
                0u32
            } else {
                ring_at(m, r, i - 1) as u32
            },
    )
}

/// The bottom row after `r` turns.
pub open spec fn circle_bottom(m: int, r: int) -> Seq<u32> {
    Seq::new((m / 2) as nat, |i: int| ring_at(m, r, m - 2 - i) as u32)
}

/// Slots `a` and `b` face each other in the rows.
pub open spec fn faces(top: Seq<u32>, bottom: Seq<u32>, a: int, b: int) -> bool {
    exists|i: int|
        0 <= i < top.len() && i < bottom.len() && ((top[i] == a && bottom[i] == b) || (top[i] == b && bottom[i]
            == a))
}

/// The ring holds each slot from 1 to `m - 1` once, at `start_pos`.
proof fn lemma_ring_start(m: int, x: int)
    requires
        m >= 2,
        m % 2 == 0,
        0 <= x < m - 1,
    ensures
        1 <= ring_start(m, x) < m,
        start_pos(m, ring_start(m, x)) == x,
{
}

/// `start_pos` finds each slot from 1 to `m - 1` in the ring.
proof fn lemma_start_pos(m: int, s: int)
    requires
        m >= 2,
        m % 2 == 0,
        1 <= s < m,
    ensures
        0 <= start_pos(m, s) < m - 1,
        ring_start(m, start_pos(m, s)) == s,
{
}

/// Each turn moves the ring one position on.
proof fn lemma_ring_step(m: int, r: int, p: int)
    requires
        m >= 2,
        0 <= p,
    ensures
        ring_at(m, r + 1, p + 1) == ring_at(m, r, p),
        ring_at(m, r + 1, 0) == ring_at(m, r, m - 2),
{
    let l = m - 1;
    assert((p + 1) - (r + 1) == p - r);
    assert((m - 2 - r) == l + (0 - (r + 1)));
    lemma_mod_add_multiples_vanish(0 - (r + 1), l);
}

/// Turning the circle of `r` turns gives the circle of `r + 1` turns.
pub proof fn lemma_turn_circle(m: int, r: int)
    requires
        m >= 4,
        m % 2 == 0,
        m <= u32::MAX,
    ensures
        seq![circle_top(m, r)[0], circle_bottom(m, r)[0]] + circle_top(m, r).subrange(1, m / 2 - 1) == circle_top(
            m,
            r + 1,
        ),
        circle_bottom(m, r).drop_first().push(circle_top(m, r).last()) == circle_bottom(m, r + 1),
{
    let k = m / 2;
    let t = circle_top(m, r);
    let b = circle_bottom(m, r);
    let nt = seq![t[0], b[0]] + t.subrange(1, k - 1);
    let nb = b.drop_first().push(t.last());
    assert forall|i: int| 0 <= i < k implies #[trigger] nt[i] == circle_top(m, r + 1)[i] by {
        if i == 1 {
            lemma_ring_step(m, r, 0);
        } else if i >= 2 {
            lemma_ring_step(m, r, i - 2);
        }
    }
    assert forall|i: int| 0 <= i < k implies #[trigger] nb[i] == circle_bottom(m, r + 1)[i] by {
        if i < k - 1 {
            lemma_ring_step(m, r, m - 3 - i);
        } else {
            lemma_ring_step(m, r, k - 2);
        }
    }
    assert(nt =~= circle_top(m, r + 1));
    assert(nb =~= circle_bottom(m, r + 1));
}

/// A fresh round robin's rows are the circle before any turn.
pub proof fn lemma_fresh_circle(t: RoundRobin, names: Seq<Seq<char>>)
    requires
        t.fresh(names),
        names.len() < u32::MAX,
    ensures
        t.top_half@ == circle_top(slot_count(names.len()) as int, 0),
        t.bottom_half@ == circle_bottom(slot_count(names.len()) as int, 0),
{
    let m = slot_count(names.len()) as int;
    let k = m / 2;
    let l = m - 1;
    assert forall|i: int| 0 <= i < k implies #[trigger] t.top_half@[i] == circle_top(m, 0)[i] by {
        if i > 0 {
            lemma_small_mod((i - 1) as nat, l as nat);
        }
    }
    assert forall|i: int| 0 <= i < k implies #[trigger] t.bottom_half@[i] == circle_bottom(m, 0)[i] by {
        lemma_small_mod((m - 2 - i) as nat, l as nat);
    }
    assert(t.top_half@ =~= circle_top(m, 0));
    assert(t.bottom_half@ =~= circle_bottom(m, 0));
}

/// Round `j` of a chain of turns from a fresh round robin has the rows of
/// the circle after `j` turns.
pub proof fn lemma_rounds_circle(rounds: Seq<RoundRobin>, names: Seq<Seq<char>>, j: int)
    requires
        rounds.len() >= 1,
        rounds[0].fresh(names),
        names.len() < u32::MAX,
        rounds.len() > 1 ==> slot_count(names.len()) >= 4,
        forall|x: int| 0 <= x < rounds.len() - 1 ==> #[trigger] turned(rounds[x], rounds[x + 1]),
        0 <= j < rounds.len(),
    ensures
        rounds[j].top_half@ == circle_top(slot_count(names.len()) as int, j),
        rounds[j].bottom_half@ == circle_bottom(slot_count(names.len()) as int, j),
    decreases j,
{
    let m = slot_count(names.len()) as int;
    if j == 0 {
        lemma_fresh_circle(rounds[0], names);
    } else {
        lemma_rounds_circle(rounds, names, j - 1);
        let x = j - 1;
        assert(turned(rounds[x], rounds[x + 1]));
        assert(x + 1 == j);
        lemma_turn_circle(m, j - 1);
    }
}

/// The ring position of slot `s` after `r` turns.
pub open spec fn pos_at(m: int, r: int, s: int) -> int {
    (start_pos(m, s) + r) % (m - 1)
}

/// After `r` turns slot `s` is at `pos_at`, and nowhere else.
pub proof fn lemma_pos_at(m: int, r: int, s: int, p: int)
    requires
        m >= 2,
        m % 2 == 0,
        1 <= s < m,
        0 <= p < m - 1,
    ensures
        0 <= pos_at(m, r, s) < m - 1,
        ring_at(m, r, pos_at(m, r, s)) == s,
        ring_at(m, r, p) == s ==> p == pos_at(m, r, s),
{
    let l = m - 1;
    let c = start_pos(m, s);
    lemma_start_pos(m, s);
    lemma_mod_bound(c + r, l);
    let q = pos_at(m, r, s);
    lemma_fundamental_div_mod(c + r, l);
    let d = (c + r) / l;
    assert(q - r == c + l * (-d)) by (nonlinear_arith)
        requires
            c + r == l * d + q,
    ;
    vstd::arithmetic::div_mod::lemma_mod_multiples_vanish(-d, c, l);
    assert((l * (-d) + c) % l == c % l);
    lemma_small_mod(c as nat, l as nat);
    assert((q - r) % l == c);
    if ring_at(m, r, p) == s {
        let y = (p - r) % l;
        lemma_mod_bound(p - r, l);
        lemma_ring_start(m, y);
        assert(y == c);
        lemma_fundamental_div_mod(p - r, l);
        let e = (p - r) / l;
        assert(p == c + r + l * e);
        assert(p - q == l * (d + e)) by (nonlinear_arith)
            requires
                p == c + r + l * e,
                c + r == l * d + q,
        ;
        assert(p == q) by (nonlinear_arith)
            requires
                p - q == l * (d + e),
                0 <= p < l,
                0 <= q < l,
        ;
    }
}

/// A multiple of `l` strictly between `-l` and `l` is zero; one of `2 z`
/// with `z` in that range is zero too when `l` is odd.
proof fn lemma_small_multiple(z: int, l: int)
    requires
        l > 0,
        -l < z < l,
    ensures
        z % l == 0 ==> z == 0,
        l % 2 == 1 && (2 * z) % l == 0 ==> z == 0,
{
    lemma_fundamental_div_mod(z, l);
    let q = z / l;
    if z % l == 0 {
        assert(z == l * q);
        assert(q == 0) by (nonlinear_arith)
            requires
                z == l * q,
                -l < z < l,
                l > 0,
        ;
    }
    lemma_fundamental_div_mod(2 * z, l);
    let q2 = (2 * z) / l;
    if l % 2 == 1 && (2 * z) % l == 0 {
        assert(2 * z == l * q2);
        assert(-2 < q2 < 2) by (nonlinear_arith)
            requires
                2 * z == l * q2,
                -l < z < l,
                l > 0,
        ;
        lemma_fundamental_div_mod(l, 2);
        if q2 == 1 || q2 == -1 {
            assert(false) by (nonlinear_arith)
                requires
                    2 * z == l * q2,
                    q2 == 1 || q2 == -1,
                    l == 2 * (l / 2) + 1,
            ;
        }
        assert(q2 == 0);
        assert(2 * z == 0) by (nonlinear_arith)
            requires
                2 * z == l * q2,
                q2 == 0,
        ;
    }
}

/// Slot values are slots of the circle.
pub proof fn lemma_ring_at_range(m: int, r: int, p: int)
    requires
        m >= 2,
        m % 2 == 0,
    ensures
        1 <= ring_at(m, r, p) < m,
{
    lemma_mod_bound(p - r, m - 1);
    lemma_ring_start(m, (p - r) % (m - 1));
}

/// Slot 0 faces slot `b` after `r` turns exactly when `b` has come to the
/// last ring position.
pub proof fn lemma_faces_zero(m: int, r: int, b: int)
    requires
        m >= 2,
        m % 2 == 0,
        m <= u32::MAX,
        1 <= b < m,
    ensures
        faces(circle_top(m, r), circle_bottom(m, r), 0, b) <==> pos_at(m, r, b) == m - 2,
{
    let t = circle_top(m, r);
    let bt = circle_bottom(m, r);
    lemma_pos_at(m, r, b, m - 2);
    lemma_ring_at_range(m, r, m - 2);
    if pos_at(m, r, b) == m - 2 {
        assert(t[0] == 0 && bt[0] == b);
    }
    if faces(t, bt, 0, b) {
        let i = choose|i: int|
            0 <= i < t.len() && i < bt.len() && ((t[i] == 0 && bt[i] == b) || (t[i] == b && bt[i] == 0));
        lemma_ring_at_range(m, r, m - 2 - i);
        if i > 0 {
            lemma_ring_at_range(m, r, i - 1);
        }
        assert(i == 0);
    }
}

/// Slots `a` and `b` (neither of them 0) face each other after `r` turns
/// exactly when their ring positions add up to `m - 3`.
pub proof fn lemma_faces_pair(m: int, r: int, a: int, b: int)
    requires
        m >= 4,
        m % 2 == 0,
        m <= u32::MAX,
        1 <= a < m,
        1 <= b < m,
        a != b,
    ensures
        faces(circle_top(m, r), circle_bottom(m, r), a, b) <==> pos_at(m, r, a) + pos_at(m, r, b) == m - 3,
{
    let k = m / 2;
    let t = circle_top(m, r);
    let bt = circle_bottom(m, r);
    let pa = pos_at(m, r, a);
    let pb = pos_at(m, r, b);
    lemma_pos_at(m, r, a, 0);
    lemma_pos_at(m, r, b, 0);
    if pa + pb == m - 3 {
        let p = if pa < pb { pa } else { pb };
        let q = if pa < pb { pb } else { pa };
        assert(p != q);
        let i = p + 1;
        assert(1 <= i < k);
        lemma_ring_at_range(m, r, i - 1);
        lemma_ring_at_range(m, r, m - 2 - i);
        assert(t[i] == ring_at(m, r, p));
        assert(bt[i] == ring_at(m, r, q));
        assert(faces(t, bt, a, b));
    }
    if faces(t, bt, a, b) {
        let i = choose|i: int|
            0 <= i < t.len() && i < bt.len() && ((t[i] == a && bt[i] == b) || (t[i] == b && bt[i] == a));
        assert(i != 0);
        lemma_ring_at_range(m, r, i - 1);
        lemma_ring_at_range(m, r, m - 2 - i);
        lemma_pos_at(m, r, a, i - 1);
        lemma_pos_at(m, r, a, m - 2 - i);
        lemma_pos_at(m, r, b, i - 1);
        lemma_pos_at(m, r, b, m - 2 - i);
    }
}

/// Slot `b` comes to the last ring position in exactly one of the first
/// `m - 1` rounds.
proof fn lemma_once_zero(m: int, b: int)
    requires
        m >= 2,
        m % 2 == 0,
        1 <= b < m,
    ensures
        exists|r: int| 0 <= r < m - 1 && #[trigger] pos_at(m, r, b) == m - 2,
        forall|r1: int, r2: int|
            0 <= r1 < m - 1 && 0 <= r2 < m - 1 && pos_at(m, r1, b) == m - 2 && pos_at(m, r2, b) == m - 2 ==> r1
                == r2,
{
    let l = m - 1;
    let c = start_pos(m, b);
    lemma_start_pos(m, b);
    let r = l - 1 - c;
    lemma_small_mod((l - 1) as nat, l as nat);
    assert(c + r == l - 1);
    assert(pos_at(m, r, b) == m - 2);
    assert forall|r1: int, r2: int|
        0 <= r1 < l && 0 <= r2 < l && pos_at(m, r1, b) == m - 2 && pos_at(m, r2, b) == m - 2 implies r1 == r2 by {
        vstd::arithmetic::div_mod::lemma_mod_equivalence(c + r1, c + r2, l);
        assert((c + r1) - (c + r2) == r1 - r2);
        lemma_small_multiple(r1 - r2, l);
    }
}

/// The ring positions of two different slots add up to `m - 3` in exactly
/// one of the first `m - 1` rounds.
proof fn lemma_once_pair(m: int, a: int, b: int)
    requires
        m >= 4,
        m % 2 == 0,
        1 <= a < m,
        1 <= b < m,
        a != b,
    ensures
        exists|r: int| 0 <= r < m - 1 && #[trigger] pos_at(m, r, a) + pos_at(m, r, b) == m - 3,
        forall|r1: int, r2: int|
            0 <= r1 < m - 1 && 0 <= r2 < m - 1 && pos_at(m, r1, a) + pos_at(m, r1, b) == m - 3 && pos_at(m, r2, a)
                + pos_at(m, r2, b) == m - 3 ==> r1 == r2,
{
    let l = m - 1;
    let ca = start_pos(m, a);
    let cb = start_pos(m, b);
    lemma_start_pos(m, a);
    lemma_start_pos(m, b);
    assert(l % 2 == 1);
    lemma_small_mod((l - 2) as nat, l as nat);
    // the sum of the positions is congruent to ca + cb + 2 r
    assert forall|r: int| 0 <= r < l implies (#[trigger] (pos_at(m, r, a) + pos_at(m, r, b))) % l == (ca + cb + 2
        * r) % l by {
        vstd::arithmetic::div_mod::lemma_add_mod_noop(ca + r, cb + r, l);
        assert((ca + r) + (cb + r) == ca + cb + 2 * r);
    }
    // a sum congruent to l - 2 is l - 2
    assert forall|r: int| 0 <= r < l && (ca + cb + 2 * r) % l == l - 2 implies #[trigger] (pos_at(m, r, a) + pos_at(
        m,
        r,
        b,
    )) == m - 3 by {
        let sum = pos_at(m, r, a) + pos_at(m, r, b);
        lemma_pos_at(m, r, a, 0);
        lemma_pos_at(m, r, b, 0);
        assert(sum % l == l - 2);
        lemma_fundamental_div_mod(sum, l);
        let q = sum / l;
        assert(q == 0 || q == 1) by (nonlinear_arith)
            requires
                sum == l * q + (l - 2),
                0 <= sum <= 2 * l - 2,
                l >= 3,
        ;
        if q == 1 {
            assert(pos_at(m, r, a) == l - 1 && pos_at(m, r, b) == l - 1);
            assert(false);
        }
    }
    // existence
    let d = (l - 2 - ca - cb) % l;
    lemma_mod_bound(l - 2 - ca - cb, l);
    let r0 = if d % 2 == 0 {
        d / 2
    } else {
        (d + l) / 2
    };
    vstd::arithmetic::div_mod::lemma_add_mod_noop_right(ca + cb, l - 2 - ca - cb, l);
    assert((ca + cb + d) % l == l - 2);
    if d % 2 != 0 {
        assert(2 * r0 == d + l);
        lemma_mod_add_multiples_vanish(ca + cb + d, l);
        assert(ca + cb + 2 * r0 == l + (ca + cb + d));
    } else {
        assert(2 * r0 == d);
    }
    assert((ca + cb + 2 * r0) % l == l - 2);
    assert(pos_at(m, r0, a) + pos_at(m, r0, b) == m - 3);
    // uniqueness
    assert forall|r1: int, r2: int|
        0 <= r1 < l && 0 <= r2 < l && pos_at(m, r1, a) + pos_at(m, r1, b) == m - 3 && pos_at(m, r2, a) + pos_at(
            m,
            r2,
            b,
        ) == m - 3 implies r1 == r2 by {
        assert((ca + cb + 2 * r1) % l == l - 2);
        assert((ca + cb + 2 * r2) % l == l - 2);
        vstd::arithmetic::div_mod::lemma_mod_equivalence(ca + cb + 2 * r1, ca + cb + 2 * r2, l);
        assert((ca + cb + 2 * r1) - (ca + cb + 2 * r2) == 2 * (r1 - r2));
        lemma_small_multiple(r1 - r2, l);
    }
}

/// Over the rounds of a round robin every two of its slots face each other
/// exactly once: starting from a fresh round robin of two or more players
/// and turning the circle between rounds (as `next` does), for each two
/// different slots (each entrant has one, an odd field adds a free slot)
/// exactly one of the tournament's rounds has them face each other.
pub proof fn law_round_robin_meets_once(rounds: Seq<RoundRobin>, names: Seq<Seq<char>>, a: int, b: int)
    requires
        names.len() >= 2,
        names.len() < u32::MAX,
        rounds.len() == round_count(names.len()),
        rounds[0].fresh(names),
        forall|j: int| 0 <= j < rounds.len() - 1 ==> #[trigger] turned(rounds[j], rounds[j + 1]),
        0 <= a < slot_count(names.len()),
        0 <= b < slot_count(names.len()),
        a != b,
    ensures
        exists|r: int|
            0 <= r < rounds.len() && #[trigger] faces(rounds[r].top_half@, rounds[r].bottom_half@, a, b),
        forall|r1: int, r2: int|
            0 <= r1 < rounds.len() && 0 <= r2 < rounds.len() && faces(
                rounds[r1].top_half@,
                rounds[r1].bottom_half@,
                a,
                b,
            ) && faces(rounds[r2].top_half@, rounds[r2].bottom_half@, a, b) ==> r1 == r2,
{
    let m = slot_count(names.len()) as int;
    let l = m - 1;
    assert(m % 2 == 0 && m >= 2 && m <= u32::MAX);
    assert(rounds.len() == l);
    assert forall|r: int| 0 <= r < rounds.len() implies #[trigger] faces(
        rounds[r].top_half@,
        rounds[r].bottom_half@,
        a,
        b,
    ) == faces(circle_top(m, r), circle_bottom(m, r), a, b) by {
        lemma_rounds_circle(rounds, names, r);
    }
    if a == 0 || b == 0 {
        let o = if a == 0 { b } else { a };
        lemma_once_zero(m, o);
        assert forall|r: int| 0 <= r < l implies (#[trigger] faces(circle_top(m, r), circle_bottom(m, r), a, b)) == (
        pos_at(m, r, o) == m - 2) by {
            lemma_faces_zero(m, r, o);
        }
        let r0 = choose|r: int| 0 <= r < l && #[trigger] pos_at(m, r, o) == m - 2;
        assert(faces(rounds[r0].top_half@, rounds[r0].bottom_half@, a, b));
    } else {
        assert(m >= 4);
        lemma_once_pair(m, a, b);
        assert forall|r: int| 0 <= r < l implies (#[trigger] faces(circle_top(m, r), circle_bottom(m, r), a, b)) == (
        pos_at(m, r, a) + pos_at(m, r, b) == m - 3) by {
            lemma_faces_pair(m, r, a, b);
        }
        let r0 = choose|r: int| 0 <= r < l && #[trigger] pos_at(m, r, a) + pos_at(m, r, b) == m - 3;
        assert(faces(rounds[r0].top_half@, rounds[r0].bottom_half@, a, b));
    }
}


} // verus!
