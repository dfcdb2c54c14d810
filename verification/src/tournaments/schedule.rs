//! The matches of a round robin: over its rounds every two entrants are
//! paired exactly once, and within a round nobody plays twice.
use vstd::prelude::*;
use crate::tournaments::circle::{
    circle_bottom, circle_top, faces, lemma_pos_at, lemma_ring_at_range, lemma_rounds_circle,
    law_round_robin_meets_once, ring_at,
};
use crate::tournaments::round_robin::{pairs_upto, round_count, slot_count, turned, RoundRobin};

verus! {

/// No slot occurs twice in the two rows.
pub open spec fn rows_distinct(top: Seq<u32>, bottom: Seq<u32>) -> bool {
    forall|i: int, j: int|
        0 <= i < top.len() && 0 <= j < top.len() ==> (i != j ==> #[trigger] top[i] != #[trigger] top[j]
            && bottom[i] != bottom[j]) && top[i] != bottom[j]
}

/// The pairing `p` comes from the facing slots at index `i`, both holding
/// players.
pub open spec fn from_slots(players: Seq<(String, u32)>, top: Seq<u32>, bottom: Seq<u32>, i: int, p: (
    Seq<char>,
    Seq<char>,
)) -> bool {
    &&& 0 <= i < top.len()
    &&& i < bottom.len()
    &&& top[i] < players.len()
    &&& bottom[i] < players.len()
    &&& p == (players[top[i] as int].0@, players[bottom[i] as int].0@)
}

/// Two pairings share no player.
pub open spec fn apart(p: (Seq<char>, Seq<char>), q: (Seq<char>, Seq<char>)) -> bool {
    p.0 != q.0 && p.0 != q.1 && p.1 != q.0 && p.1 != q.1
}

/// The two named players are paired in the round, either way round.
pub open spec fn meets(pairs: Seq<(Seq<char>, Seq<char>)>, x: Seq<char>, y: Seq<char>) -> bool {
    exists|j: int| 0 <= j < pairs.len() && (#[trigger] pairs[j] == (x, y) || pairs[j] == (y, x))
}

/// No two players share a name.
pub open spec fn names_distinct(players: Seq<(String, u32)>) -> bool {
    forall|i: int, j: int|
        0 <= i < players.len() && 0 <= j < players.len() && i != j ==> #[trigger] players[i].0@
            != #[trigger] players[j].0@
}

/// The rows of the circle never hold a slot twice.
proof fn lemma_circle_distinct(m: int, r: int)
    requires
        m >= 2,
        m % 2 == 0,
        m <= u32::MAX,
    ensures
        rows_distinct(circle_top(m, r), circle_bottom(m, r)),
        forall|i: int| 0 <= i < m / 2 ==> #[trigger] circle_top(m, r)[i] < m && circle_bottom(m, r)[i] < m,
{
    let k = m / 2;
    let t = circle_top(m, r);
    let b = circle_bottom(m, r);
    assert forall|i: int| 0 <= i < k implies #[trigger] t[i] < m && b[i] < m && (i > 0 ==> 1 <= t[i]) && 1 <= b[i] by {
        lemma_ring_at_range(m, r, m - 2 - i);
        if i > 0 {
            lemma_ring_at_range(m, r, i - 1);
        }
    }
    assert forall|i: int, j: int| 0 <= i < t.len() && 0 <= j < t.len() implies (i != j ==> #[trigger] t[i]
        != #[trigger] t[j] && b[i] != b[j]) && t[i] != b[j] by {
        assert(t[i] < m && b[i] < m && t[j] < m && b[j] < m);
        if i > 0 {
            lemma_ring_at_range(m, r, i - 1);
        }
        if j > 0 {
            lemma_ring_at_range(m, r, j - 1);
        }
        lemma_ring_at_range(m, r, m - 2 - i);
        lemma_ring_at_range(m, r, m - 2 - j);
        if i != j && i > 0 && j > 0 && t[i] == t[j] {
            let s = ring_at(m, r, i - 1);
            lemma_pos_at(m, r, s, i - 1);
            lemma_pos_at(m, r, s, j - 1);
        }
        if i != j && b[i] == b[j] {
            let s = ring_at(m, r, m - 2 - i);
            lemma_pos_at(m, r, s, m - 2 - i);
            lemma_pos_at(m, r, s, m - 2 - j);
        }
        if i > 0 && t[i] == b[j] {
            let s = ring_at(m, r, i - 1);
            lemma_pos_at(m, r, s, i - 1);
            lemma_pos_at(m, r, s, m - 2 - j);
        }
    }
}

/// The index of the facing slots that gave pairing `j` of a round.
pub open spec fn source_of(players: Seq<(String, u32)>, top: Seq<u32>, bottom: Seq<u32>, k: int, j: int) -> int
    decreases k,
{
    if k <= 0 {
        0
    } else if j < pairs_upto(players, top, bottom, k - 1).len() {
        source_of(players, top, bottom, k - 1, j)
    } else {
        k - 1
    }
}

/// Each pairing of a round comes from facing slots that hold players, and
/// later pairings from later slots.
proof fn lemma_pairs_sources(players: Seq<(String, u32)>, top: Seq<u32>, bottom: Seq<u32>, k: int)
    requires
        0 <= k <= top.len(),
        top.len() == bottom.len(),
    ensures
        pairs_upto(players, top, bottom, k).len() <= k,
        forall|j: int|
            0 <= j < pairs_upto(players, top, bottom, k).len() ==> #[trigger] source_of(players, top, bottom, k, j) < k,
        forall|j: int|
            #![trigger pairs_upto(players, top, bottom, k)[j]]
            0 <= j < pairs_upto(players, top, bottom, k).len() ==> from_slots(
                players,
                top,
                bottom,
                source_of(players, top, bottom, k, j),
                pairs_upto(players, top, bottom, k)[j],
            ),
        forall|j1: int, j2: int|
            0 <= j1 < j2 < pairs_upto(players, top, bottom, k).len() ==> #[trigger] source_of(
                players,
                top,
                bottom,
                k,
                j1,
            ) < #[trigger] source_of(players, top, bottom, k, j2),
    decreases k,
{
    if k <= 0 {
        assert(pairs_upto(players, top, bottom, k).len() == 0);
    } else {
        lemma_pairs_sources(players, top, bottom, k - 1);
        let prev = pairs_upto(players, top, bottom, k - 1);
        let last = k - 1;
        if top[last] < players.len() && bottom[last] < players.len() {
            let p = (players[top[last] as int].0@, players[bottom[last] as int].0@);
            assert(pairs_upto(players, top, bottom, k) == prev.push(p));
        } else {
            assert(pairs_upto(players, top, bottom, k) == prev);
        }
        assert(pairs_upto(players, top, bottom, k).len() <= prev.len() + 1);
        assert forall|j: int|
            #![trigger pairs_upto(players, top, bottom, k)[j]]
            0 <= j < pairs_upto(players, top, bottom, k).len() implies source_of(players, top, bottom, k, j) < k
                && from_slots(
                players,
                top,
                bottom,
                source_of(players, top, bottom, k, j),
                pairs_upto(players, top, bottom, k)[j],
            ) by {
            if j < prev.len() {
                assert(pairs_upto(players, top, bottom, k)[j] == prev[j]);
                assert(source_of(players, top, bottom, k, j) == source_of(players, top, bottom, k - 1, j));
                assert(from_slots(players, top, bottom, source_of(players, top, bottom, k - 1, j), prev[j]));
                assert(source_of(players, top, bottom, k - 1, j) < k - 1);
            } else {
                assert(top[last] < players.len() && bottom[last] < players.len());
                assert(source_of(players, top, bottom, k, j) == k - 1);
                assert(from_slots(players, top, bottom, k - 1, pairs_upto(players, top, bottom, k)[j]));
            }
        }
        assert forall|j: int| 0 <= j < pairs_upto(players, top, bottom, k).len() implies #[trigger] source_of(
            players,
            top,
            bottom,
            k,
            j,
        ) < k by {
            let q = pairs_upto(players, top, bottom, k)[j];
            if j < prev.len() {
                assert(source_of(players, top, bottom, k, j) == source_of(players, top, bottom, k - 1, j));
            }
        }
        assert forall|j1: int, j2: int| 0 <= j1 < j2 < pairs_upto(players, top, bottom, k).len() implies #[trigger] source_of(
            players,
            top,
            bottom,
            k,
            j1,
        ) < #[trigger] source_of(players, top, bottom, k, j2) by {
            if j2 < prev.len() {
                assert(source_of(players, top, bottom, k - 1, j1) < source_of(players, top, bottom, k - 1, j2));
            } else {
                assert(j1 < prev.len());
                assert(source_of(players, top, bottom, k, j2) == k - 1);
                assert(source_of(players, top, bottom, k - 1, j1) < k - 1);
            }
        }
    }
}

/// The facing slots at `i`, both holding players, give the pairing that
/// follows the pairings of the slots before them.
proof fn lemma_pairs_complete(players: Seq<(String, u32)>, top: Seq<u32>, bottom: Seq<u32>, k: int, i: int)
    requires
        0 <= i < k <= top.len(),
        top.len() == bottom.len(),
        top[i] < players.len(),
        bottom[i] < players.len(),
    ensures
        pairs_upto(players, top, bottom, i).len() < pairs_upto(players, top, bottom, k).len(),
        from_slots(
            players,
            top,
            bottom,
            i,
            pairs_upto(players, top, bottom, k)[pairs_upto(players, top, bottom, i).len() as int],
        ),
    decreases k,
{
    let prev = pairs_upto(players, top, bottom, k - 1);
    let last = k - 1;
    if top[last] < players.len() && bottom[last] < players.len() {
        let p = (players[top[last] as int].0@, players[bottom[last] as int].0@);
        assert(pairs_upto(players, top, bottom, k) == prev.push(p));
    } else {
        assert(pairs_upto(players, top, bottom, k) == prev);
    }
    if i < last {
        lemma_pairs_complete(players, top, bottom, k - 1, i);
    }
}

/// With no slot twice in the rows and no name twice, the pairings of a
/// round share no player, and nobody is paired with themselves.
proof fn lemma_pairs_apart(players: Seq<(String, u32)>, top: Seq<u32>, bottom: Seq<u32>, k: int)
    requires
        0 <= k <= top.len(),
        top.len() == bottom.len(),
        rows_distinct(top, bottom),
        names_distinct(players),
    ensures
        forall|j1: int, j2: int|
            0 <= j1 < j2 < pairs_upto(players, top, bottom, k).len() ==> apart(
                #[trigger] pairs_upto(players, top, bottom, k)[j1],
                #[trigger] pairs_upto(players, top, bottom, k)[j2],
            ),
        forall|j: int|
            0 <= j < pairs_upto(players, top, bottom, k).len() ==> (#[trigger] pairs_upto(
                players,
                top,
                bottom,
                k,
            )[j]).0 != pairs_upto(players, top, bottom, k)[j].1,
{
    lemma_pairs_sources(players, top, bottom, k);
    let ps = pairs_upto(players, top, bottom, k);
    assert forall|j1: int, j2: int| 0 <= j1 < j2 < ps.len() implies apart(#[trigger] ps[j1], #[trigger] ps[j2]) by {
        let i1 = source_of(players, top, bottom, k, j1);
        let i2 = source_of(players, top, bottom, k, j2);
        assert(from_slots(players, top, bottom, i1, ps[j1]));
        assert(from_slots(players, top, bottom, i2, ps[j2]));
        assert(i1 < i2);
        assert(top[i1] != top[i2] && bottom[i1] != bottom[i2]);
        assert(top[i1] != bottom[i2] && top[i2] != bottom[i1]);
        assert(players[top[i1] as int].0@ != players[top[i2] as int].0@);
        assert(players[top[i1] as int].0@ != players[bottom[i2] as int].0@);
        assert(players[bottom[i1] as int].0@ != players[top[i2] as int].0@);
        assert(players[bottom[i1] as int].0@ != players[bottom[i2] as int].0@);
    }
    assert forall|j: int| 0 <= j < ps.len() implies (#[trigger] ps[j]).0 != ps[j].1 by {
        let i = source_of(players, top, bottom, k, j);
        assert(from_slots(players, top, bottom, i, ps[j]));
        assert(top[i] != bottom[i]);
        assert(players[top[i] as int].0@ != players[bottom[i] as int].0@);
    }
}

/// Every round of a chain of turns has the players of the first.
proof fn lemma_rounds_players(rounds: Seq<RoundRobin>, j: int)
    requires
        0 <= j < rounds.len(),
        forall|x: int| 0 <= x < rounds.len() - 1 ==> #[trigger] turned(rounds[x], rounds[x + 1]),
    ensures
        rounds[j].players == rounds[0].players,
    decreases j,
{
    if j > 0 {
        lemma_rounds_players(rounds, j - 1);
        let x = j - 1;
        assert(turned(rounds[x], rounds[x + 1]));
    }
}

/// The matches a round robin creates: starting from a fresh round robin of
/// two or more players with different names, the round that `start` opens
/// and each round that `next` opens after turning the circle pair every two
/// entrants in exactly one round, and within a round nobody plays twice (or
/// against themselves).
pub proof fn law_round_robin_schedule(rounds: Seq<RoundRobin>, names: Seq<Seq<char>>, a: int, b: int)
    requires
        names.len() >= 2,
        names.len() < u32::MAX,
        forall|i: int, j: int| 0 <= i < names.len() && 0 <= j < names.len() && i != j ==> names[i] != names[j],
        rounds.len() == round_count(names.len()),
        rounds[0].fresh(names),
        forall|j: int| 0 <= j < rounds.len() - 1 ==> #[trigger] turned(rounds[j], rounds[j + 1]),
        0 <= a < names.len(),
        0 <= b < names.len(),
        a != b,
    ensures
        exists|r: int| 0 <= r < rounds.len() && #[trigger] meets(rounds[r].round_pairs(), names[a], names[b]),
        forall|r1: int, r2: int|
            0 <= r1 < rounds.len() && 0 <= r2 < rounds.len() && #[trigger] meets(
                rounds[r1].round_pairs(),
                names[a],
                names[b],
            ) && #[trigger] meets(rounds[r2].round_pairs(), names[a], names[b]) ==> r1 == r2,
        forall|r: int, j1: int, j2: int|
            0 <= r < rounds.len() && 0 <= j1 < j2 < rounds[r].round_pairs().len() ==> apart(
                #[trigger] rounds[r].round_pairs()[j1],
                #[trigger] rounds[r].round_pairs()[j2],
            ),
        forall|r: int, j: int|
            0 <= r < rounds.len() && 0 <= j < rounds[r].round_pairs().len() ==> (
            #[trigger] rounds[r].round_pairs()[j]).0 != rounds[r].round_pairs()[j].1,
{
    let n = names.len();
    let m = slot_count(n) as int;
    let k = m / 2;
    let ps = rounds[0].players@;
    assert(m % 2 == 0 && m >= 2 && m <= u32::MAX);
    assert(rounds.len() == m - 1);
    assert(ps.len() == n);
    assert forall|i: int| 0 <= i < n implies #[trigger] ps[i].0@ == names[i] by {
        assert(ps[i].0@ == rounds[0].usernames@[i]@);
    }
    assert(names_distinct(ps)) by {
        assert forall|i: int, j: int| 0 <= i < ps.len() && 0 <= j < ps.len() && i != j implies #[trigger] ps[i].0@
            != #[trigger] ps[j].0@ by {
            assert(ps[i].0@ == names[i] && ps[j].0@ == names[j]);
        }
    }
    assert forall|r: int| 0 <= r < rounds.len() implies {
        &&& rounds[r].players@ == ps
        &&& #[trigger] rounds[r].top_half@ == circle_top(m, r)
        &&& rounds[r].bottom_half@ == circle_bottom(m, r)
        &&& rounds[r].round_pairs() == pairs_upto(ps, circle_top(m, r), circle_bottom(m, r), k)
    } by {
        lemma_rounds_players(rounds, r);
        lemma_rounds_circle(rounds, names, r);
    }
    assert forall|r: int, j1: int, j2: int|
        0 <= r < rounds.len() && 0 <= j1 < j2 < rounds[r].round_pairs().len() implies apart(
        #[trigger] rounds[r].round_pairs()[j1],
        #[trigger] rounds[r].round_pairs()[j2],
    ) by {
        assert(rounds[r].top_half@ == circle_top(m, r));
        lemma_circle_distinct(m, r);
        lemma_pairs_apart(ps, circle_top(m, r), circle_bottom(m, r), k);
    }
    assert forall|r: int, j: int| 0 <= r < rounds.len() && 0 <= j < rounds[r].round_pairs().len() implies (
    #[trigger] rounds[r].round_pairs()[j]).0 != rounds[r].round_pairs()[j].1 by {
        assert(rounds[r].top_half@ == circle_top(m, r));
        lemma_circle_distinct(m, r);
        lemma_pairs_apart(ps, circle_top(m, r), circle_bottom(m, r), k);
    }
    law_round_robin_meets_once(rounds, names, a, b);
    // Meeting by name is facing by slot.
    assert forall|r: int| 0 <= r < rounds.len() implies #[trigger] meets(rounds[r].round_pairs(), names[a], names[b])
        == faces(rounds[r].top_half@, rounds[r].bottom_half@, a, b) by {
        let t = circle_top(m, r);
        let bt = circle_bottom(m, r);
        assert(rounds[r].top_half@ == t);
        let pairs = pairs_upto(ps, t, bt, k);
        lemma_pairs_sources(ps, t, bt, k);
        if faces(t, bt, a, b) {
            let i = choose|i: int|
                0 <= i < t.len() && i < bt.len() && ((t[i] == a && bt[i] == b) || (t[i] == b && bt[i] == a));
            lemma_circle_distinct(m, r);
            lemma_pairs_complete(ps, t, bt, k, i);
            let j = pairs_upto(ps, t, bt, i).len() as int;
            assert(from_slots(ps, t, bt, i, pairs[j]));
            assert(pairs[j] == (names[a], names[b]) || pairs[j] == (names[b], names[a]));
            assert(meets(pairs, names[a], names[b]));
        }
        if meets(pairs, names[a], names[b]) {
            let j = choose|j: int| 0 <= j < pairs.len() && (#[trigger] pairs[j] == (names[a], names[b]) || pairs[j] == (
            names[b], names[a]));
            let i = source_of(ps, t, bt, k, j);
            assert(from_slots(ps, t, bt, i, pairs[j]));
            let x = t[i] as int;
            let y = bt[i] as int;
            assert(ps[x].0@ == names[x] && ps[y].0@ == names[y]);
            assert((x == a && y == b) || (x == b && y == a));
            assert(faces(t, bt, a, b));
        }
    }
    let r0 = choose|r: int| 0 <= r < rounds.len() && #[trigger] faces(rounds[r].top_half@, rounds[r].bottom_half@, a, b);
    assert(meets(rounds[r0].round_pairs(), names[a], names[b]));
}

} // verus!
