//! A round robin by the circle method: the slots are laid out in two rows
//! facing each other, slot `top_half[i]` playing slot `bottom_half[i]`; after
//! each round every slot but the first moves one place round the circle. With
//! an odd number of players one slot is empty and its opponent sits out.
use vstd::prelude::*;
use crate::lists::{copy_names, contains_name, remove_id, without};
use crate::text::views;
use crate::tournaments::standings::{entries_view, sort_by_score, sorted_by_score};
use crate::tournaments::TournamentEvent;

verus! {

/// Slots in the circle: the number of players rounded up to an even number.
pub open spec fn slot_count(n: nat) -> nat {
    if n % 2 == 0 {
        n
    } else {
        n + 1
    }
}

/// Rounds of a round robin of `n` players: one fewer than the slots, and none
/// with fewer than two players.
pub open spec fn round_count(n: nat) -> nat {
    if n < 2 {
        0
    } else {
        (slot_count(n) - 1) as nat
    }
}

/// The pairings of a round, by the players' names: the first `k` facing slot
/// pairs whose two slots hold players.
pub open spec fn pairs_upto(
    players: Seq<(String, u32)>,
    top: Seq<u32>,
    bottom: Seq<u32>,
    k: int,
) -> Seq<(Seq<char>, Seq<char>)>
    decreases k,
{
    if k <= 0 {
        Seq::empty()
    } else {
        let prev = pairs_upto(players, top, bottom, k - 1);
        let i = k - 1;
        if top[i] < players.len() && i < bottom.len() && bottom[i] < players.len() {
            prev.push((players[top[i] as int].0@, players[bottom[i] as int].0@))
        } else {
            prev
        }
    }
}

/// The views of a list of pairings.
pub open spec fn pair_views(v: Seq<(String, String)>) -> Seq<(Seq<char>, Seq<char>)> {
    v.map_values(|p: (String, String)| (p.0@, p.1@))
}

/// The score after one more win, as a release build's `+=` computes it.
pub open spec fn one_more(score: u32) -> u32 {
    if score == u32::MAX {
        0
    } else {
        (score + 1) as u32
    }
}

/// The first player of the list with the given name is at index `i`.
pub open spec fn first_named(players: Seq<(String, u32)>, name: Seq<char>, i: int) -> bool {
    &&& 0 <= i < players.len()
    &&& players[i].0@ == name
    &&& forall|j: int| 0 <= j < i ==> players[j].0@ != name
}

/// Some player has the given name.
pub open spec fn has_named(players: Seq<(String, u32)>, name: Seq<char>) -> bool {
    exists|i: int| 0 <= i < players.len() && players[i].0@ == name
}

/// The best score of the standings (0 when empty).
pub open spec fn best_score(players: Seq<(String, u32)>) -> u32
    decreases players.len(),
{
    if players.len() == 0 {
        0
    } else {
        let rest = best_score(players.drop_last());
        if players.last().1 > rest {
            players.last().1
        } else {
            rest
        }
    }
}

/// Player `i` leads: it has a positive score that no player reaches before
/// it and that no player exceeds.
pub open spec fn leads(players: Seq<(String, u32)>, i: int) -> bool {
    &&& 0 <= i < players.len()
    &&& players[i].1 > 0
    &&& forall|j: int| 0 <= j < players.len() ==> players[j].1 <= players[i].1
    &&& forall|j: int| 0 <= j < i ==> players[j].1 < players[i].1
}

/// The circle turned once: the first slot stays, the first bottom slot moves
/// to second place on top, the last top slot to the end of the bottom row,
/// and one more round has been played.
pub open spec fn turned(old: RoundRobin, new: RoundRobin) -> bool {
    &&& new.top_half@ == seq![old.top_half@[0], old.bottom_half@[0]] + old.top_half@.subrange(
        1,
        old.top_half@.len() - 1,
    )
    &&& new.bottom_half@ == old.bottom_half@.drop_first().push(old.top_half@.last())
    &&& new.rounds_played == old.rounds_played + 1
    &&& new.players == old.players
    &&& new.completed == old.completed
    &&& new.total_rounds == old.total_rounds
    &&& new.current_matches == old.current_matches
    &&& new.usernames == old.usernames
}

/// What moving on from a round of an unfinished round robin does: the
/// standings (best first) are published; then either the tournament is
/// over, or the circle turns and the new round's pairings follow.
pub open spec fn round_events(old: RoundRobin, new: RoundRobin, ev: Seq<TournamentEvent>) -> bool {
    &&& ev.len() >= 1
    &&& ev[0] matches TournamentEvent::Scores(s) && entries_view(s@).to_multiset() == entries_view(
        old.players@,
    ).to_multiset() && sorted_by_score(entries_view(s@), true)
    &&& old.rounds_played >= old.total_rounds ==> ev.len() == 1 && new == (RoundRobin {
        completed: true,
        ..old
    })
    &&& old.rounds_played < old.total_rounds ==> {
        &&& turned(old, new)
        &&& ev.len() == 2
        &&& ev[1] matches TournamentEvent::Pairings(p) && pair_views(p@) == new.round_pairs()
    }
}

/// Recording a win: the first player with the winner's name scores one more
/// and the match leaves the current ones; an empty winner (a draw) changes
/// nothing.
pub open spec fn rr_recorded(old: RoundRobin, new: RoundRobin, winner: Seq<char>, match_id: u32) -> bool {
    &&& winner.len() == 0 ==> new == old
    &&& winner.len() != 0 ==> {
        &&& new.current_matches@ == without(old.current_matches@, match_id)
        &&& new.top_half == old.top_half
        &&& new.bottom_half == old.bottom_half
        &&& new.completed == old.completed
        &&& new.total_rounds == old.total_rounds
        &&& new.rounds_played == old.rounds_played
        &&& new.usernames == old.usernames
        &&& !has_named(old.players@, winner) ==> new.players == old.players
        &&& forall|i: int| #[trigger] first_named(old.players@, winner, i) ==> new.players@ == old.players@.update(
            i,
            (old.players@[i].0, one_more(old.players@[i].1)),
        )
    }
}

/// A round robin tournament. Player `id` is `players[id]`; `top_half` and
/// `bottom_half` hold the slots of the circle.
pub struct RoundRobin {
    pub players: Vec<(String, u32)>,
    pub top_half: Vec<u32>,
    pub bottom_half: Vec<u32>,
    pub completed: bool,
    pub total_rounds: usize,
    pub rounds_played: usize,
    pub current_matches: Vec<u32>,
    pub usernames: Vec<String>,
}

impl RoundRobin {
    /// The tournament is well formed: one standing per entrant, in order, and
    /// two rows of half the slots each.
    pub open spec fn wf(&self) -> bool {
        let n = self.usernames@.len();
        &&& self.players@.len() == n
        &&& forall|i: int| 0 <= i < n ==> #[trigger] self.players@[i].0@ == self.usernames@[i]@
        &&& self.top_half@.len() == slot_count(n) / 2
        &&& self.bottom_half@.len() == slot_count(n) / 2
        &&& self.total_rounds == round_count(n)
    }

    /// A round robin of the given players, not started yet: slots `0..n/2`
    /// on top, the rest below, every score zero.
    pub open spec fn fresh(&self, names: Seq<Seq<char>>) -> bool {
        let n = names.len();
        &&& self.wf()
        &&& views(self.usernames@) == names
        &&& forall|i: int| 0 <= i < n ==> #[trigger] self.players@[i].1 == 0
        &&& self.top_half@ == Seq::new(slot_count(n) / 2, |i: int| i as u32)
        &&& self.bottom_half@ == Seq::new(slot_count(n) / 2, |i: int| (slot_count(n) / 2 + i) as u32)
        &&& self.completed == (round_count(n) == 0)
        &&& self.rounds_played == 0
        &&& self.current_matches@.len() == 0
    }

    /// Well formed and started (or over): `next` may be called.
    pub open spec fn running(&self) -> bool {
        self.wf() && (self.completed || self.rounds_played >= 1)
    }

    /// The pairings of the current round.
    pub open spec fn round_pairs(&self) -> Seq<(Seq<char>, Seq<char>)> {
        pairs_upto(self.players@, self.top_half@, self.bottom_half@, self.top_half@.len() as int)
    }

    /// A round robin of the given players, not started yet: slots `0..n/2`
    /// on top, the rest below, every score zero.
    pub fn new(ready_players: &Vec<String>) -> (r: RoundRobin)
        requires
            ready_players@.len() < u32::MAX,
        ensures
            r.fresh(views(ready_players@)),
    {
        let size = ready_players.len();
        let total_slots: usize = if size % 2 == 0 {
            size
        } else {
            size + 1
        };
        let total_rounds: usize = if size < 2 {
            0
        } else {
            total_slots - 1
        };
        let usernames = copy_names(ready_players);
        let mut players: Vec<(String, u32)> = Vec::new();
        let mut i: usize = 0;
        while i < size
            invariant
                size == ready_players@.len(),
                views(usernames@) == views(ready_players@),
                i <= size,
                players@.len() == i,
                forall|j: int| 0 <= j < i ==> #[trigger] players@[j].0@ == ready_players@[j]@,
                forall|j: int| 0 <= j < i ==> #[trigger] players@[j].1 == 0,
            decreases size - i,
        {
            players.push((ready_players[i].clone(), 0));
            i = i + 1;
        }
        let half = total_slots / 2;
        let mut top_half: Vec<u32> = Vec::new();
        let mut k: usize = 0;
        while k < half
            invariant
                half == slot_count(size as nat) / 2,
                size < u32::MAX,
                k <= half,
                top_half@ == Seq::new(k as nat, |j: int| j as u32),
            decreases half - k,
        {
            top_half.push(k as u32);
            k = k + 1;
            assert(top_half@ =~= Seq::new(k as nat, |j: int| j as u32));
        }
        let mut bottom_half: Vec<u32> = Vec::new();
        let mut k: usize = half;
        while k < total_slots
            invariant
                half == slot_count(size as nat) / 2,
                total_slots == slot_count(size as nat),
                total_slots == 2 * half,
                size < u32::MAX,
                half <= k <= total_slots,
                bottom_half@ == Seq::new((k - half) as nat, |j: int| (half + j) as u32),
            decreases total_slots - k,
        {
            bottom_half.push(k as u32);
            k = k + 1;
            assert(bottom_half@ =~= Seq::new((k - half) as nat, |j: int| (half + j) as u32));
        }
        let r = RoundRobin {
            players,
            top_half,
            bottom_half,
            completed: total_rounds == 0,
            total_rounds,
            rounds_played: 0,
            current_matches: Vec::new(),
            usernames,
        };
        proof {
            crate::text::lemma_views(r.usernames@);
            crate::text::lemma_views(ready_players@);
        }
        assert forall|j: int| 0 <= j < size implies #[trigger] r.players@[j].0@ == r.usernames@[j]@ by {
            assert(views(r.usernames@)[j] == views(ready_players@)[j]);
            assert(views(r.usernames@)[j] == r.usernames@[j]@);
            assert(views(ready_players@)[j] == ready_players@[j]@);
        }
        r
    }

    /// The pairings of the current round, by the players' names.
    pub fn pairings(&self) -> (r: Vec<(String, String)>)
        ensures
            pair_views(r@) == self.round_pairs(),
    {
        let mut r: Vec<(String, String)> = Vec::new();
        let mut i: usize = 0;
        assert(pair_views(r@) =~= Seq::<(Seq<char>, Seq<char>)>::empty());
        while i < self.top_half.len()
            invariant
                i <= self.top_half@.len(),
                pair_views(r@) == pairs_upto(self.players@, self.top_half@, self.bottom_half@, i as int),
            decreases self.top_half@.len() - i,
        {
            let top = self.top_half[i];
            if (top as usize) < self.players.len() && i < self.bottom_half.len() {
                let bottom = self.bottom_half[i];
                if (bottom as usize) < self.players.len() {
                    let p = (self.players[top as usize].0.clone(), self.players[bottom as usize].0.clone());
                    let ghost old_r = r@;
                    r.push(p);
                    assert(pair_views(r@) =~= pair_views(old_r).push((p.0@, p.1@)));
                }
            }
            i = i + 1;
        }
        r
    }

    /// Starts the tournament: the first round is played (unless it is already
    /// over); its pairings are returned.
    pub fn start(&mut self) -> (r: Option<Vec<(String, String)>>)
        requires
            old(self).wf(),
        ensures
            final(self).wf(),
            old(self).completed ==> r is None && *final(self) == *old(self),
            !old(self).completed ==> {
                &&& *final(self) == (RoundRobin { rounds_played: 1, ..*old(self) })
                &&& r matches Some(p) && pair_views(p@) == old(self).round_pairs()
            },
    {
        if self.completed {
            return None;
        }
        self.rounds_played = 1;
        Some(self.pairings())
    }

    /// Records a win: the winner's score goes up by one and the match leaves
    /// the current ones. An empty winner (a draw) changes nothing.
    pub fn inform_winner(&mut self, winner: &String, match_id: u32)
        ensures
            old(self).wf() ==> final(self).wf(),
            rr_recorded(*old(self), *final(self), winner@, match_id),
    {
        if winner.unicode_len() == 0 {
            return;
        }
        let mut i: usize = 0;
        while i < self.players.len()
            invariant
                i <= self.players@.len(),
                winner@.len() != 0,
                self.players == old(self).players,
                self.current_matches == old(self).current_matches,
                self.top_half == old(self).top_half,
                self.bottom_half == old(self).bottom_half,
                self.completed == old(self).completed,
                self.total_rounds == old(self).total_rounds,
                self.rounds_played == old(self).rounds_played,
                self.usernames == old(self).usernames,
                forall|j: int| 0 <= j < i ==> self.players@[j].0@ != winner@,
            decreases self.players@.len() - i,
        {
            if self.players[i].0 == *winner {
                let name = self.players[i].0.clone();
                let score = self.players[i].1.wrapping_add(1);
                self.players.set(i, (name, score));
                proof {
                    assert(first_named(old(self).players@, winner@, i as int));
                    assert forall|k: int| #[trigger] first_named(old(self).players@, winner@, k) implies k == i by {
                        if k < i {
                        } else if k > i {
                            assert(old(self).players@[i as int].0@ == winner@);
                        }
                    }
                }
                remove_id(&mut self.current_matches, match_id);
                return;
            }
            i = i + 1;
        }
        remove_id(&mut self.current_matches, match_id);
    }

    /// The standings, best score first.
    pub fn scores(&self) -> (r: Vec<(String, u32)>)
        ensures
            entries_view(r@).to_multiset() == entries_view(self.players@).to_multiset(),
            sorted_by_score(entries_view(r@), true),
    {
        sort_by_score(&self.players, true)
    }

    /// Moves on after a round. A finished tournament does nothing. Otherwise
    /// the standings are published; if every round has been played the
    /// tournament is over, else the circle turns and the next round's
    /// pairings follow.
    pub fn next(&mut self) -> (r: Vec<TournamentEvent>)
        requires
            old(self).running(),
        ensures
            final(self).running(),
            old(self).completed ==> r@.len() == 0 && *final(self) == *old(self),
            !old(self).completed ==> round_events(*old(self), *final(self), r@),
    {
        if self.completed {
            return Vec::new();
        }
        let scores = self.scores();
        let mut events: Vec<TournamentEvent> = Vec::new();
        events.push(TournamentEvent::Scores(scores));
        if self.rounds_played >= self.total_rounds {
            self.completed = true;
            return events;
        }
        let ghost old_top = self.top_half@;
        let ghost old_bottom = self.bottom_half@;
        let last_from_top = self.top_half.pop().unwrap();
        let first_from_bottom = self.bottom_half.remove(0);
        self.top_half.insert(1, first_from_bottom);
        self.bottom_half.push(last_from_top);
        assert(self.top_half@ =~= seq![old_top[0], old_bottom[0]] + old_top.subrange(1, old_top.len() - 1));
        assert(self.bottom_half@ =~= old_bottom.drop_first().push(old_top.last()));
        self.rounds_played = self.rounds_played + 1;
        let pairs = self.pairings();
        events.push(TournamentEvent::Pairings(pairs));
        events
    }

    /// Adds the matches of a new round to the current ones.
    pub fn record_matches(&mut self, ids: &Vec<u32>)
        ensures
            *final(self) == (RoundRobin { current_matches: final(self).current_matches, ..*old(self) }),
            final(self).current_matches@ == old(self).current_matches@ + ids@,
    {
        let mut i: usize = 0;
        let ghost start = self.current_matches@;
        while i < ids.len()
            invariant
                i <= ids@.len(),
                self.current_matches@ == start + ids@.take(i as int),
                *self == (RoundRobin { current_matches: self.current_matches, ..*old(self) }),
                start == old(self).current_matches@,
            decreases ids@.len() - i,
        {
            self.current_matches.push(ids[i]);
            i = i + 1;
            assert(self.current_matches@ =~= start + ids@.take(i as int));
        }
        assert(ids@.take(ids@.len() as int) =~= ids@);
    }

    /// Whether the player takes part.
    pub fn contains_player(&self, username: &String) -> (r: bool)
        ensures
            r == views(self.usernames@).contains(username@),
    {
        contains_name(&self.usernames, username)
    }

    /// Whether the tournament is over.
    pub fn is_completed(&self) -> (r: bool)
        ensures
            r == self.completed,
    {
        self.completed
    }

    /// The entrants, in the order they were given.
    pub fn get_players(&self) -> (r: Vec<String>)
        ensures
            views(r@) == views(self.usernames@),
    {
        copy_names(&self.usernames)
    }

    /// The name of the format.
    pub fn get_type(&self) -> (r: String)
        ensures
            r@ == "RoundRobin"@,
    {
        String::from_str("RoundRobin")
    }

    /// A round robin publishes no bracket.
    pub fn get_data(&self) -> (r: Option<String>)
        ensures
            r is None,
    {
        None
    }

    /// The winner once the tournament is over: the first player with the best
    /// score, if that score is positive.
    pub fn get_winner(&self) -> (r: Option<String>)
        ensures
            !self.completed ==> r is None,
            self.completed ==> match r {
                Some(w) => exists|i: int| leads(self.players@, i) && w@ == self.players@[i].0@,
                None => forall|i: int| 0 <= i < self.players@.len() ==> self.players@[i].1 == 0,
            },
    {
        if !self.completed {
            return None;
        }
        let mut best_score: u32 = 0;
        let mut winner: Option<usize> = None;
        let mut i: usize = 0;
        while i < self.players.len()
            invariant
                i <= self.players@.len(),
                forall|j: int| 0 <= j < i ==> self.players@[j].1 <= best_score,
                winner is None ==> best_score == 0,
                winner matches Some(w) ==> w < i && self.players@[w as int].1 == best_score && best_score > 0
                    && forall|j: int| 0 <= j < w ==> self.players@[j].1 < best_score,
            decreases self.players@.len() - i,
        {
            if self.players[i].1 > best_score {
                best_score = self.players[i].1;
                winner = Some(i);
            }
            i = i + 1;
        }
        match winner {
            Some(w) => {
                assert(leads(self.players@, w as int));
                Some(self.players[w].0.clone())
            },
            None => None,
        }
    }

    /// What cancelling involves: the current matches, to be terminated, and
    /// the players, to be told that the tournament ended.
    pub fn cancel(&self) -> (r: (Vec<u32>, Vec<String>))
        ensures
            r.0@ == self.current_matches@,
            r.1@.len() == self.players@.len(),
            forall|i: int| 0 <= i < self.players@.len() ==> #[trigger] r.1@[i]@ == self.players@[i].0@,
    {
        let mut names: Vec<String> = Vec::new();
        let mut i: usize = 0;
        while i < self.players.len()
            invariant
                i <= self.players@.len(),
                names@.len() == i,
                forall|j: int| 0 <= j < i ==> #[trigger] names@[j]@ == self.players@[j].0@,
            decreases self.players@.len() - i,
        {
            names.push(self.players[i].0.clone());
            i = i + 1;
        }
        (self.current_matches.clone(), names)
    }
}

/// Turning the circle keeps the first slot in place and every slot in play:
/// the rows keep their lengths and together hold the same slots as before,
/// each as often.
pub proof fn law_turn_keeps_slots(old: RoundRobin, new: RoundRobin)
    requires
        turned(old, new),
        old.top_half@.len() >= 2,
        old.bottom_half@.len() >= 1,
    ensures
        new.top_half@[0] == old.top_half@[0],
        new.top_half@.len() == old.top_half@.len(),
        new.bottom_half@.len() == old.bottom_half@.len(),
        (new.top_half@ + new.bottom_half@).to_multiset() == (old.top_half@ + old.bottom_half@).to_multiset(),
{
    broadcast use vstd::multiset::group_multiset_axioms;
    let t = old.top_half@;
    let b = old.bottom_half@;
    let n = t.len();
    let mid = t.subrange(1, n - 1);
    let rest = b.drop_first();
    assert(t =~= seq![t[0]] + mid + seq![t.last()]);
    assert(b =~= seq![b[0]] + rest);
    assert(new.top_half@ + new.bottom_half@ =~= seq![t[0], b[0]] + mid + rest + seq![t.last()]);
    vstd::seq_lib::lemma_multiset_commutative(seq![t[0]] + mid + seq![t.last()], seq![b[0]] + rest);
    vstd::seq_lib::lemma_multiset_commutative(seq![t[0]] + mid, seq![t.last()]);
    vstd::seq_lib::lemma_multiset_commutative(seq![t[0]], mid);
    vstd::seq_lib::lemma_multiset_commutative(seq![b[0]], rest);
    vstd::seq_lib::lemma_multiset_commutative(seq![t[0], b[0]] + mid + rest, seq![t.last()]);
    vstd::seq_lib::lemma_multiset_commutative(seq![t[0], b[0]] + mid, rest);
    vstd::seq_lib::lemma_multiset_commutative(seq![t[0], b[0]], mid);
    assert(seq![t[0], b[0]] =~= seq![t[0]] + seq![b[0]]);
    vstd::seq_lib::lemma_multiset_commutative(seq![t[0]], seq![b[0]]);
    assert((new.top_half@ + new.bottom_half@).to_multiset() =~= (old.top_half@ + old.bottom_half@).to_multiset());
}

} // verus!
