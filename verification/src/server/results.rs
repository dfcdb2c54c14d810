//! Recording the result of a match with the tournament, rematches included.
use vstd::prelude::*;
use crate::lists::without;
use crate::protocol::{game_start_message, game_start_text, game_started_message, game_started_text, ready_message,
    ready_text};
use crate::server::matchmaking::{color_in, join, lemma_join_keeps, new_match_added};
use crate::server::{broadcasts, client_at, client_index, has_client, lemma_client_index, sends, Action, Server};
use crate::tournaments::knockout_bracket::{KnockoutBracket, Recorded};
use crate::tournaments::{recorded, Tournament};
use crate::types::Color;
use crate::free_id_exists;

verus! {

/// A rematch of a started bracket between `first` and `second` began as the
/// last match, `first` moving first: `second` then `first` joined it and were
/// told their colour, observers were told that both left the ready players
/// and that the match started, and the bracket swapped the tied match
/// `old_id` for it.
pub open spec fn rematch_started(
    old: Server,
    new: Server,
    first: Seq<char>,
    second: Seq<char>,
    old_id: u32,
    acts: Seq<Action>,
) -> bool {
    let m = new.matches@.last();
    let cs1 = join(old.clients@, second, m.id, color_in(m, second));
    let b = old.tournament->0->KnockoutBracket_0;
    let b2 = new.tournament->0->KnockoutBracket_0;
    &&& new_match_added(old.matches@, new.matches@, first, second, false, true)
    &&& has_client(old.clients@, second)
    &&& has_client(cs1, first)
    &&& new.clients@ == join(cs1, first, m.id, color_in(m, first))
    &&& old.tournament is Some && old.tournament->0 is KnockoutBracket
    &&& new.tournament is Some && new.tournament->0 is KnockoutBracket
    &&& b2 == (KnockoutBracket { current_matches: b2.current_matches, ..b })
    &&& b2.current_matches@ == without(b.current_matches@.push(m.id), old_id)
    &&& new == (Server { clients: new.clients, matches: new.matches, tournament: new.tournament, ..old })
    &&& acts.len() == 5
    &&& sends(acts[0], old.clients@[client_index(old.clients@, second)].addr, game_start_text(m.player1@ == second))
    &&& sends(acts[1], cs1[client_index(cs1, first)].addr, game_start_text(m.player1@ == first))
    &&& broadcasts(acts[2], ready_text(second, false))
    &&& broadcasts(acts[3], ready_text(first, false))
    &&& broadcasts(acts[4], game_started_text(m.id, m.player1@, m.player2@))
}

/// The parts of recording a result: the tournament becomes `t` with outcome
/// `r`; a rematch it asks for is started.
pub open spec fn result_parts(
    old: Server,
    new: Server,
    winner: Seq<char>,
    match_id: u32,
    player1: Seq<char>,
    player2: Seq<char>,
    acts: Seq<Action>,
    t: Tournament,
    r: Recorded,
) -> bool {
    &&& recorded(old.tournament->0, t, winner, match_id, player1, player2, r)
    &&& match r {
        Recorded::Done => new == (Server { tournament: Some(t), ..old }) && acts.len() == 0,
        Recorded::Rematch { first, second } => rematch_started(
            Server { tournament: Some(t), ..old },
            new,
            first@,
            second@,
            match_id,
            acts,
        ),
        Recorded::Halted => false,
    }
}

/// The result of match `match_id` between `player1` and `player2` was
/// recorded with the tournament (an empty winner for a draw).
pub open spec fn result_recorded(
    old: Server,
    new: Server,
    winner: Seq<char>,
    match_id: u32,
    player1: Seq<char>,
    player2: Seq<char>,
    acts: Seq<Action>,
) -> bool {
    exists|t: Tournament, r: Recorded|
        #[trigger] result_parts(old, new, winner, match_id, player1, player2, acts, t, r)
}

/// The parts of a recording that stopped: the tournament became `t` with
/// outcome `r`, which is a bracket winner at its last place with no
/// opponent, or a rematch that cannot start (no free id, or a player who is
/// not a known client); the actions end with the stop.
pub open spec fn result_stop_parts(
    old: Server,
    winner: Seq<char>,
    match_id: u32,
    player1: Seq<char>,
    player2: Seq<char>,
    acts: Seq<Action>,
    t: Tournament,
    r: Recorded,
) -> bool {
    &&& recorded(old.tournament->0, t, winner, match_id, player1, player2, r)
    &&& acts.len() >= 1
    &&& acts.last() is Halt
    &&& match r {
        Recorded::Halted => acts.len() == 1,
        Recorded::Rematch { first, second } => !free_id_exists(old.matches@) || !has_client(old.clients@, first@)
            || !has_client(old.clients@, second@),
        Recorded::Done => false,
    }
}

/// Recording the result stopped.
pub open spec fn result_stopped(
    old: Server,
    winner: Seq<char>,
    match_id: u32,
    player1: Seq<char>,
    player2: Seq<char>,
    acts: Seq<Action>,
) -> bool {
    exists|t: Tournament, r: Recorded|
        #[trigger] result_stop_parts(old, winner, match_id, player1, player2, acts, t, r)
}

impl Server {
    /// Starts the rematch a started bracket asked for. Returns whether the
    /// handler stopped: no free id, or a player who is not a known client
    /// is involved.
    fn start_rematch(&mut self, first: &String, second: &String, old_id: u32, actions: &mut Vec<Action>) -> (halted:
        bool)
        requires
            old(self).wf(),
            old(self).tournament matches Some(t) && t is KnockoutBracket && t->KnockoutBracket_0.started,
        ensures
            final(self).wf(),
            final(actions)@.len() >= old(actions)@.len(),
            final(actions)@.subrange(0, old(actions)@.len() as int) == old(actions)@,
            halted ==> final(actions)@.len() > old(actions)@.len() && final(actions)@.last() is Halt,
            halted ==> !free_id_exists(old(self).matches@) || !has_client(old(self).clients@, first@) || !has_client(
                old(self).clients@,
                second@,
            ),
            !halted ==> rematch_started(
                *old(self),
                *final(self),
                first@,
                second@,
                old_id,
                final(actions)@.subrange(old(actions)@.len() as int, final(actions)@.len() as int),
            ),
    {
        let ghost start = actions@;
        let ghost s0 = *self;
        let id = match self.add_match(first, second, false, true) {
            Some(id) => id,
            None => {
                actions.push(Action::Halt);
                assert(actions@.subrange(0, start.len() as int) =~= start);
                return true;
            },
        };
        let ghost s1 = *self;
        let last = self.matches.len() - 1;
        let p1 = self.matches[last].player1.clone();
        let p2 = self.matches[last].player2.clone();
        let second_first = p1 == *second;
        let first_first = p1 == *first;
        let color_s = if second_first { Color::Red } else { Color::Yellow };
        let color_f = if first_first { Color::Red } else { Color::Yellow };
        let is = match self.find_client(second) {
            Some(i) => i,
            None => {
                actions.push(Action::Halt);
                assert(actions@.subrange(0, start.len() as int) =~= start);
                return true;
            },
        };
        let i_f = match self.find_client(first) {
            Some(i) => i,
            None => {
                actions.push(Action::Halt);
                assert(actions@.subrange(0, start.len() as int) =~= start);
                return true;
            },
        };
        let addr_s = self.clients[is].addr;
        self.join_client(is, id, color_s);
        actions.push(Action::Send { to: addr_s, text: game_start_message(second_first) });
        let ghost s2 = *self;
        proof {
            lemma_join_keeps(s1.clients@, second@, id, color_s);
            lemma_client_index(s1.clients@, first@, i_f as int);
            assert(self.clients@[i_f as int].username == s1.clients@[i_f as int].username);
            assert(client_at(self.clients@, first@, i_f as int));
            let li = s1.matches@.len() - 1;
            assert(s1.matches@[li].id == id);
            crate::server::lemma_seated_join(s1.clients@, s1.matches@, is as int, li, color_s);
            crate::server::lemma_seated_join(s2.clients@, s1.matches@, i_f as int, li, color_f);
        }
        let addr_f = self.clients[i_f].addr;
        self.join_client(i_f, id, color_f);
        actions.push(Action::Send { to: addr_f, text: game_start_message(first_first) });
        actions.push(Action::Broadcast { text: ready_message(second, false) });
        actions.push(Action::Broadcast { text: ready_message(first, false) });
        actions.push(Action::Broadcast { text: game_started_message(id, &p1, &p2) });
        match &mut self.tournament {
            Some(t) => t.finish_rematch(id, old_id),
            None => {},
        }
        proof {
            let m = self.matches@.last();
            lemma_client_index(s1.clients@, second@, is as int);
            lemma_client_index(s2.clients@, first@, i_f as int);
            assert(color_in(m, second@) == color_s);
            assert(color_in(m, first@) == color_f);
            assert(actions@.subrange(0, start.len() as int) =~= start);
            let acts = actions@.subrange(start.len() as int, actions@.len() as int);
            assert(acts.len() == 5);
            assert(acts[0] == actions@[start.len() as int]);
        }
        false
    }

    /// Records the result of a match with the running tournament, starting
    /// the rematch it may ask for. Returns whether the handler stopped.
    pub fn record_result(
        &mut self,
        winner: &String,
        match_id: u32,
        player1: &String,
        player2: &String,
        actions: &mut Vec<Action>,
    ) -> (halted: bool)
        requires
            old(self).wf(),
            old(self).tournament is Some,
        ensures
            final(self).wf(),
            final(actions)@.len() >= old(actions)@.len(),
            final(actions)@.subrange(0, old(actions)@.len() as int) == old(actions)@,
            halted ==> final(actions)@.last() is Halt,
            halted ==> result_stopped(
                *old(self),
                winner@,
                match_id,
                player1@,
                player2@,
                final(actions)@.subrange(old(actions)@.len() as int, final(actions)@.len() as int),
            ),
            !halted ==> result_recorded(
                *old(self),
                *final(self),
                winner@,
                match_id,
                player1@,
                player2@,
                final(actions)@.subrange(old(actions)@.len() as int, final(actions)@.len() as int),
            ),
    {
        let ghost s0 = *self;
        let ghost start = actions@;
        let r = match &mut self.tournament {
            Some(t) => t.inform_winner(winner, match_id, player1, player2),
            None => Recorded::Done,
        };
        let ghost t = self.tournament->0;
        assert(*self == (Server { tournament: Some(t), ..s0 }));
        match r {
            Recorded::Done => {
                assert(actions@.subrange(start.len() as int, actions@.len() as int) =~= Seq::<Action>::empty());
                assert(actions@.subrange(0, start.len() as int) =~= start);
                assert(result_parts(s0, *self, winner@, match_id, player1@, player2@, Seq::empty(), t, r));
                false
            },
            Recorded::Halted => {
                actions.push(Action::Halt);
                assert(actions@.subrange(0, start.len() as int) =~= start);
                assert(actions@.subrange(start.len() as int, actions@.len() as int) =~= seq![Action::Halt]);
                assert(result_stop_parts(
                    s0,
                    winner@,
                    match_id,
                    player1@,
                    player2@,
                    actions@.subrange(start.len() as int, actions@.len() as int),
                    t,
                    r,
                ));
                true
            },
            Recorded::Rematch { first, second } => {
                let ghost mid = *self;
                let halted = self.start_rematch(&first, &second, match_id, actions);
                if halted {
                    assert(result_stop_parts(
                        s0,
                        winner@,
                        match_id,
                        player1@,
                        player2@,
                        actions@.subrange(start.len() as int, actions@.len() as int),
                        t,
                        Recorded::Rematch { first, second },
                    ));
                }
                if !halted {
                    assert(result_parts(
                        s0,
                        *self,
                        winner@,
                        match_id,
                        player1@,
                        player2@,
                        actions@.subrange(start.len() as int, actions@.len() as int),
                        t,
                        Recorded::Rematch { first, second },
                    ));
                }
                halted
            },
        }
    }
}

} // verus!
