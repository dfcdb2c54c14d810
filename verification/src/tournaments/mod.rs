//! Tournament formats: a round robin, and a knockout bracket seeded by a
//! quick round robin.
use vstd::prelude::*;

pub mod circle;
pub mod knockout_bracket;
pub mod round_robin;
pub mod schedule;
pub mod standings;

use crate::lists::without;
use crate::text::views;
use knockout_bracket::{kb_moved_on, kb_recorded, kb_started, KnockoutBracket, Recorded};
use round_robin::{pair_views, round_events, rr_recorded, RoundRobin};

verus! {

/// What a tournament asks of the server as it moves on.
pub enum TournamentEvent {
    /// Publish the standings (`TOURNAMENT:SCORES:`), best first.
    Scores(Vec<(String, u32)>),
    /// Start these matches (first name, second name); their ids are then
    /// recorded with the tournament.
    Pairings(Vec<(String, String)>),
    /// Set the delay before a move is passed on, in milliseconds.
    SetWaitingTimeout(u64),
    /// Publish the bracket (`GET:TOURNAMENT_DATA:`).
    BracketData,
}

/// A tournament of either format.
pub enum Tournament {
    RoundRobin(RoundRobin),
    KnockoutBracket(KnockoutBracket),
}

/// Moving on after a round, by format.
pub open spec fn moved_on(old: Tournament, new: Tournament, ev: Seq<TournamentEvent>) -> bool {
    match (old, new) {
        (Tournament::RoundRobin(a), Tournament::RoundRobin(b)) => {
            &&& a.completed ==> ev.len() == 0 && b == a
            &&& !a.completed ==> round_events(a, b, ev)
        },
        (Tournament::KnockoutBracket(a), Tournament::KnockoutBracket(b)) => kb_moved_on(a, b, ev),
        _ => false,
    }
}

/// Starting, by format (a round robin starts its first round).
pub open spec fn started_with(old: Tournament, new: Tournament, bracket_file: Seq<char>, ev: Seq<TournamentEvent>) -> bool {
    match (old, new) {
        (Tournament::RoundRobin(a), Tournament::RoundRobin(b)) => {
            &&& a.completed ==> ev.len() == 0 && b == a
            &&& !a.completed ==> {
                &&& b == (RoundRobin { rounds_played: 1, ..a })
                &&& ev.len() == 1
                &&& ev[0] matches TournamentEvent::Pairings(p) && pair_views(p@) == a.round_pairs()
            }
        },
        (Tournament::KnockoutBracket(a), Tournament::KnockoutBracket(b)) => kb_started(a, b, bracket_file, ev),
        _ => false,
    }
}

/// Recording a result, by format.
pub open spec fn recorded(
    old: Tournament,
    new: Tournament,
    winner: Seq<char>,
    match_id: u32,
    player1: Seq<char>,
    player2: Seq<char>,
    r: Recorded,
) -> bool {
    match (old, new) {
        (Tournament::RoundRobin(a), Tournament::RoundRobin(b)) => r is Done && rr_recorded(a, b, winner, match_id),
        (Tournament::KnockoutBracket(a), Tournament::KnockoutBracket(b)) => kb_recorded(
            a,
            b,
            winner,
            match_id,
            player1,
            player2,
            r,
        ),
        _ => false,
    }
}

impl Tournament {
    /// Well formed.
    pub open spec fn wf(&self) -> bool {
        match *self {
            Tournament::RoundRobin(t) => t.wf(),
            Tournament::KnockoutBracket(t) => t.wf(),
        }
    }

    /// Well formed and started.
    pub open spec fn running(&self) -> bool {
        match *self {
            Tournament::RoundRobin(t) => t.running(),
            Tournament::KnockoutBracket(t) => t.running(),
        }
    }

    /// Over.
    pub open spec fn completed(&self) -> bool {
        match *self {
            Tournament::RoundRobin(t) => t.completed,
            Tournament::KnockoutBracket(t) => t.completed,
        }
    }

    /// The entrants' names.
    pub open spec fn entrants(&self) -> Seq<Seq<char>> {
        match *self {
            Tournament::RoundRobin(t) => views(t.usernames@),
            Tournament::KnockoutBracket(t) => views(t.usernames@),
        }
    }

    /// The matches of the current round.
    pub open spec fn current(&self) -> Seq<u32> {
        match *self {
            Tournament::RoundRobin(t) => t.current_matches@,
            Tournament::KnockoutBracket(t) => if t.started {
                t.current_matches@
            } else {
                t.blitz_round_robin.current_matches@
            },
        }
    }

    /// Starts the tournament (`bracket_file` is the bracket file's content,
    /// read by a knockout bracket).
    pub fn start(&mut self, bracket_file: &str) -> (r: Vec<TournamentEvent>)
        requires
            old(self).wf(),
            bracket_file@.len() < u32::MAX,
        ensures
            final(self).running(),
            started_with(*old(self), *final(self), bracket_file@, r@),
    {
        match self {
            Tournament::RoundRobin(t) => {
                let mut events: Vec<TournamentEvent> = Vec::new();
                match t.start() {
                    Some(p) => {
                        events.push(TournamentEvent::Pairings(p));
                    },
                    None => {},
                }
                events
            },
            Tournament::KnockoutBracket(t) => t.start(bracket_file),
        }
    }

    /// Moves on after a round.
    pub fn next(&mut self) -> (r: Vec<TournamentEvent>)
        requires
            old(self).running(),
        ensures
            final(self).running(),
            moved_on(*old(self), *final(self), r@),
    {
        match self {
            Tournament::RoundRobin(t) => t.next(),
            Tournament::KnockoutBracket(t) => t.next(),
        }
    }

    /// Records the result of a match (an empty winner for a draw).
    pub fn inform_winner(&mut self, winner: &String, match_id: u32, player1: &String, player2: &String) -> (r:
        Recorded)
        requires
            old(self).running(),
        ensures
            final(self).running(),
            recorded(*old(self), *final(self), winner@, match_id, player1@, player2@, r),
    {
        match self {
            Tournament::RoundRobin(t) => {
                t.inform_winner(winner, match_id);
                Recorded::Done
            },
            Tournament::KnockoutBracket(t) => t.inform_winner(winner, match_id, player1, player2),
        }
    }

    /// Adds the matches just started to the current ones.
    pub fn record_matches(&mut self, ids: &Vec<u32>)
        requires
            old(self).running(),
        ensures
            final(self).running(),
            final(self).current() == old(self).current() + ids@,
            final(self).completed() == old(self).completed(),
            final(self).entrants() == old(self).entrants(),
    {
        match self {
            Tournament::RoundRobin(t) => t.record_matches(ids),
            Tournament::KnockoutBracket(t) => t.record_matches(ids),
        }
    }

    /// Completes a rematch of a started knockout bracket (there is none
    /// elsewhere).
    pub fn finish_rematch(&mut self, new_id: u32, old_id: u32)
        requires
            old(self).running(),
        ensures
            final(self).running(),
            *old(self) is KnockoutBracket && old(self)->KnockoutBracket_0.started ==> *final(self)
                == Tournament::KnockoutBracket(
                KnockoutBracket {
                    current_matches: final(self)->KnockoutBracket_0.current_matches,
                    ..old(self)->KnockoutBracket_0
                },
            ) && final(self).current() == without(old(self).current().push(new_id), old_id),
            !(*old(self) is KnockoutBracket && old(self)->KnockoutBracket_0.started) ==> *final(self) == *old(self),
            final(self).completed() == old(self).completed(),
            final(self).entrants() == old(self).entrants(),
    {
        match self {
            Tournament::RoundRobin(_) => {},
            Tournament::KnockoutBracket(t) => {
                if t.started {
                    t.finish_rematch(new_id, old_id);
                }
            },
        }
    }

    /// The matches to terminate and the players to notify when cancelling.
    pub fn cancel(&self) -> (r: (Vec<u32>, Vec<String>))
        ensures
            r.0@ == self.current(),
            self is RoundRobin ==> views(r.1@) == self->RoundRobin_0.players@.map_values(|e: (String, u32)| e.0@),
            self is KnockoutBracket && !self->KnockoutBracket_0.started ==> views(r.1@)
                == self->KnockoutBracket_0.blitz_round_robin.players@.map_values(|e: (String, u32)| e.0@),
            self is KnockoutBracket && self->KnockoutBracket_0.started ==> views(r.1@)
                == knockout_bracket::seed_names(self->KnockoutBracket_0.players@),
    {
        let r = match self {
            Tournament::RoundRobin(t) => t.cancel(),
            Tournament::KnockoutBracket(t) => t.cancel(),
        };
        proof {
            crate::text::lemma_views(r.1@);
            if *self is RoundRobin {
                assert(views(r.1@) =~= self->RoundRobin_0.players@.map_values(|e: (String, u32)| e.0@));
            } else if !self->KnockoutBracket_0.started {
                assert(views(r.1@) =~= self->KnockoutBracket_0.blitz_round_robin.players@.map_values(
                    |e: (String, u32)| e.0@,
                ));
            }
        }
        r
    }

    /// Whether the player takes part.
    pub fn contains_player(&self, username: &String) -> (r: bool)
        ensures
            r == self.entrants().contains(username@),
    {
        match self {
            Tournament::RoundRobin(t) => t.contains_player(username),
            Tournament::KnockoutBracket(t) => t.contains_player(username),
        }
    }

    /// Whether the tournament is over.
    pub fn is_completed(&self) -> (r: bool)
        ensures
            r == self.completed(),
    {
        match self {
            Tournament::RoundRobin(t) => t.is_completed(),
            Tournament::KnockoutBracket(t) => t.is_completed(),
        }
    }

    /// The entrants, in the order they were given.
    pub fn get_players(&self) -> (r: Vec<String>)
        ensures
            views(r@) == self.entrants(),
    {
        match self {
            Tournament::RoundRobin(t) => t.get_players(),
            Tournament::KnockoutBracket(t) => t.get_players(),
        }
    }

    /// The format's name.
    pub fn get_type(&self) -> (r: String)
        ensures
            self is RoundRobin ==> r@ == "RoundRobin"@,
            self is KnockoutBracket ==> r@ == "KnockoutBracket"@,
    {
        match self {
            Tournament::RoundRobin(t) => t.get_type(),
            Tournament::KnockoutBracket(t) => t.get_type(),
        }
    }

    /// The winner of a finished tournament: for a round robin the first
    /// player with the best score, if it is positive; for a bracket the one
    /// place left.
    pub fn get_winner(&self) -> (r: Option<String>)
        requires
            self.wf(),
        ensures
            !self.completed() ==> r is None,
            self is RoundRobin && self.completed() ==> match r {
                Some(w) => exists|i: int|
                    round_robin::leads(self->RoundRobin_0.players@, i) && w@ == self->RoundRobin_0.players@[i].0@,
                None => forall|i: int|
                    0 <= i < self->RoundRobin_0.players@.len() ==> self->RoundRobin_0.players@[i].1 == 0,
            },
            self is KnockoutBracket && self.completed() ==> (r matches Some(w) && w@
                == self->KnockoutBracket_0.pairings@[0]@),
    {
        match self {
            Tournament::RoundRobin(t) => t.get_winner(),
            Tournament::KnockoutBracket(t) => t.get_winner(),
        }
    }

    /// The published bracket, for a started knockout bracket.
    pub fn get_data(&self) -> (r: Option<String>)
        ensures
            self is RoundRobin ==> r is None,
            self is KnockoutBracket && !self->KnockoutBracket_0.started ==> r is None,
            self is KnockoutBracket && self->KnockoutBracket_0.started ==> (r matches Some(t) && t@
                == knockout_bracket::bracket_text(knockout_bracket::rounds_view(self->KnockoutBracket_0.data@))),
    {
        match self {
            Tournament::RoundRobin(t) => t.get_data(),
            Tournament::KnockoutBracket(t) => t.get_data(),
        }
    }
}

} // verus!
