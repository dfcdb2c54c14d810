//! Matches decided by the administrator or by the move timer, and what
//! follows the end of a match in a tournament.
use vstd::prelude::*;
use crate::protocol::{win_message, win_text};
use crate::server::games::{release, released, terminated};
use crate::server::progress::{advance_stopped, advanced};
use crate::server::results::{result_recorded, result_stopped};
use crate::server::{
    broadcasts, client_at, client_index, has_client, lemma_client_index, match_at, sends, unique_ids, unique_names,
    Action, Server,
};
use crate::types::{Client, Color, Match};

verus! {

/// What follows the end of a match: with a tournament and no match left, the
/// tournament moves on; otherwise nothing.
pub open spec fn after_match(old: Server, new: Server, acts: Seq<Action>) -> bool {
    if old.tournament is Some && old.matches@.len() == 0 {
        advanced(old, new, acts)
    } else {
        new == old && acts.len() == 0
    }
}

/// What follows the end of a match stopped: the tournament's moving on
/// stopped.
pub open spec fn after_match_stopped(old: Server, acts: Seq<Action>) -> bool {
    old.tournament is Some && old.matches@.len() == 0 && advance_stopped(old, acts)
}

/// The parts of a termination by the administrator: match `i` terminated
/// with the first `k` actions, reaching `mid`, then what follows.
pub open spec fn terminate_parts(old: Server, new: Server, i: int, acts: Seq<Action>, mid: Server, k: int) -> bool {
    &&& 0 <= k <= acts.len()
    &&& terminated(old, mid, i, acts.take(k))
    &&& (after_match(mid, new, acts.skip(k)) || after_match_stopped(mid, acts.skip(k)))
}

/// The address of the named client.
pub open spec fn addr_of(cs: Seq<Client>, name: Seq<char>) -> u64 {
    cs[client_index(cs, name)].addr
}

/// The parts of awarding match `i` to `winner`: `s1` is the state once the
/// players left the match, `mid` the state after recording the result and
/// `k` the number of actions up to it.
pub open spec fn award_parts(
    old: Server,
    new: Server,
    i: int,
    winner: Seq<char>,
    acts: Seq<Action>,
    s1: Server,
    mid: Server,
    k: int,
) -> bool {
    let m = old.matches@[i];
    let cs = old.clients@;
    let a1 = addr_of(cs, m.player1@);
    let a2 = addr_of(cs, m.player2@);
    let wa = if m.player1@ == winner { a1 } else { a2 };
    let la = if m.player1@ != winner { a1 } else { a2 };
    &&& acts.len() >= 5
    &&& acts[0] == Action::AbortWait { match_id: m.id }
    &&& acts[1] == Action::AbortTimeout { match_id: m.id }
    &&& broadcasts(acts[2], win_text(m.id, winner))
    &&& if m.demo_mode {
        let name = if m.player1@ != "demo"@ { m.player1@ } else { m.player2@ };
        &&& acts.len() == 5
        &&& sends(
            acts[3],
            addr_of(cs, name),
            if winner != "demo"@ { "GAME:WINS"@ } else { "GAME:LOSS"@ },
        )
        &&& sends(acts[4], addr_of(cs, name), "TOURNAMENT:END"@)
        &&& new == (Server { clients: new.clients, matches: new.matches, ..old })
        &&& new.clients@ == release(cs, name)
        &&& new.matches@ == old.matches@.remove(i)
    } else {
        &&& s1 == (Server { clients: s1.clients, matches: s1.matches, ..old })
        &&& s1.clients@ == release(release(cs, m.player1@), m.player2@)
        &&& s1.matches@ == old.matches@.remove(i)
        &&& sends(acts[3], wa, "GAME:WINS"@)
        &&& sends(acts[4], la, "GAME:LOSS"@)
        &&& if old.tournament is Some {
            ||| result_stopped(s1, winner, m.id, m.player1@, m.player2@, acts.skip(5))
            ||| {
                &&& 5 <= k <= acts.len()
                &&& result_recorded(s1, mid, winner, m.id, m.player1@, m.player2@, acts.subrange(5, k))
                &&& (after_match(mid, new, acts.skip(k)) || after_match_stopped(mid, acts.skip(k)))
            }
        } else {
            &&& acts.len() == 7
            &&& sends(acts[5], wa, "TOURNAMENT:END"@)
            &&& sends(acts[6], la, "TOURNAMENT:END"@)
            &&& new == s1
        }
    }
}

/// The move timer was started for this match: it is between the players
/// the timer names, the mover being one of them. (A timer is started by a
/// move in the match and cancelled when the match ends, so the match its id
/// names is the one it was started for.)
pub open spec fn timer_for(m: Match, mover: Seq<char>, player1: Seq<char>, player2: Seq<char>) -> bool {
    &&& m.player1@ == player1
    &&& m.player2@ == player2
    &&& (mover == player1 || mover == player2)
}

/// A player ran out of time in match `i`: the mover wins. The mover is
/// told first, then the opponent (if known), then observers; the mover (who
/// must be known, or the handler stops) and the opponent
/// leave the match, which is removed (`s1`), and the result is recorded with
/// the tournament (without one the handler stops).
pub open spec fn forfeited(
    old: Server,
    new: Server,
    i: int,
    mover: Seq<char>,
    mover_addr: u64,
    player1: Seq<char>,
    player2: Seq<char>,
    acts: Seq<Action>,
    s1: Server,
) -> bool {
    let m = old.matches@[i];
    let opp = if mover == player1 { player2 } else { player1 };
    let n = if has_client(old.clients@, opp) { 1int } else { 0int };
    &&& acts.len() >= 2 + n
    &&& sends(acts[0], mover_addr, "GAME:WINS"@)
    &&& n == 1 ==> sends(acts[1], addr_of(old.clients@, opp), "GAME:LOSS"@)
    &&& broadcasts(acts[1 + n], win_text(m.id, mover))
    &&& if !has_client(old.clients@, mover) {
        acts.len() == 3 + n && acts.last() is Halt && new == old
    } else {
        &&& s1 == (Server { clients: s1.clients, matches: s1.matches, ..old })
        &&& s1.clients@ == release(release(old.clients@, mover), opp)
        &&& s1.matches@ == old.matches@.remove(i)
        &&& if old.tournament is None {
            acts.len() == 3 + n && acts.last() is Halt && new == s1
        } else {
            result_recorded(s1, new, mover, m.id, player1, player2, acts.skip(2 + n)) || result_stopped(
                s1,
                mover,
                m.id,
                player1,
                player2,
                acts.skip(2 + n),
            )
        }
    }
}

impl Server {
    /// The named client, if known, leaves its match.
    pub fn release_client(&mut self, name: &String)
        requires
            unique_names(old(self).clients@),
        ensures
            unique_names(final(self).clients@),
            final(self).clients@ == release(old(self).clients@, name@),
            *final(self) == (Server { clients: final(self).clients, ..*old(self) }),
    {
        match self.find_client(name) {
            Some(i) => {
                let c = Client {
                    username: self.clients[i].username.clone(),
                    ready: self.clients[i].ready,
                    color: Color::Empty,
                    current_match: None,
                    addr: self.clients[i].addr,
                };
                self.clients.set(i, c);
                assert(self.clients@ =~= old(self).clients@.update(i as int, released(old(self).clients@[i as int])));
                assert forall|a: int, b: int|
                    0 <= a < self.clients@.len() && 0 <= b < self.clients@.len() && a != b implies self.clients@[a].username@
                    != self.clients@[b].username@ by {
                    assert(old(self).clients@[a].username@ != old(self).clients@[b].username@);
                }
            },
            None => {},
        }
    }

    /// What follows the end of a match: with a tournament and no match
    /// left, the tournament moves on. Returns whether the handler stopped.
    pub fn after_match_exec(&mut self, actions: &mut Vec<Action>) -> (halted: bool)
        requires
            old(self).wf(),
        ensures
            final(self).wf(),
            final(actions)@.len() >= old(actions)@.len(),
            final(actions)@.subrange(0, old(actions)@.len() as int) == old(actions)@,
            halted ==> final(actions)@.last() is Halt,
            halted ==> after_match_stopped(
                *old(self),
                final(actions)@.subrange(old(actions)@.len() as int, final(actions)@.len() as int),
            ),
            !halted ==> after_match(
                *old(self),
                *final(self),
                final(actions)@.subrange(old(actions)@.len() as int, final(actions)@.len() as int),
            ),
    {
        if self.tournament.is_some() && self.matches.len() == 0 {
            self.advance_tournament(actions)
        } else {
            assert(actions@.subrange(old(actions)@.len() as int, actions@.len() as int) =~= Seq::<Action>::empty());
            assert(actions@.subrange(0, old(actions)@.len() as int) =~= old(actions)@);
            false
        }
    }

    /// Terminates a match, for the administrator; with a tournament and no
    /// match left, the tournament then moves on. An unknown match stops the
    /// handler.
    pub fn handle_game_terminate(&mut self, addr: u64, match_id: u32) -> (r: Result<Vec<Action>, String>)
        requires
            old(self).wf(),
        ensures
            final(self).wf(),
            old(self).admin != Some(addr) ==> (r matches Err(e) && e@ == "ERROR:INVALID:AUTH"@) && *final(self)
                == *old(self),
            old(self).admin == Some(addr) && (forall|i: int|
                0 <= i < old(self).matches@.len() ==> old(self).matches@[i].id != match_id) ==> (r matches Ok(a)
                && a@ == seq![Action::Halt] && *final(self) == *old(self)),
            forall|i: int|
                #[trigger] match_at(old(self).matches@, match_id, i) && old(self).admin == Some(addr) ==> r is Ok
                    && exists|mid: Server, k: int|
                    #[trigger] terminate_parts(*old(self), *final(self), i, r->Ok_0@, mid, k),
    {
        if !self.auth_check(addr) {
            return Err(String::from_str("ERROR:INVALID:AUTH"));
        }
        let ghost s0 = *self;
        let mut actions = self.terminate_match(match_id);
        if actions.len() == 1 {
            // only an unknown match gives a single action
            proof {
                assert forall|i: int| #[trigger] match_at(s0.matches@, match_id, i) implies false by {
                    assert(terminated(s0, *self, i, actions@));
                }
            }
            return Ok(actions);
        }
        let ghost mid = *self;
        let ghost k = actions@.len() as int;
        let ghost first = actions@;
        let halted = self.after_match_exec(&mut actions);
        proof {
            assert(actions@.take(k) =~= first);
            assert(actions@.skip(k) =~= actions@.subrange(k, actions@.len() as int));
            assert forall|i: int| #[trigger] match_at(s0.matches@, match_id, i) implies terminate_parts(
                s0,
                *self,
                i,
                actions@,
                mid,
                k,
            ) by {}
            assert(s0 == *old(self));
            assert forall|i: int| #[trigger] match_at(s0.matches@, match_id, i) implies exists|mid: Server, k: int|
                #[trigger] terminate_parts(s0, *self, i, actions@, mid, k) by {
                assert(terminate_parts(s0, *self, i, actions@, mid, k));
            }
        }
        let r: Result<Vec<Action>, String> = Ok(actions);
        assert(r->Ok_0@ == actions@);
        r
    }

    /// Removes the match at `idx`.
    pub fn remove_match(&mut self, idx: usize)
        requires
            old(self).wf(),
            idx < old(self).matches@.len(),
            forall|ci: int|
                0 <= ci < old(self).clients@.len() ==> #[trigger] old(self).clients@[ci].current_match != Some(
                    old(self).matches@[idx as int].id,
                ),
        ensures
            final(self).wf(),
            final(self).matches@ == old(self).matches@.remove(idx as int),
            *final(self) == (Server { matches: final(self).matches, ..*old(self) }),
    {
        proof {
            crate::server::lemma_seated_remove(self.clients@, self.matches@, idx as int);
        }
        self.matches.remove(idx);
        proof {
            assert forall|i: int| 0 <= i < self.matches@.len() implies (#[trigger] self.matches@[i]).wf() && self.matches@[i].ledger_ok() && self.matches@[i].demo_ok() by {
                if i < idx {
                    assert(self.matches@[i] == old(self).matches@[i]);
                } else {
                    assert(self.matches@[i] == old(self).matches@[i + 1]);
                }
            }
            assert forall|a: int, b: int|
                0 <= a < self.matches@.len() && 0 <= b < self.matches@.len() && a != b implies self.matches@[a].id
                != self.matches@[b].id by {
                let a2 = if a < idx { a } else { a + 1 };
                let b2 = if b < idx { b } else { b + 1 };
                assert(old(self).matches@[a2].id != old(self).matches@[b2].id);
            }
        }
    }

    /// Declares the winner of a match, for the administrator. The winner must
    /// be one of its two players, both known clients. Observers are told;
    /// the players leave the match and are told the result; in a tournament
    /// the result is recorded and, with no match left, the tournament moves
    /// on; otherwise both are told `TOURNAMENT:END`.
    pub fn handle_game_award_winner(&mut self, addr: u64, match_id: u32, winner: &String) -> (r: Result<
        Vec<Action>,
        String,
    >)
        requires
            old(self).wf(),
        ensures
            final(self).wf(),
            old(self).admin != Some(addr) ==> (r matches Err(e) && e@ == "ERROR:INVALID:AUTH"@) && *final(self)
                == *old(self),
            old(self).admin == Some(addr) && (forall|i: int|
                0 <= i < old(self).matches@.len() ==> old(self).matches@[i].id != match_id) ==> (r matches Err(e)
                && e@ == "ERROR:INVALID:AWARD"@) && *final(self) == *old(self),
            forall|i: int|
                #[trigger] match_at(old(self).matches@, match_id, i) && old(self).admin == Some(addr) ==> {
                    let m = old(self).matches@[i];
                    let valid = has_client(old(self).clients@, m.player1@) && has_client(
                        old(self).clients@,
                        m.player2@,
                    ) && (winner@ == m.player1@ || winner@ == m.player2@);
                    &&& !valid ==> (r matches Err(e) && e@ == "ERROR:INVALID:AWARD"@) && *final(self)
                        == *old(self)
                    &&& valid ==> r is Ok && exists|s1: Server, mid: Server, k: int|
                        #[trigger] award_parts(*old(self), *final(self), i, winner@, r->Ok_0@, s1, mid, k)
                },
    {
        if !self.auth_check(addr) {
            return Err(String::from_str("ERROR:INVALID:AUTH"));
        }
        let ghost s0 = *self;
        let idx = match self.find_match(match_id) {
            Some(i) => i,
            None => {
                return Err(String::from_str("ERROR:INVALID:AWARD"));
            },
        };
        proof {
            assert forall|i: int| #[trigger] match_at(s0.matches@, match_id, i) implies i == idx by {
                if i != idx {
                    assert(s0.matches@[i].id != s0.matches@[idx as int].id);
                }
            }
        }
        let p1 = self.matches[idx].player1.clone();
        let p2 = self.matches[idx].player2.clone();
        let demo = self.matches[idx].demo_mode;
        let i1 = match self.find_client(&p1) {
            Some(i) => i,
            None => {
                return Err(String::from_str("ERROR:INVALID:AWARD"));
            },
        };
        let i2 = match self.find_client(&p2) {
            Some(i) => i,
            None => {
                return Err(String::from_str("ERROR:INVALID:AWARD"));
            },
        };
        if *winner != p1 && *winner != p2 {
            return Err(String::from_str("ERROR:INVALID:AWARD"));
        }
        let a1 = self.clients[i1].addr;
        let a2 = self.clients[i2].addr;
        proof {
            lemma_client_index(s0.clients@, p1@, i1 as int);
            lemma_client_index(s0.clients@, p2@, i2 as int);
        }
        let mut actions: Vec<Action> = Vec::new();
        actions.push(Action::AbortWait { match_id });
        actions.push(Action::AbortTimeout { match_id });
        actions.push(Action::Broadcast { text: win_message(match_id, winner) });
        let server_name = String::from_str(crate::SERVER_PLAYER_USERNAME);
        if demo {
            let first_is_player = p1 != server_name;
            let a = if first_is_player { a1 } else { a2 };
            let won = *winner != server_name;
            actions.push(Action::Send {
                to: a,
                text: if won { String::from_str("GAME:WINS") } else { String::from_str("GAME:LOSS") },
            });
            actions.push(Action::Send { to: a, text: String::from_str("TOURNAMENT:END") });
            proof {
                assert(s0.matches@[idx as int].demo_ok());
                assert(s0.clients@[i1 as int].username@ != "demo"@);
                assert(s0.clients@[i2 as int].username@ != "demo"@);
                if first_is_player {
                    crate::server::games::lemma_left_match_one(s0.clients@, s0.matches@, idx as int, p1@);
                } else {
                    crate::server::games::lemma_left_match_one(s0.clients@, s0.matches@, idx as int, p2@);
                }
            }
            if first_is_player {
                self.release_client(&p1);
            } else {
                self.release_client(&p2);
            }
            self.remove_match(idx);
            proof {
                assert(award_parts(s0, *self, idx as int, winner@, actions@, *self, *self, 0));
            }
            let r: Result<Vec<Action>, String> = Ok(actions);
            assert(r->Ok_0@ == actions@);
            return r;
        }
        proof {
            crate::server::games::lemma_left_match(s0.clients@, s0.matches@, idx as int, p1@, p2@);
        }
        self.release_client(&p1);
        self.release_client(&p2);
        self.remove_match(idx);
        let wa = if p1 == *winner { a1 } else { a2 };
        let la = if p1 != *winner { a1 } else { a2 };
        actions.push(Action::Send { to: wa, text: String::from_str("GAME:WINS") });
        actions.push(Action::Send { to: la, text: String::from_str("GAME:LOSS") });
        let ghost s1 = *self;
        if self.tournament.is_some() {
            let ghost a5 = actions@;
            if self.record_result(winner, match_id, &p1, &p2, &mut actions) {
                proof {
                    assert(actions@.subrange(0, 5) == a5);
                    assert(actions@[0] == a5[0] && actions@[1] == a5[1] && actions@[2] == a5[2] && actions@[3]
                        == a5[3] && actions@[4] == a5[4]);
                    assert(actions@.skip(5) =~= actions@.subrange(5, actions@.len() as int));
                    assert(award_parts(s0, *self, idx as int, winner@, actions@, s1, *self, 0));
                }
                let r: Result<Vec<Action>, String> = Ok(actions);
                assert(r->Ok_0@ == actions@);
                return r;
            }
            let ghost mid = *self;
            let ghost k = actions@.len() as int;
            let ghost ak = actions@;
            let halted = self.after_match_exec(&mut actions);
            proof {
                assert(ak.subrange(0, 5) == a5);
                assert(actions@.subrange(0, k) == ak);
                assert(actions@.subrange(5, k) =~= ak.subrange(5, k));
                assert(actions@.skip(k) =~= actions@.subrange(k, actions@.len() as int));
                assert(actions@[0] == a5[0] && actions@[1] == a5[1] && actions@[2] == a5[2] && actions@[3] == a5[3]
                    && actions@[4] == a5[4]);
                assert(award_parts(s0, *self, idx as int, winner@, actions@, s1, mid, k));
            }
            let r: Result<Vec<Action>, String> = Ok(actions);
            assert(r->Ok_0@ == actions@);
            return r;
        }
        actions.push(Action::Send { to: wa, text: String::from_str("TOURNAMENT:END") });
        actions.push(Action::Send { to: la, text: String::from_str("TOURNAMENT:END") });
        proof {
            assert(award_parts(s0, *self, idx as int, winner@, actions@, s1, *self, 0));
        }
        let r: Result<Vec<Action>, String> = Ok(actions);
        assert(r->Ok_0@ == actions@);
        r
    }

    /// The move timer of a match went off: if the match is still there and
    /// no move was made since (its ledger still has `ledger_size` moves), the
    /// player who moved last (`mover`, connected at `mover_addr` when moving)
    /// wins by forfeit.
    pub fn handle_move_timeout(
        &mut self,
        match_id: u32,
        ledger_size: usize,
        mover: &String,
        mover_addr: u64,
        player1: &String,
        player2: &String,
    ) -> (r: Vec<Action>)
        requires
            old(self).wf(),
            forall|i: int| #[trigger]
                match_at(old(self).matches@, match_id, i) ==> timer_for(old(self).matches@[i], mover@, player1@, player2@),
        ensures
            final(self).wf(),
            (forall|i: int| 0 <= i < old(self).matches@.len() ==> old(self).matches@[i].id != match_id) ==> r@.len()
                == 0 && *final(self) == *old(self),
            forall|i: int| #[trigger]
                match_at(old(self).matches@, match_id, i) ==> {
                    &&& old(self).matches@[i].ledger@.len() != ledger_size ==> r@.len() == 0 && *final(self)
                        == *old(self)
                    &&& old(self).matches@[i].ledger@.len() == ledger_size ==> exists|s1: Server|
                        #[trigger] forfeited(
                            *old(self),
                            *final(self),
                            i,
                            mover@,
                            mover_addr,
                            player1@,
                            player2@,
                            r@,
                            s1,
                        )
                },
    {
        let ghost s0 = *self;
        let mut actions: Vec<Action> = Vec::new();
        let idx = match self.find_match(match_id) {
            Some(i) => i,
            None => {
                return actions;
            },
        };
        proof {
            assert forall|i: int| #[trigger] match_at(s0.matches@, match_id, i) implies i == idx by {
                if i != idx {
                    assert(s0.matches@[i].id != s0.matches@[idx as int].id);
                }
            }
        }
        if self.matches[idx].ledger.len() != ledger_size {
            return actions;
        }
        let opp = if *mover == *player1 { player2.clone() } else { player1.clone() };
        actions.push(Action::Send { to: mover_addr, text: String::from_str("GAME:WINS") });
        match self.find_client(&opp) {
            Some(o) => {
                actions.push(Action::Send { to: self.clients[o].addr, text: String::from_str("GAME:LOSS") });
            },
            None => {},
        }
        actions.push(Action::Broadcast { text: win_message(match_id, mover) });
        let ghost n = actions@.len() - 2;
        if self.find_client(mover).is_none() {
            actions.push(Action::Halt);
            proof {
                assert(forfeited(s0, *self, idx as int, mover@, mover_addr, player1@, player2@, actions@, s0));
            }
            return actions;
        }
        proof {
            crate::server::games::lemma_left_match(self.clients@, self.matches@, idx as int, mover@, opp@);
        }
        self.release_client(mover);
        self.release_client(&opp);
        self.remove_match(idx);
        let ghost s1 = *self;
        let ghost k = actions@.len() as int;
        if self.tournament.is_none() {
            actions.push(Action::Halt);
            proof {
                assert(forfeited(s0, *self, idx as int, mover@, mover_addr, player1@, player2@, actions@, s1));
            }
            return actions;
        }
        let ghost before = actions@;
        let halted = self.record_result(mover, match_id, player1, player2, &mut actions);
        proof {
            assert(actions@.subrange(0, k) == before);
            assert(actions@[0] == before[0] && actions@[1] == before[1]);
            if n == 1 {
                assert(actions@[2] == before[2]);
            }
            assert(actions@.skip(k) =~= actions@.subrange(k, actions@.len() as int));
            assert(forfeited(s0, *self, idx as int, mover@, mover_addr, player1@, player2@, actions@, s1));
        }
        actions
    }
}

} // verus!
