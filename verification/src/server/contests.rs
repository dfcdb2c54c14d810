//! Starting and cancelling tournaments, for the administrator.
use vstd::prelude::*;
use crate::protocol::{tournament_start_message, tournament_start_text};
use crate::server::games::terminated;
use crate::server::progress::{end_notices, events_done, events_stopped, present};
use crate::server::{broadcasts, match_at, Action, Server};
use crate::text::views;
use crate::tournaments::knockout_bracket::{seed_names, KnockoutBracket};
use crate::tournaments::round_robin::RoundRobin;
use crate::tournaments::{started_with, Tournament, TournamentEvent};
use crate::types::{Client, Match};

verus! {

/// The names of the ready players, in the clients' order.
pub open spec fn ready_names(cs: Seq<Client>) -> Seq<Seq<char>>
    decreases cs.len(),
{
    if cs.len() == 0 {
        Seq::empty()
    } else if cs.last().ready {
        ready_names(cs.drop_last()).push(cs.last().username@)
    } else {
        ready_names(cs.drop_last())
    }
}

/// The entrants of a tournament are exactly the ready players: a name is
/// among them if and only if some client of that name is ready.
pub proof fn law_entrants_are_the_ready_players(cs: Seq<Client>, n: Seq<char>)
    ensures
        ready_names(cs).contains(n) <==> exists|i: int| 0 <= i < cs.len() && cs[i].ready && #[trigger] cs[i].username@ == n,
    decreases cs.len(),
{
    if cs.len() > 0 {
        let rest = cs.drop_last();
        law_entrants_are_the_ready_players(rest, n);
        let last = cs.len() - 1;
        if ready_names(cs).contains(n) {
            let k = choose|k: int| 0 <= k < ready_names(cs).len() && ready_names(cs)[k] == n;
            if cs.last().ready && k == ready_names(rest).len() {
                assert(cs[last].username@ == n);
            } else {
                assert(ready_names(rest)[k] == n);
                assert(ready_names(rest).contains(n));
                let i = choose|i: int| 0 <= i < rest.len() && rest[i].ready && #[trigger] rest[i].username@ == n;
                assert(cs[i] == rest[i]);
            }
        }
        if exists|i: int| 0 <= i < cs.len() && cs[i].ready && #[trigger] cs[i].username@ == n {
            let i = choose|i: int| 0 <= i < cs.len() && cs[i].ready && #[trigger] cs[i].username@ == n;
            if i == last {
                assert(ready_names(cs)[ready_names(rest).len() as int] == n);
            } else {
                assert(rest[i] == cs[i]);
                assert(ready_names(rest).contains(n));
                let k = choose|k: int| 0 <= k < ready_names(rest).len() && ready_names(rest)[k] == n;
                if cs.last().ready {
                    assert(ready_names(cs)[k] == n);
                } else {
                    assert(ready_names(cs)[k] == n);
                }
            }
        }
    }
}

/// A fresh tournament of the named format for the given players; a bracket
/// keeps the current move delay to restore after its seeding round.
pub open spec fn created(t: Tournament, format: Seq<char>, names: Seq<Seq<char>>, wait: u64, file: Seq<char>) -> bool {
    match t {
        Tournament::RoundRobin(r) => format == "RoundRobin"@ && r.fresh(names),
        Tournament::KnockoutBracket(b) => format == "KnockoutBracket"@ && b.fresh(names, wait, file),
    }
}

/// The parts of starting a tournament: created as `t0`, started as `t1`
/// with events `evs`, which the server carries out with the first `k`
/// actions (reaching `mid`); then reservations are dropped and observers
/// are told.
pub open spec fn start_parts(
    old: Server,
    new: Server,
    format: Seq<char>,
    file: Seq<char>,
    acts: Seq<Action>,
    t0: Tournament,
    t1: Tournament,
    evs: Seq<TournamentEvent>,
    mid: Server,
    k: int,
) -> bool {
    &&& created(t0, format, ready_names(old.clients@), old.waiting_timeout, file)
    &&& started_with(t0, t1, file, evs)
    &&& 0 <= k
    &&& acts.len() == k + 1
    &&& events_done(Server { tournament: Some(t1), ..old }, mid, evs, acts.take(k))
    &&& new == (Server { reservations: new.reservations, ..mid })
    &&& new.reservations@.len() == 0
    &&& broadcasts(acts[k], tournament_start_text(format))
}

/// The parts of a start that stopped: created as `t0` and started as `t1`
/// with events `evs`, whose carrying out stopped.
pub open spec fn start_stop_parts(
    old: Server,
    format: Seq<char>,
    file: Seq<char>,
    acts: Seq<Action>,
    t0: Tournament,
    t1: Tournament,
    evs: Seq<TournamentEvent>,
) -> bool {
    &&& created(t0, format, ready_names(old.clients@), old.waiting_timeout, file)
    &&& started_with(t0, t1, file, evs)
    &&& events_stopped(Server { tournament: Some(t1), ..old }, evs, acts)
}

/// The matches with the given ids were terminated one after another.
#[verifier::opaque]
pub open spec fn terminations_chain(states: Seq<Server>, ids: Seq<u32>, acts: Seq<Action>, cuts: Seq<int>) -> bool {
    &&& states.len() == ids.len() + 1
    &&& cuts.len() == ids.len() + 1
    &&& cuts[0] == 0
    &&& cuts.last() == acts.len()
    &&& forall|j: int| 0 <= j < ids.len() ==> 0 <= #[trigger] cuts[j] <= cuts[j + 1] <= acts.len()
    &&& forall|j: int, i: int|
        0 <= j < ids.len() && #[trigger] match_at(states[j].matches@, ids[j], i) ==> terminated(
            states[j],
            states[j + 1],
            i,
            acts.subrange(cuts[j], cuts[j + 1]),
        )
    &&& forall|j: int| 0 <= j < ids.len() ==> #[trigger] has_match(states[j].matches@, ids[j])
}

/// Some match has the given id.
pub open spec fn has_match(ms: Seq<Match>, id: u32) -> bool {
    exists|i: int| #[trigger] match_at(ms, id, i)
}

/// The matches with the given ids, in order, were terminated.
pub open spec fn terminations(old: Server, new: Server, ids: Seq<u32>, acts: Seq<Action>) -> bool {
    exists|states: Seq<Server>, cuts: Seq<int>|
        #[trigger] terminations_chain(states, ids, acts, cuts) && states.len() >= 1 && states[0] == old
            && states.last() == new
}

/// A chain of terminations goes on with one more.
pub proof fn lemma_terminations_push(
    states: Seq<Server>,
    ids: Seq<u32>,
    acts: Seq<Action>,
    cuts: Seq<int>,
    next: Server,
    id: u32,
    more: Seq<Action>,
)
    requires
        terminations_chain(states, ids, acts, cuts),
        forall|i: int| #[trigger] match_at(states.last().matches@, id, i) ==> terminated(states.last(), next, i, more),
        has_match(states.last().matches@, id),
    ensures
        terminations_chain(states.push(next), ids.push(id), acts + more, cuts.push((acts.len() + more.len()) as int)),
{
    reveal(terminations_chain);
    let s2 = states.push(next);
    let i2 = ids.push(id);
    let a2 = acts + more;
    let c2 = cuts.push((acts.len() + more.len()) as int);
    assert forall|j: int| 0 <= j < i2.len() implies 0 <= #[trigger] c2[j] <= c2[j + 1] <= a2.len() by {
        if j < ids.len() {
            assert(c2[j] == cuts[j] && c2[j + 1] == cuts[j + 1]);
        }
    }
    assert forall|j: int, i: int|
        0 <= j < i2.len() && #[trigger] match_at(s2[j].matches@, i2[j], i) implies terminated(
        s2[j],
        s2[j + 1],
        i,
        a2.subrange(c2[j], c2[j + 1]),
    ) by {
        if j < ids.len() {
            assert(s2[j] == states[j] && s2[j + 1] == states[j + 1]);
            assert(i2[j] == ids[j]);
            assert(a2.subrange(c2[j], c2[j + 1]) =~= acts.subrange(cuts[j], cuts[j + 1]));
        } else {
            assert(a2.subrange(c2[j], c2[j + 1]) =~= more);
        }
    }
    assert forall|j: int| 0 <= j < i2.len() implies #[trigger] has_match(s2[j].matches@, i2[j]) by {
        if j < ids.len() {
            assert(s2[j] == states[j]);
            assert(i2[j] == ids[j]);
        }
    }
}

/// The players told that a cancelled tournament ended: the round robin's
/// (the seeding round's while a bracket has not started), else the seeds.
pub open spec fn cancel_names(t: Tournament) -> Seq<Seq<char>> {
    match t {
        Tournament::RoundRobin(r) => r.players@.map_values(|e: (String, u32)| e.0@),
        Tournament::KnockoutBracket(b) => if b.started {
            seed_names(b.players@)
        } else {
            b.blitz_round_robin.players@.map_values(|e: (String, u32)| e.0@)
        },
    }
}

/// The parts of cancelling: the current matches are terminated with the
/// first `k` actions (reaching `mid`), the players still known are told
/// `TOURNAMENT:END`, the tournament is dropped and observers are told.
pub open spec fn cancel_parts(old: Server, new: Server, acts: Seq<Action>, mid: Server, k: int) -> bool {
    let t = old.tournament->0;
    let n = present(mid.clients@, cancel_names(t)).len() as int;
    &&& 0 <= k
    &&& acts.len() == k + n + 1
    &&& terminations(old, mid, t.current(), acts.take(k))
    &&& end_notices(acts.subrange(k, k + n), mid.clients@, cancel_names(t))
    &&& new == (Server { tournament: None, ..mid })
    &&& broadcasts(acts[k + n], "TOURNAMENT:CANCEL"@)
}

/// The parts of a cancellation that stopped: the first `j` current matches
/// were terminated with the first `k` actions, reaching `states.last()`,
/// where match `j` no longer exists.
pub open spec fn cancel_stop_parts(
    old: Server,
    acts: Seq<Action>,
    states: Seq<Server>,
    cuts: Seq<int>,
    j: int,
    k: int,
) -> bool {
    let ids = old.tournament->0.current();
    &&& 0 <= j < ids.len()
    &&& 0 <= k
    &&& acts.len() == k + 1
    &&& terminations_chain(states, ids.take(j), acts.take(k), cuts)
    &&& states.len() >= 1
    &&& states[0] == old
    &&& !has_match(states.last().matches@, ids[j])
    &&& acts.last() is Halt
}

impl Server {
    /// The names of the ready players, in the clients' order.
    pub fn ready_players(&self) -> (r: Vec<String>)
        ensures
            views(r@) == ready_names(self.clients@),
    {
        let mut r: Vec<String> = Vec::new();
        let mut i: usize = 0;
        assert(self.clients@.take(0) =~= Seq::<Client>::empty());
        assert(views(r@) =~= Seq::<Seq<char>>::empty());
        while i < self.clients.len()
            invariant
                i <= self.clients@.len(),
                views(r@) == ready_names(self.clients@.take(i as int)),
            decreases self.clients@.len() - i,
        {
            assert(self.clients@.take(i + 1).drop_last() =~= self.clients@.take(i as int));
            if self.clients[i].ready {
                let ghost before = r@;
                r.push(self.clients[i].username.clone());
                assert(views(r@) =~= views(before).push(self.clients@[i as int].username@));
            }
            i = i + 1;
        }
        assert(self.clients@.take(self.clients@.len() as int) =~= self.clients@);
        r
    }

    /// Starts a tournament of the ready players, for the administrator:
    /// refused while one runs, with fewer than three ready players, or for
    /// a format other than `RoundRobin` and `KnockoutBracket`.
    /// `bracket_file` is the bracket file's content (empty if it cannot be
    /// read).
    pub fn handle_tournament_start(&mut self, addr: u64, tournament_type: &String, bracket_file: &str) -> (r: Result<
        Vec<Action>,
        String,
    >)
        requires
            old(self).wf(),
            old(self).clients@.len() < u32::MAX,
            bracket_file@.len() < u32::MAX,
        ensures
            final(self).wf(),
            old(self).admin != Some(addr) ==> (r matches Err(e) && e@ == "ERROR:INVALID:AUTH"@) && *final(self)
                == *old(self),
            old(self).admin == Some(addr) && (old(self).tournament is Some || ready_names(old(self).clients@).len()
                < 3 || (tournament_type@ != "RoundRobin"@ && tournament_type@ != "KnockoutBracket"@)) ==> (r matches Err(
                e,
            ) && e@ == "ERROR:INVALID:TOURNAMENT"@) && *final(self) == *old(self),
            old(self).admin == Some(addr) && old(self).tournament is None && ready_names(old(self).clients@).len() >= 3
                && (tournament_type@ == "RoundRobin"@ || tournament_type@ == "KnockoutBracket"@) ==> r is Ok && ((
            exists|t0: Tournament, t1: Tournament, evs: Seq<TournamentEvent>|
                #[trigger] start_stop_parts(*old(self), tournament_type@, bracket_file@, r->Ok_0@, t0, t1, evs))
                || exists|
                t0: Tournament,
                t1: Tournament,
                evs: Seq<TournamentEvent>,
                mid: Server,
                k: int,
            |
                #[trigger] start_parts(
                    *old(self),
                    *final(self),
                    tournament_type@,
                    bracket_file@,
                    r->Ok_0@,
                    t0,
                    t1,
                    evs,
                    mid,
                    k,
                )),
    {
        if !self.auth_check(addr) {
            return Err(String::from_str("ERROR:INVALID:AUTH"));
        }
        if self.tournament.is_some() {
            return Err(String::from_str("ERROR:INVALID:TOURNAMENT"));
        }
        let ghost s0 = *self;
        let ready = self.ready_players();
        proof {
            crate::text::lemma_views(ready@);
            lemma_ready_len(self.clients@);
        }
        if ready.len() < 3 {
            return Err(String::from_str("ERROR:INVALID:TOURNAMENT"));
        }
        let mut t = if *tournament_type == String::from_str("RoundRobin") {
            Tournament::RoundRobin(RoundRobin::new(&ready))
        } else if *tournament_type == String::from_str("KnockoutBracket") {
            Tournament::KnockoutBracket(KnockoutBracket::new(&ready, self.waiting_timeout, bracket_file))
        } else {
            return Err(String::from_str("ERROR:INVALID:TOURNAMENT"));
        };
        let ghost t0 = t;
        let evs = t.start(bracket_file);
        let ghost t1 = t;
        self.tournament = Some(t);
        let mut actions: Vec<Action> = Vec::new();
        if self.run_events(&evs, &mut actions) {
            proof {
                reveal_strlit("RoundRobin");
                reveal_strlit("KnockoutBracket");
                assert(actions@.subrange(0, actions@.len() as int) =~= actions@);
                assert(start_stop_parts(s0, tournament_type@, bracket_file@, actions@, t0, t1, evs@));
            }
            let r: Result<Vec<Action>, String> = Ok(actions);
            assert(r->Ok_0@ == actions@);
            return r;
        }
        let ghost mid = *self;
        let ghost k = actions@.len() as int;
        let ghost ak = actions@;
        self.reservations = Vec::new();
        actions.push(Action::Broadcast { text: tournament_start_message(tournament_type) });
        proof {
            reveal_strlit("RoundRobin");
            reveal_strlit("KnockoutBracket");
            assert(ak.subrange(0, 0) =~= Seq::<Action>::empty());
            assert(ak.subrange(0, k) =~= ak);
            assert(actions@.take(k) =~= ak);
            assert(start_parts(s0, *self, tournament_type@, bracket_file@, actions@, t0, t1, evs@, mid, k));
        }
        let r: Result<Vec<Action>, String> = Ok(actions);
        assert(r->Ok_0@ == actions@);
        r
    }

    /// Cancels the tournament, for the administrator: its current matches
    /// are terminated, its players told `TOURNAMENT:END`, and observers
    /// `TOURNAMENT:CANCEL`. A current match that no longer exists stops the
    /// handler.
    pub fn handle_tournament_cancel(&mut self, addr: u64) -> (r: Result<Vec<Action>, String>)
        requires
            old(self).wf(),
        ensures
            final(self).wf(),
            old(self).admin != Some(addr) ==> (r matches Err(e) && e@ == "ERROR:INVALID:AUTH"@) && *final(self)
                == *old(self),
            old(self).admin == Some(addr) && old(self).tournament is None ==> (r matches Err(e) && e@
                == "ERROR:INVALID:TOURNAMENT"@) && *final(self) == *old(self),
            old(self).admin == Some(addr) && old(self).tournament is Some ==> r is Ok && ((exists|
                states: Seq<Server>,
                cuts: Seq<int>,
                j: int,
                k: int,
            | #[trigger] cancel_stop_parts(*old(self), r->Ok_0@, states, cuts, j, k)) || exists|mid: Server, k: int|
                #[trigger] cancel_parts(*old(self), *final(self), r->Ok_0@, mid, k)),
    {
        if !self.auth_check(addr) {
            return Err(String::from_str("ERROR:INVALID:AUTH"));
        }
        let (ids, names) = match &self.tournament {
            Some(t) => t.cancel(),
            None => {
                return Err(String::from_str("ERROR:INVALID:TOURNAMENT"));
            },
        };
        let ghost s0 = *self;
        let ghost t = self.tournament->0;
        proof {
            assert(views(names@) =~= cancel_names(t)) by {
                crate::text::lemma_views(names@);
            }
        }
        let mut actions: Vec<Action> = Vec::new();
        let mut i: usize = 0;
        let ghost mut states: Seq<Server> = seq![s0];
        let ghost mut cuts: Seq<int> = seq![0int];
        assert(ids@.take(0) =~= Seq::<u32>::empty());
        assert(terminations_chain(states, ids@.take(0), actions@, cuts)) by {
            reveal(terminations_chain);
        }
        while i < ids.len()
            invariant
                i <= ids@.len(),
                self.wf(),
                self.tournament == s0.tournament,
                terminations_chain(states, ids@.take(i as int), actions@, cuts),
                states.len() >= 1,
                states[0] == s0,
                states.last() == *self,
                s0 == *old(self),
                s0.admin == Some(addr),
                s0.tournament is Some,
                ids@ == t.current(),
                t == s0.tournament->0,
            decreases ids@.len() - i,
        {
            let ghost before = *self;
            let ghost before_acts = actions@;
            let more = self.terminate_match(ids[i]);
            if more.len() == 1 {
                // only an unknown match gives a single action
                proof {
                    if has_match(before.matches@, ids@[i as int]) {
                        let j = choose|j: int| #[trigger] match_at(before.matches@, ids@[i as int], j);
                        assert(terminated(before, *self, j, more@));
                    }
                }
                let ghost kk = actions@.len() as int;
                let mut out = actions;
                out.push(Action::Halt);
                proof {
                    assert(out@.take(kk) =~= before_acts);
                    assert(cancel_stop_parts(s0, out@, states, cuts, i as int, kk));
                }
                let r: Result<Vec<Action>, String> = Ok(out);
                assert(r->Ok_0@ == out@);
                return r;
            }
            proof {
                assert(has_match(before.matches@, ids@[i as int])) by {
                    if forall|j: int| 0 <= j < before.matches@.len() ==> before.matches@[j].id != ids@[i as int] {
                        assert(more@ == seq![Action::Halt]);
                    } else {
                        let j = choose|j: int| 0 <= j < before.matches@.len() && before.matches@[j].id == ids@[i as int];
                        assert(match_at(before.matches@, ids@[i as int], j));
                    }
                }
                lemma_terminations_push(states, ids@.take(i as int), before_acts, cuts, *self, ids@[i as int], more@);
                assert(ids@.take(i + 1) =~= ids@.take(i as int).push(ids@[i as int]));
                states = states.push(*self);
                cuts = cuts.push((before_acts.len() + more@.len()) as int);
            }
            let mut more = more;
            actions.append(&mut more);
            i = i + 1;
        }
        let ghost mid = *self;
        let ghost k = actions@.len() as int;
        let ghost ak = actions@;
        proof {
            assert(ids@.take(ids@.len() as int) =~= ids@);
            assert(terminations(s0, mid, t.current(), ak));
        }
        self.notify_end(&names, &mut actions);
        let ghost an = actions@;
        self.tournament = None;
        actions.push(Action::Broadcast { text: String::from_str("TOURNAMENT:CANCEL") });
        proof {
            let n = present(mid.clients@, cancel_names(t)).len() as int;
            assert(actions@.take(k) =~= ak);
            assert(an.subrange(k, an.len() as int).len() == n);
            assert(actions@.subrange(k, k + n) =~= an.subrange(k, an.len() as int));
            assert(0 <= k);
            assert(actions@.len() == k + n + 1);
            assert(terminations(s0, mid, t.current(), actions@.take(k)));
            assert(end_notices(actions@.subrange(k, k + n), mid.clients@, cancel_names(t)));
            assert(*self == (Server { tournament: None, ..mid }));
            assert(broadcasts(actions@[k + n], "TOURNAMENT:CANCEL"@));
            assert(cancel_parts(s0, *self, actions@, mid, k));
        }
        let r: Result<Vec<Action>, String> = Ok(actions);
        assert(r->Ok_0@ == actions@);
        r
    }
}

/// No more names are ready than there are clients.
pub proof fn lemma_ready_len(cs: Seq<Client>)
    ensures
        ready_names(cs).len() <= cs.len(),
    decreases cs.len(),
{
    if cs.len() > 0 {
        lemma_ready_len(cs.drop_last());
    }
}

} // verus!
