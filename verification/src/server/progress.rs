//! Moving a tournament on: publishing standings and brackets, starting the
//! matches of a round, announcing the winner.
use vstd::prelude::*;
use crate::protocol::{bracket_published_message, bracket_published_text, tournament_winner_message,
    tournament_winner_text};
use crate::server::matchmaking::{pair_started, PairStart};
use crate::server::{broadcasts, client_index, has_client, sends, unique_names, Action, Server};
use crate::tournaments::round_robin::leads;
use crate::types::Client;
use crate::text::{decimal, decimal_string, pop_char, pop_last, views};
use crate::tournaments::knockout_bracket::{bracket_text, rounds_view};
use crate::tournaments::round_robin::pair_views;
use crate::tournaments::standings::entries_view;
use crate::tournaments::{moved_on, Tournament, TournamentEvent};

verus! {

/// The standings entries: `<name>,<score>|` each.
pub open spec fn score_entries(s: Seq<(Seq<char>, u32)>) -> Seq<char>
    decreases s.len(),
{
    if s.len() == 0 {
        Seq::empty()
    } else {
        score_entries(s.drop_last()) + s.last().0 + ","@ + decimal(s.last().1 as nat) + "|"@
    }
}

/// `TOURNAMENT:SCORES:` followed by the entries, less the last character.
pub open spec fn scores_text(s: Seq<(Seq<char>, u32)>) -> Seq<char> {
    pop_last("TOURNAMENT:SCORES:"@ + score_entries(s))
}

/// One standing reads `<name>,<score>|`: the player's own name and score.
pub proof fn law_a_standing_reads_its_name_and_score(name: Seq<char>, score: u32)
    ensures
        score_entries(seq![(name, score)]) == name + ","@ + decimal(score as nat) + "|"@,
{
    let l = seq![(name, score)];
    assert(l.drop_last() =~= Seq::<(Seq<char>, u32)>::empty());
    assert(score_entries(l.drop_last()) == Seq::<char>::empty());
    assert(l.last() == (name, score));
    assert(score_entries(l) == Seq::<char>::empty() + name + ","@ + decimal(score as nat) + "|"@);
    assert(Seq::<char>::empty() + name + ","@ + decimal(score as nat) + "|"@ =~= name + ","@ + decimal(score as nat) + "|"@);
}

/// The standings text is written entry by entry: the text of two lists one
/// after the other is the text of the first followed by that of the second,
/// so what an entry reads does not depend on where it stands.
pub proof fn law_standings_read_entry_by_entry(s1: Seq<(Seq<char>, u32)>, s2: Seq<(Seq<char>, u32)>)
    ensures
        score_entries(s1 + s2) == score_entries(s1) + score_entries(s2),
    decreases s2.len(),
{
    if s2.len() == 0 {
        assert(s1 + s2 =~= s1);
        assert(score_entries(s1) + Seq::<char>::empty() =~= score_entries(s1));
    } else {
        law_standings_read_entry_by_entry(s1, s2.drop_last());
        assert((s1 + s2).drop_last() =~= s1 + s2.drop_last());
        assert((s1 + s2).last() == s2.last());
        let e = s2.last();
        let t = ","@ + decimal(e.1 as nat) + "|"@;
        assert(score_entries(s1 + s2) =~= score_entries(s1) + score_entries(s2.drop_last()) + e.0 + ","@ + decimal(
            e.1 as nat,
        ) + "|"@);
        assert(score_entries(s2) =~= score_entries(s2.drop_last()) + e.0 + ","@ + decimal(e.1 as nat) + "|"@);
    }
}

/// The matches of the pairings were started one after another: from
/// `states[j]` to `states[j + 1]` with the actions between `cuts[j]` and
/// `cuts[j + 1]`, the match getting id `ids[j]`.
#[verifier::opaque]
pub open spec fn pairs_chain(
    states: Seq<Server>,
    ps: Seq<(Seq<char>, Seq<char>)>,
    acts: Seq<Action>,
    cuts: Seq<int>,
    ids: Seq<u32>,
) -> bool {
    &&& states.len() == ps.len() + 1
    &&& cuts.len() == ps.len() + 1
    &&& ids.len() == ps.len()
    &&& cuts[0] == 0
    &&& cuts.last() == acts.len()
    &&& forall|j: int| 0 <= j < ps.len() ==> 0 <= #[trigger] cuts[j] <= cuts[j + 1] <= acts.len()
    &&& forall|j: int| 0 <= j < ps.len() ==> pair_started(
        #[trigger] states[j],
        states[j + 1],
        ps[j].0,
        ps[j].1,
        acts.subrange(cuts[j], cuts[j + 1]),
    ) && states[j + 1].matches@.last().id == ids[j]
}

/// The matches of the pairings, in order, were started (with these ids).
pub open spec fn pairs_started(
    old: Server,
    new: Server,
    ps: Seq<(Seq<char>, Seq<char>)>,
    acts: Seq<Action>,
    ids: Seq<u32>,
) -> bool {
    exists|states: Seq<Server>, cuts: Seq<int>|
        #[trigger] pairs_chain(states, ps, acts, cuts, ids) && states[0] == old && states.last() == new
}

/// A chain of started pairings goes on with one more.
pub proof fn lemma_pairs_chain_push(
    states: Seq<Server>,
    ps: Seq<(Seq<char>, Seq<char>)>,
    acts: Seq<Action>,
    cuts: Seq<int>,
    ids: Seq<u32>,
    next: Server,
    p: (Seq<char>, Seq<char>),
    more: Seq<Action>,
    id: u32,
)
    requires
        pairs_chain(states, ps, acts, cuts, ids),
        pair_started(states.last(), next, p.0, p.1, more),
        next.matches@.last().id == id,
    ensures
        pairs_chain(
            states.push(next),
            ps.push(p),
            acts + more,
            cuts.push((acts.len() + more.len()) as int),
            ids.push(id),
        ),
{
    reveal(pairs_chain);
    let s2 = states.push(next);
    let p2 = ps.push(p);
    let a2 = acts + more;
    let c2 = cuts.push((acts.len() + more.len()) as int);
    let i2 = ids.push(id);
    assert forall|j: int| 0 <= j < p2.len() implies 0 <= #[trigger] c2[j] <= c2[j + 1] <= a2.len() by {
        if j < ps.len() {
            assert(c2[j] == cuts[j] && c2[j + 1] == cuts[j + 1]);
        }
    }
    assert forall|j: int| 0 <= j < p2.len() implies pair_started(
        #[trigger] s2[j],
        s2[j + 1],
        p2[j].0,
        p2[j].1,
        a2.subrange(c2[j], c2[j + 1]),
    ) && s2[j + 1].matches@.last().id == i2[j] by {
        if j < ps.len() {
            assert(s2[j] == states[j] && s2[j + 1] == states[j + 1]);
            assert(p2[j] == ps[j]);
            assert(a2.subrange(c2[j], c2[j + 1]) =~= acts.subrange(cuts[j], cuts[j + 1]));
        } else {
            assert(a2.subrange(c2[j], c2[j + 1]) =~= more);
        }
    }
}

/// Starting the pair `(a, b)` cannot go through: no id is free, or a player
/// is not a known client.
pub open spec fn pair_blocked(s: Server, a: Seq<char>, b: Seq<char>) -> bool {
    !crate::free_id_exists(s.matches@) || !has_client(s.clients@, a) || !has_client(s.clients@, b)
}

/// Starting the pairings stopped at pairing `j`: the ones before it started
/// with the first `k` actions, reaching `states.last()`, where pairing `j`
/// is blocked; the actions end with the stop.
pub open spec fn pairs_stop_parts(
    old: Server,
    ps: Seq<(Seq<char>, Seq<char>)>,
    acts: Seq<Action>,
    states: Seq<Server>,
    cuts: Seq<int>,
    ids: Seq<u32>,
    j: int,
    k: int,
) -> bool {
    &&& 0 <= j < ps.len()
    &&& 0 <= k < acts.len()
    &&& pairs_chain(states, ps.take(j), acts.take(k), cuts, ids)
    &&& states.len() >= 1
    &&& states[0] == old
    &&& pair_blocked(states.last(), ps[j].0, ps[j].1)
    &&& acts.last() is Halt
}

/// Starting the pairings stopped at a blocked pairing.
pub open spec fn pairs_stopped(old: Server, ps: Seq<(Seq<char>, Seq<char>)>, acts: Seq<Action>) -> bool {
    exists|states: Seq<Server>, cuts: Seq<int>, ids: Seq<u32>, j: int, k: int|
        #[trigger] pairs_stop_parts(old, ps, acts, states, cuts, ids, j, k)
}

/// The tournament recorded the matches just started.
pub open spec fn recorded_ids(old: Tournament, new: Tournament, ids: Seq<u32>) -> bool {
    &&& new.running()
    &&& new.current() == old.current() + ids
    &&& new.completed() == old.completed()
    &&& new.entrants() == old.entrants()
}

/// What one tournament event does, when it goes through.
pub open spec fn event_done(old: Server, new: Server, ev: TournamentEvent, acts: Seq<Action>) -> bool {
    match ev {
        TournamentEvent::Scores(s) => {
            &&& forall|k: int| 0 <= k < s@.len() ==> has_client(old.clients@, #[trigger] s@[k].0@)
            &&& new == old
            &&& acts.len() == 1
            &&& broadcasts(acts[0], scores_text(entries_view(s@)))
        },
        TournamentEvent::SetWaitingTimeout(v) => new == (Server { waiting_timeout: v, ..old }) && acts.len() == 0,
        TournamentEvent::BracketData => new == old && acts.len() == 1 && match old.tournament {
            Some(Tournament::KnockoutBracket(t)) => t.started && broadcasts(
                acts[0],
                bracket_published_text(bracket_text(rounds_view(t.data@))),
            ),
            _ => false,
        },
        TournamentEvent::Pairings(p) => exists|mid: Server, ids: Seq<u32>|
            #[trigger] pairs_started(old, mid, pair_views(p@), acts, ids) && old.tournament is Some
                && new.tournament is Some && new == (Server { tournament: new.tournament, ..mid })
                && recorded_ids(old.tournament->0, new.tournament->0, ids),
    }
}

/// The events were carried out one after another: from `states[j]` to
/// `states[j + 1]` with the actions between `cuts[j]` and `cuts[j + 1]`.
#[verifier::opaque]
pub open spec fn events_chain(
    states: Seq<Server>,
    evs: Seq<TournamentEvent>,
    acts: Seq<Action>,
    cuts: Seq<int>,
) -> bool {
    &&& states.len() == evs.len() + 1
    &&& cuts.len() == evs.len() + 1
    &&& cuts[0] == 0
    &&& cuts.last() == acts.len()
    &&& forall|j: int| 0 <= j < evs.len() ==> 0 <= #[trigger] cuts[j] <= cuts[j + 1] <= acts.len()
    &&& forall|j: int|
        0 <= j < evs.len() ==> event_done(
            #[trigger] states[j],
            states[j + 1],
            evs[j],
            acts.subrange(cuts[j], cuts[j + 1]),
        )
}

/// The events, in order, went through.
pub open spec fn events_done(old: Server, new: Server, evs: Seq<TournamentEvent>, acts: Seq<Action>) -> bool {
    exists|states: Seq<Server>, cuts: Seq<int>|
        #[trigger] events_chain(states, evs, acts, cuts) && states[0] == old && states.last() == new
}

/// Carrying out the event stopped (`acts`: its actions, ending with the
/// stop): standings that name a player who is not a known client,
/// pairings that stopped, or a bracket to
/// publish when no bracket has started.
pub open spec fn event_stopped(s: Server, ev: TournamentEvent, acts: Seq<Action>) -> bool {
    match ev {
        TournamentEvent::Scores(sc) => acts == seq![Action::Halt] && exists|k: int|
            0 <= k < sc@.len() && !has_client(s.clients@, #[trigger] sc@[k].0@),
        TournamentEvent::Pairings(p) => pairs_stopped(s, pair_views(p@), acts),
        TournamentEvent::SetWaitingTimeout(_) => false,
        TournamentEvent::BracketData => acts == seq![Action::Halt] && !(s.tournament is Some
            && s.tournament->0 is KnockoutBracket && s.tournament->0->KnockoutBracket_0.started),
    }
}

/// Carrying out the events stopped at event `j`: the ones before it went
/// through with the first `k` actions, reaching `states.last()`, where event
/// `j` stopped with the rest.
pub open spec fn events_stop_parts(
    old: Server,
    evs: Seq<TournamentEvent>,
    acts: Seq<Action>,
    states: Seq<Server>,
    cuts: Seq<int>,
    j: int,
    k: int,
) -> bool {
    &&& 0 <= j < evs.len()
    &&& 0 <= k <= acts.len()
    &&& events_chain(states, evs.take(j), acts.take(k), cuts)
    &&& states.len() >= 1
    &&& states[0] == old
    &&& event_stopped(states.last(), evs[j], acts.skip(k))
}

/// Carrying out the events stopped at one of them.
pub open spec fn events_stopped(old: Server, evs: Seq<TournamentEvent>, acts: Seq<Action>) -> bool {
    exists|states: Seq<Server>, cuts: Seq<int>, j: int, k: int|
        #[trigger] events_stop_parts(old, evs, acts, states, cuts, j, k)
}

/// A chain of events goes on with one more event.
pub proof fn lemma_events_chain_push(
    states: Seq<Server>,
    evs: Seq<TournamentEvent>,
    acts: Seq<Action>,
    cuts: Seq<int>,
    next: Server,
    ev: TournamentEvent,
    more: Seq<Action>,
)
    requires
        events_chain(states, evs, acts, cuts),
        event_done(states.last(), next, ev, more),
    ensures
        events_chain(states.push(next), evs.push(ev), acts + more, cuts.push((acts.len() + more.len()) as int)),
{
    reveal(events_chain);
    let s2 = states.push(next);
    let e2 = evs.push(ev);
    let a2 = acts + more;
    let c2 = cuts.push((acts.len() + more.len()) as int);
    assert forall|j: int| 0 <= j < e2.len() implies 0 <= #[trigger] c2[j] <= c2[j + 1] <= a2.len() by {
        if j < evs.len() {
            assert(c2[j] == cuts[j] && c2[j + 1] == cuts[j + 1]);
        }
    }
    assert forall|j: int| 0 <= j < e2.len() implies event_done(
        #[trigger] s2[j],
        s2[j + 1],
        e2[j],
        a2.subrange(c2[j], c2[j + 1]),
    ) by {
        if j < evs.len() {
            assert(s2[j] == states[j] && s2[j + 1] == states[j + 1]);
            assert(e2[j] == evs[j]);
            assert(a2.subrange(c2[j], c2[j + 1]) =~= acts.subrange(cuts[j], cuts[j + 1]));
        } else {
            assert(a2.subrange(c2[j], c2[j + 1]) =~= more);
        }
    }
}

/// The entrants that are known clients, in order.
pub open spec fn present(cs: Seq<Client>, names: Seq<Seq<char>>) -> Seq<Seq<char>>
    decreases names.len(),
{
    if names.len() == 0 {
        Seq::empty()
    } else if has_client(cs, names.last()) {
        present(cs, names.drop_last()).push(names.last())
    } else {
        present(cs, names.drop_last())
    }
}

/// The actions tell each entrant that is a known client, in order, that the
/// tournament ended.
pub open spec fn end_notices(acts: Seq<Action>, cs: Seq<Client>, names: Seq<Seq<char>>) -> bool {
    let p = present(cs, names);
    &&& acts.len() == p.len()
    &&& forall|j: int|
        0 <= j < p.len() ==> sends(#[trigger] acts[j], cs[client_index(cs, p[j])].addr, "TOURNAMENT:END"@)
}

/// `w` won the finished tournament: for a round robin the leader, for a
/// bracket the one place left.
pub open spec fn won_by(t: Tournament, w: Seq<char>) -> bool {
    match t {
        Tournament::RoundRobin(r) => exists|i: int| leads(r.players@, i) && w == r.players@[i].0@,
        Tournament::KnockoutBracket(b) => w == b.pairings@[0]@,
    }
}

/// Winding up after the events: nothing while the tournament goes on; once
/// it is over, each entrant still known is told `TOURNAMENT:END`, the
/// tournament is dropped, and observers are told `TOURNAMENT:END` and the
/// winner.
pub open spec fn wound_up(mid: Server, new: Server, acts: Seq<Action>) -> bool {
    let t = mid.tournament->0;
    let n = present(mid.clients@, t.entrants()).len() as int;
    if !t.completed() {
        new == mid && acts.len() == 0
    } else {
        &&& acts.len() == n + 2
        &&& end_notices(acts.take(n), mid.clients@, t.entrants())
        &&& new == (Server { tournament: None, ..mid })
        &&& broadcasts(acts[n], "TOURNAMENT:END"@)
        &&& exists|w: Seq<char>| won_by(t, w) && #[trigger] broadcasts(acts[n + 1], tournament_winner_text(w))
    }
}

/// The parts of moving on: the tournament becomes `t` with events `evs`
/// (by format), the server carries them out with the first `k` actions,
/// reaching `mid`, and winds up with the rest.
pub open spec fn advance_parts(
    old: Server,
    new: Server,
    acts: Seq<Action>,
    t: Tournament,
    evs: Seq<TournamentEvent>,
    mid: Server,
    k: int,
) -> bool {
    &&& moved_on(old.tournament->0, t, evs)
    &&& 0 <= k <= acts.len()
    &&& events_done(Server { tournament: Some(t), ..old }, mid, evs, acts.take(k))
    &&& wound_up(mid, new, acts.skip(k))
}

/// Once no match of the round is left, the tournament moves on.
pub open spec fn advanced(old: Server, new: Server, acts: Seq<Action>) -> bool {
    exists|t: Tournament, evs: Seq<TournamentEvent>, mid: Server, k: int|
        #[trigger] advance_parts(old, new, acts, t, evs, mid, k)
}

/// A finished tournament with nobody to name as winner: a round robin in
/// which nobody scored.
pub open spec fn no_winner(t: Tournament) -> bool {
    match t {
        Tournament::RoundRobin(r) => forall|i: int| 0 <= i < r.players@.len() ==> r.players@[i].1 == 0,
        Tournament::KnockoutBracket(_) => false,
    }
}

/// The parts of moving on when it stopped: the tournament became `t` with
/// events `evs`; carrying them out stopped, or they went through (reaching
/// `mid` with the first `k` actions) and the tournament is over with no
/// winner to name, which stops the handler once the entrants have been told.
pub open spec fn advance_stop_parts(
    old: Server,
    acts: Seq<Action>,
    t: Tournament,
    evs: Seq<TournamentEvent>,
    mid: Server,
    k: int,
) -> bool {
    let n = present(mid.clients@, mid.tournament->0.entrants()).len() as int;
    &&& moved_on(old.tournament->0, t, evs)
    &&& {
        ||| events_stopped(Server { tournament: Some(t), ..old }, evs, acts)
        ||| {
            &&& 0 <= k
            &&& acts.len() == k + n + 1
            &&& events_done(Server { tournament: Some(t), ..old }, mid, evs, acts.take(k))
            &&& mid.tournament is Some
            &&& mid.tournament->0.completed()
            &&& no_winner(mid.tournament->0)
            &&& end_notices(acts.subrange(k, k + n), mid.clients@, mid.tournament->0.entrants())
            &&& acts.last() is Halt
        }
    }
}

/// Moving on stopped.
pub open spec fn advance_stopped(old: Server, acts: Seq<Action>) -> bool {
    exists|t: Tournament, evs: Seq<TournamentEvent>, mid: Server, k: int|
        #[trigger] advance_stop_parts(old, acts, t, evs, mid, k)
}

impl Server {
    /// The standings as published.
    fn scores_message(s: &Vec<(String, u32)>) -> (r: String)
        ensures
            r@ == scores_text(entries_view(s@)),
    {
        let ghost e = entries_view(s@);
        let mut msg = String::from_str("TOURNAMENT:SCORES:");
        let mut i: usize = 0;
        assert(e.take(0) =~= Seq::<(Seq<char>, u32)>::empty());
        while i < s.len()
            invariant
                i <= s@.len(),
                e == entries_view(s@),
                msg@ == "TOURNAMENT:SCORES:"@ + score_entries(e.take(i as int)),
            decreases s@.len() - i,
        {
            msg.append(s[i].0.as_str());
            msg.append(",");
            let n = decimal_string(s[i].1 as u64);
            msg.append(n.as_str());
            msg.append("|");
            assert(e.take(i + 1).drop_last() =~= e.take(i as int));
            assert(e.take(i + 1).last() == (s@[i as int].0@, s@[i as int].1));
            assert(msg@ =~= "TOURNAMENT:SCORES:"@ + score_entries(e.take(i + 1)));
            i = i + 1;
        }
        assert(e.take(e.len() as int) =~= e);
        pop_char(msg)
    }

    /// Starts the matches of the pairings, in order, and records them with
    /// the tournament. Returns whether the handler stopped.
    fn start_pairs(&mut self, pairs: &Vec<(String, String)>, actions: &mut Vec<Action>) -> (halted: bool)
        requires
            old(self).wf(),
            old(self).tournament is Some,
        ensures
            final(self).wf(),
            final(self).tournament is Some,
            final(actions)@.len() >= old(actions)@.len(),
            final(actions)@.subrange(0, old(actions)@.len() as int) == old(actions)@,
            halted ==> final(actions)@.last() is Halt,
            halted ==> pairs_stopped(
                *old(self),
                pair_views(pairs@),
                final(actions)@.subrange(old(actions)@.len() as int, final(actions)@.len() as int),
            ),
            !halted ==> event_done(
                *old(self),
                *final(self),
                TournamentEvent::Pairings(*pairs),
                final(actions)@.subrange(old(actions)@.len() as int, final(actions)@.len() as int),
            ),
    {
        let ghost s0 = *self;
        let ghost start = actions@;
        let ghost ps = pair_views(pairs@);
        let mut ids: Vec<u32> = Vec::new();
        let mut halted = false;
        let mut i: usize = 0;
        let ghost mut states: Seq<Server> = seq![s0];
        let ghost mut cuts: Seq<int> = seq![0int];
        assert(actions@.subrange(start.len() as int, actions@.len() as int) =~= Seq::<Action>::empty());
        assert(ps.take(0) =~= Seq::<(Seq<char>, Seq<char>)>::empty());
        assert(pairs_chain(states, ps.take(0), actions@.subrange(start.len() as int, actions@.len() as int), cuts, ids@)) by {
            reveal(pairs_chain);
        }
        while i < pairs.len() && !halted
            invariant
                i <= pairs@.len(),
                ps == pair_views(pairs@),
                self.wf(),
                self.tournament == s0.tournament,
                s0.tournament is Some,
                actions@.len() >= start.len(),
                actions@.subrange(0, start.len() as int) == start,
                halted ==> actions@.last() is Halt,
                halted ==> pairs_stopped(s0, ps, actions@.subrange(start.len() as int, actions@.len() as int)),
                !halted ==> {
                    &&& pairs_chain(
                        states,
                        ps.take(i as int),
                        actions@.subrange(start.len() as int, actions@.len() as int),
                        cuts,
                        ids@,
                    )
                    &&& states.len() >= 1
                    &&& states[0] == s0
                    &&& states.last() == *self
                },
            decreases pairs@.len() - i + (if halted { 0int } else { 1int }),
        {
            let ghost before = *self;
            let ghost before_acts = actions@;
            let r = self.start_tournament_pair(&pairs[i].0, &pairs[i].1, actions);
            assert(actions@.subrange(0, start.len() as int) =~= start) by {
                assert(actions@.subrange(0, before_acts.len() as int) == before_acts);
            }
            match r {
                PairStart::Started(id) => {
                    let ghost old_ids = ids@;
                    ids.push(id);
                    proof {
                        let old_acts = before_acts.subrange(start.len() as int, before_acts.len() as int);
                        let more = actions@.subrange(before_acts.len() as int, actions@.len() as int);
                        let ghost_pair = (pairs@[i as int].0@, pairs@[i as int].1@);
                        lemma_pairs_chain_push(states, ps.take(i as int), old_acts, cuts, old_ids, *self, ghost_pair, more, id);
                        assert(ps.take(i + 1) =~= ps.take(i as int).push(ghost_pair));
                        assert(actions@.subrange(start.len() as int, actions@.len() as int) =~= old_acts + more);
                        states = states.push(*self);
                        cuts = cuts.push((old_acts.len() + more.len()) as int);
                    }
                    i = i + 1;
                },
                PairStart::Stopped(id) => {
                    proof {
                        let acts = actions@.subrange(start.len() as int, actions@.len() as int);
                        let kk = before_acts.len() - start.len();
                        assert(acts.take(kk) =~= before_acts.subrange(start.len() as int, before_acts.len() as int));
                        assert(ps[i as int] == (pairs@[i as int].0@, pairs@[i as int].1@));
                        assert(pairs_stop_parts(s0, ps, acts, states, cuts, ids@, i as int, kk));
                    }
                    ids.push(id);
                    halted = true;
                },
                PairStart::Exhausted => {
                    proof {
                        let acts = actions@.subrange(start.len() as int, actions@.len() as int);
                        let kk = before_acts.len() - start.len();
                        assert(acts.take(kk) =~= before_acts.subrange(start.len() as int, before_acts.len() as int));
                        assert(ps[i as int] == (pairs@[i as int].0@, pairs@[i as int].1@));
                        assert(pairs_stop_parts(s0, ps, acts, states, cuts, ids@, i as int, kk));
                    }
                    halted = true;
                },
            }
        }
        let ghost mid = *self;
        let ghost acts_now = actions@;
        match &mut self.tournament {
            Some(t) => {
                t.record_matches(&ids);
            },
            None => {},
        }
        if halted {
            return true;
        }
        proof {
            assert(ps.take(pairs@.len() as int) =~= ps);
            assert(pairs_chain(states, ps, acts_now.subrange(start.len() as int, acts_now.len() as int), cuts, ids@));
            assert(pairs_started(s0, mid, ps, acts_now.subrange(start.len() as int, acts_now.len() as int), ids@));
            assert(*self == (Server { tournament: self.tournament, ..mid }));
            assert(recorded_ids(s0.tournament->0, self.tournament->0, ids@));
            assert(actions@ == acts_now);
            let ev = TournamentEvent::Pairings(*pairs);
            assert(ev matches TournamentEvent::Pairings(p) && pair_views(p@) == ps);
            assert(event_done(s0, *self, ev, acts_now.subrange(start.len() as int, acts_now.len() as int)));
        }
        false
    }

    /// Whether every player of the standings is a known client.
    fn all_clients(&self, s: &Vec<(String, u32)>) -> (r: bool)
        requires
            unique_names(self.clients@),
        ensures
            r == forall|k: int| 0 <= k < s@.len() ==> has_client(self.clients@, #[trigger] s@[k].0@),
    {
        let mut i: usize = 0;
        while i < s.len()
            invariant
                i <= s@.len(),
                unique_names(self.clients@),
                forall|k: int| 0 <= k < i ==> has_client(self.clients@, #[trigger] s@[k].0@),
            decreases s@.len() - i,
        {
            if self.find_client(&s[i].0).is_none() {
                return false;
            }
            i = i + 1;
        }
        true
    }

    /// Carries out one tournament event. Returns whether the handler stopped:
    /// standings naming an unknown player, a pairing that could not start, or a bracket to publish when
    /// no bracket has started.
    fn run_event(&mut self, ev: &TournamentEvent, actions: &mut Vec<Action>) -> (halted: bool)
        requires
            old(self).wf(),
            old(self).tournament is Some,
        ensures
            final(self).wf(),
            final(self).tournament is Some,
            final(actions)@.len() >= old(actions)@.len(),
            final(actions)@.subrange(0, old(actions)@.len() as int) == old(actions)@,
            halted ==> final(actions)@.last() is Halt,
            halted ==> event_stopped(
                *old(self),
                *ev,
                final(actions)@.subrange(old(actions)@.len() as int, final(actions)@.len() as int),
            ),
            !halted ==> event_done(
                *old(self),
                *final(self),
                *ev,
                final(actions)@.subrange(old(actions)@.len() as int, final(actions)@.len() as int),
            ),
    {
        let ghost start = actions@;
        match ev {
            TournamentEvent::Scores(s) => {
                if !self.all_clients(s) {
                    actions.push(Action::Halt);
                    assert(actions@.subrange(0, start.len() as int) =~= start);
                    assert(actions@.subrange(start.len() as int, actions@.len() as int) =~= seq![Action::Halt]);
                    return true;
                }
                actions.push(Action::Broadcast { text: Self::scores_message(s) });
                assert(actions@.subrange(0, start.len() as int) =~= start);
                assert(actions@.subrange(start.len() as int, actions@.len() as int) =~= seq![actions@.last()]);
                false
            },
            TournamentEvent::Pairings(p) => self.start_pairs(p, actions),
            TournamentEvent::SetWaitingTimeout(v) => {
                self.waiting_timeout = *v;
                assert(actions@.subrange(0, start.len() as int) =~= start);
                assert(actions@.subrange(start.len() as int, actions@.len() as int) =~= Seq::<Action>::empty());
                false
            },
            TournamentEvent::BracketData => {
                let bracket = match &self.tournament {
                    Some(t) => t.get_data(),
                    None => None,
                };
                match bracket {
                    Some(b) => {
                        actions.push(Action::Broadcast { text: bracket_published_message(&b) });
                        assert(actions@.subrange(0, start.len() as int) =~= start);
                        assert(actions@.subrange(start.len() as int, actions@.len() as int) =~= seq![
                            actions@.last(),
                        ]);
                        false
                    },
                    None => {
                        actions.push(Action::Halt);
                        assert(actions@.subrange(0, start.len() as int) =~= start);
                        assert(actions@.subrange(start.len() as int, actions@.len() as int) =~= seq![Action::Halt]);
                        true
                    },
                }
            },
        }
    }

    /// Carries out the events in order; returns whether the handler stopped.
    pub(crate) fn run_events(&mut self, evs: &Vec<TournamentEvent>, actions: &mut Vec<Action>) -> (halted: bool)
        requires
            old(self).wf(),
            old(self).tournament is Some,
        ensures
            final(self).wf(),
            final(self).tournament is Some,
            final(actions)@.len() >= old(actions)@.len(),
            final(actions)@.subrange(0, old(actions)@.len() as int) == old(actions)@,
            halted ==> final(actions)@.last() is Halt,
            halted ==> events_stopped(
                *old(self),
                evs@,
                final(actions)@.subrange(old(actions)@.len() as int, final(actions)@.len() as int),
            ),
            !halted ==> events_done(
                *old(self),
                *final(self),
                evs@,
                final(actions)@.subrange(old(actions)@.len() as int, final(actions)@.len() as int),
            ),
    {
        let ghost s0 = *self;
        let ghost start = actions@;
        let mut i: usize = 0;
        let ghost mut states: Seq<Server> = seq![s0];
        let ghost mut cuts: Seq<int> = seq![0int];
        assert(actions@.subrange(start.len() as int, actions@.len() as int) =~= Seq::<Action>::empty());
        assert(actions@.subrange(0, start.len() as int) =~= start);
        assert(evs@.take(0) =~= Seq::<TournamentEvent>::empty());
        assert(events_chain(states, evs@.take(0), actions@.subrange(start.len() as int, actions@.len() as int), cuts)) by {
            reveal(events_chain);
        }
        while i < evs.len()
            invariant
                i <= evs@.len(),
                self.wf(),
                self.tournament is Some,
                actions@.len() >= start.len(),
                actions@.subrange(0, start.len() as int) == start,
                events_chain(
                    states,
                    evs@.take(i as int),
                    actions@.subrange(start.len() as int, actions@.len() as int),
                    cuts,
                ),
                states.len() >= 1,
                states[0] == s0,
                states.last() == *self,
                start == old(actions)@,
                s0 == *old(self),
            decreases evs@.len() - i,
        {
            let ghost before = *self;
            let ghost before_acts = actions@;
            let halted = self.run_event(&evs[i], actions);
            assert(actions@.subrange(0, start.len() as int) =~= start) by {
                assert(actions@.subrange(0, before_acts.len() as int) == before_acts);
            }
            if halted {
                proof {
                    let acts = actions@.subrange(start.len() as int, actions@.len() as int);
                    let kk = before_acts.len() - start.len();
                    assert(acts.take(kk) =~= before_acts.subrange(start.len() as int, before_acts.len() as int));
                    assert(acts.skip(kk) =~= actions@.subrange(before_acts.len() as int, actions@.len() as int));
                    assert(events_stop_parts(s0, evs@, acts, states, cuts, i as int, kk));
                }
                return true;
            }
            proof {
                let old_acts = before_acts.subrange(start.len() as int, before_acts.len() as int);
                let more = actions@.subrange(before_acts.len() as int, actions@.len() as int);
                lemma_events_chain_push(states, evs@.take(i as int), old_acts, cuts, *self, evs@[i as int], more);
                assert(evs@.take(i + 1) =~= evs@.take(i as int).push(evs@[i as int]));
                assert(actions@.subrange(start.len() as int, actions@.len() as int) =~= old_acts + more);
                states = states.push(*self);
                cuts = cuts.push((old_acts.len() + more.len()) as int);
            }
            i = i + 1;
        }
        proof {
            assert(evs@.take(evs@.len() as int) =~= evs@);
        }
        false
    }

    /// Tells each of the named players that is a known client that the
    /// tournament ended.
    pub(crate) fn notify_end(&self, names: &Vec<String>, actions: &mut Vec<Action>)
        requires
            unique_names(self.clients@),
        ensures
            final(actions)@.len() >= old(actions)@.len(),
            final(actions)@.subrange(0, old(actions)@.len() as int) == old(actions)@,
            end_notices(
                final(actions)@.subrange(old(actions)@.len() as int, final(actions)@.len() as int),
                self.clients@,
                views(names@),
            ),
    {
        let ghost start = actions@;
        let ghost cs = self.clients@;
        let ghost ns = views(names@);
        let mut i: usize = 0;
        proof {
            crate::text::lemma_views(names@);
        }
        assert(ns.take(0) =~= Seq::<Seq<char>>::empty());
        assert(actions@.subrange(start.len() as int, actions@.len() as int) =~= Seq::<Action>::empty());
        while i < names.len()
            invariant
                i <= names@.len(),
                cs == self.clients@,
                unique_names(cs),
                ns == views(names@),
                ns.len() == names@.len(),
                forall|k: int| 0 <= k < names@.len() ==> #[trigger] ns[k] == names@[k]@,
                start == old(actions)@,
                actions@.len() >= start.len(),
                actions@.subrange(0, start.len() as int) == start,
                end_notices(actions@.subrange(start.len() as int, actions@.len() as int), cs, ns.take(i as int)),
            decreases names@.len() - i,
        {
            let ghost before = actions@.subrange(start.len() as int, actions@.len() as int);
            assert(ns.take(i + 1).drop_last() =~= ns.take(i as int));
            assert(ns.take(i + 1).last() == names@[i as int]@);
            match self.find_client(&names[i]) {
                Some(c) => {
                    actions.push(Action::Send { to: self.clients[c].addr, text: String::from_str("TOURNAMENT:END") });
                    proof {
                        let after = actions@.subrange(start.len() as int, actions@.len() as int);
                        assert(after =~= before.push(actions@.last()));
                        let p = present(cs, ns.take(i + 1));
                        assert(p == present(cs, ns.take(i as int)).push(names@[i as int]@));
                        assert forall|j: int| 0 <= j < p.len() implies sends(
                            #[trigger] after[j],
                            cs[client_index(cs, p[j])].addr,
                            "TOURNAMENT:END"@,
                        ) by {
                            if j < p.len() - 1 {
                                assert(after[j] == before[j]);
                                assert(p[j] == present(cs, ns.take(i as int))[j]);
                            }
                        }
                    }
                },
                None => {
                    assert(present(cs, ns.take(i + 1)) == present(cs, ns.take(i as int)));
                },
            }
            assert(actions@.subrange(0, start.len() as int) =~= start);
            i = i + 1;
        }
        assert(ns.take(names@.len() as int) =~= ns);
    }

    /// Once no match of the round is left: the tournament moves on, the
    /// server carries out its events, and a finished tournament is wound up.
    /// Returns whether the handler stopped (an event that could not be
    /// carried out, or a finished round robin in which nobody scored and so
    /// has no winner to name).
    pub fn advance_tournament(&mut self, actions: &mut Vec<Action>) -> (halted: bool)
        requires
            old(self).wf(),
            old(self).tournament is Some,
        ensures
            final(self).wf(),
            final(actions)@.len() >= old(actions)@.len(),
            final(actions)@.subrange(0, old(actions)@.len() as int) == old(actions)@,
            halted ==> final(actions)@.last() is Halt,
            halted ==> advance_stopped(
                *old(self),
                final(actions)@.subrange(old(actions)@.len() as int, final(actions)@.len() as int),
            ),
            !halted ==> advanced(
                *old(self),
                *final(self),
                final(actions)@.subrange(old(actions)@.len() as int, final(actions)@.len() as int),
            ),
    {
        let ghost s0 = *self;
        let ghost start = actions@;
        let evs = match &mut self.tournament {
            Some(t) => t.next(),
            None => Vec::new(),
        };
        let ghost t1 = self.tournament->0;
        assert(*self == (Server { tournament: Some(t1), ..s0 }));
        if self.run_events(&evs, actions) {
            proof {
                let acts = actions@.subrange(start.len() as int, actions@.len() as int);
                assert(advance_stop_parts(s0, acts, t1, evs@, *self, 0));
            }
            return true;
        }
        let ghost mid = *self;
        let ghost k = actions@.len() - start.len();
        let ghost acts_k = actions@.subrange(start.len() as int, actions@.len() as int);
        let (done, players, winner) = match &self.tournament {
            Some(t) => (t.is_completed(), t.get_players(), t.get_winner()),
            None => (false, Vec::new(), None),
        };
        if !done {
            proof {
                assert(acts_k.take(k) =~= acts_k);
                assert(acts_k.skip(k) =~= Seq::<Action>::empty());
                assert(advance_parts(s0, *self, acts_k, t1, evs@, mid, k));
            }
            return false;
        }
        let ghost before_notices = actions@;
        self.notify_end(&players, actions);
        let ghost after_notices = actions@;
        let w = match winner {
            Some(w) => w,
            None => {
                actions.push(Action::Halt);
                assert(actions@.subrange(0, start.len() as int) =~= start) by {
                    assert(after_notices.subrange(0, before_notices.len() as int) == before_notices);
                    assert(before_notices.subrange(0, start.len() as int) == start);
                }
                proof {
                    let acts = actions@.subrange(start.len() as int, actions@.len() as int);
                    let t = mid.tournament->0;
                    let n = present(mid.clients@, t.entrants()).len() as int;
                    let notices = after_notices.subrange(before_notices.len() as int, after_notices.len() as int);
                    assert(before_notices.subrange(0, start.len() as int) == start);
                    assert(after_notices.subrange(0, before_notices.len() as int) == before_notices);
                    assert(acts.take(k) =~= acts_k);
                    assert(acts.subrange(k, k + n) =~= notices);
                    assert(advance_stop_parts(s0, acts, t1, evs@, mid, k));
                }
                return true;
            },
        };
        self.tournament = None;
        actions.push(Action::Broadcast { text: String::from_str("TOURNAMENT:END") });
        actions.push(Action::Broadcast { text: tournament_winner_message(&w) });
        proof {
            let all = actions@.subrange(start.len() as int, actions@.len() as int);
            let t = mid.tournament->0;
            let n = present(mid.clients@, t.entrants()).len() as int;
            let notices = after_notices.subrange(before_notices.len() as int, after_notices.len() as int);
            assert(before_notices.subrange(0, start.len() as int) == start);
            assert(after_notices.subrange(0, before_notices.len() as int) == before_notices);
            assert(actions@.subrange(0, start.len() as int) =~= start);
            assert(all.take(k) =~= acts_k);
            assert(all.skip(k).take(n) =~= notices);
            let rest = all.skip(k);
            assert(rest[n] == actions@[actions@.len() - 2]);
            assert(rest[n + 1] == actions@.last());
            assert(won_by(t, w@));
            assert(broadcasts(rest[n + 1], tournament_winner_text(w@)));
            assert(wound_up(mid, *self, rest));
            assert(advance_parts(s0, *self, all, t1, evs@, mid, k));
        }
        false
    }
}

} // verus!
