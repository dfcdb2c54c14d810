//! Starting matches between players.
use vstd::prelude::*;
use crate::protocol::{game_start_message, game_start_text, game_started_message, game_started_text, ready_message,
    ready_text};
use crate::server::{
    broadcasts, client_at, client_index, has_client, lemma_client_index, sends, unique_ids, unique_names, Action,
    Server,
};
use crate::types::{board_view, empty_board, Client, Color, Match};
use crate::{id_in_use, try_gen_match_id, MAX_MATCH_ID, MIN_MATCH_ID};

verus! {

/// A player who joined a match: not ready any more, in the match, with its colour.
pub open spec fn joined(c: Client, id: u32, color: Color) -> Client {
    Client { ready: false, current_match: Some(id), color, ..c }
}

/// The clients after the named one (if any) joins a match.
pub open spec fn join(cs: Seq<Client>, name: Seq<char>, id: u32, color: Color) -> Seq<Client> {
    if has_client(cs, name) {
        cs.update(client_index(cs, name), joined(cs[client_index(cs, name)], id, color))
    } else {
        cs
    }
}

/// The colour a player has in a match: red for the one who moves first.
pub open spec fn color_in(m: Match, name: Seq<char>) -> Color {
    if m.player1@ == name {
        Color::Red
    } else {
        Color::Yellow
    }
}

/// A new match has just been added: with a fresh six-digit id, between the
/// two players (in either order, or in the given order if `ordered`), not
/// started.
pub open spec fn new_match_added(
    old: Seq<Match>,
    new: Seq<Match>,
    a: Seq<char>,
    b: Seq<char>,
    demo: bool,
    ordered: bool,
) -> bool {
    let m = new.last();
    &&& new.len() == old.len() + 1
    &&& new.drop_last() == old
    &&& MIN_MATCH_ID <= m.id <= MAX_MATCH_ID
    &&& !id_in_use(old, m.id)
    &&& (m.player1@ == a && m.player2@ == b) || (!ordered && m.player1@ == b && m.player2@ == a)
    &&& m.demo_mode == demo
    &&& m.ledger@.len() == 0
    &&& empty_board(board_view(&m.board))
    &&& m.wf()
}

/// A tournament match between `a` and `b` started (as `m`, now the last
/// match): each player in turn leaves the ready players (observers are told)
/// and is told its colour, then observers are told the match started.
pub open spec fn pair_started(old: Server, new: Server, a: Seq<char>, b: Seq<char>, acts: Seq<Action>) -> bool {
    let m = new.matches@.last();
    let cs1 = join(old.clients@, a, m.id, color_in(m, a));
    &&& new_match_added(old.matches@, new.matches@, a, b, false, false)
    &&& has_client(old.clients@, a)
    &&& has_client(cs1, b)
    &&& new.clients@ == join(cs1, b, m.id, color_in(m, b))
    &&& new == (Server { clients: new.clients, matches: new.matches, ..old })
    &&& acts.len() == 5
    &&& broadcasts(acts[0], ready_text(a, false))
    &&& sends(acts[1], old.clients@[client_index(old.clients@, a)].addr, game_start_text(m.player1@ == a))
    &&& broadcasts(acts[2], ready_text(b, false))
    &&& sends(acts[3], cs1[client_index(cs1, b)].addr, game_start_text(m.player1@ == b))
    &&& broadcasts(acts[4], game_started_text(m.id, m.player1@, m.player2@))
}

/// Joining keeps every client, name and connection in place.
pub proof fn lemma_join_keeps(cs: Seq<Client>, name: Seq<char>, id: u32, color: Color)
    ensures
        join(cs, name, id, color).len() == cs.len(),
        forall|i: int| 0 <= i < cs.len() ==> (#[trigger] join(cs, name, id, color)[i]).username == cs[i].username
            && join(cs, name, id, color)[i].addr == cs[i].addr,
{
}

/// How starting a tournament match went.
pub enum PairStart {
    /// The match started with this id.
    Started(u32),
    /// The id was drawn but a player is unknown: the handler stops, the id
    /// having been recorded.
    Stopped(u32),
    /// No id is free: the handler stops, as no draw could ever succeed.
    Exhausted,
}

impl Server {
    /// Adds a new match between the two players, not started, with a fresh
    /// id; `None` when every id is taken.
    pub fn add_match(&mut self, a: &String, b: &String, demo: bool, ordered: bool) -> (r: Option<u32>)
        requires
            old(self).wf(),
            demo ==> a@ == "demo"@ || b@ == "demo"@,
        ensures
            final(self).wf(),
            r is None ==> *final(self) == *old(self) && !crate::free_id_exists(old(self).matches@),
            r matches Some(id) ==> {
                &&& new_match_added(old(self).matches@, final(self).matches@, a@, b@, demo, ordered)
                &&& final(self).matches@.last().id == id
                &&& *final(self) == (Server { matches: final(self).matches, ..*old(self) })
            },
    {
        let id = match try_gen_match_id(&self.matches) {
            Some(id) => id,
            None => {
                return None;
            },
        };
        let m = if ordered {
            Match::new_with_order(id, a.clone(), b.clone(), demo)
        } else {
            Match::new(id, a.clone(), b.clone(), demo)
        };
        let ghost before = self.matches@;
        let ghost mm = m;
        self.matches.push(m);
        proof {
            assert(self.matches@.drop_last() =~= before);
            assert(self.matches@ == before.push(mm));
            assert forall|k: int| 0 <= k < before.len() implies before[k].id != mm.id by {}
            crate::server::lemma_seated_add(self.clients@, before, mm);
            assert forall|x: int, y: int|
                0 <= x < self.matches@.len() && 0 <= y < self.matches@.len() && x != y implies self.matches@[x].id
                != self.matches@[y].id by {
                if x < before.len() && y < before.len() {
                    assert(before[x].id != before[y].id);
                } else if x < before.len() {
                    assert(before[x].id != id);
                } else {
                    assert(before[y].id != id);
                }
            }
            assert forall|k: int| 0 <= k < self.matches@.len() implies (#[trigger] self.matches@[k]).wf() && self.matches@[k].ledger_ok() && self.matches@[k].demo_ok() by {
                if k < before.len() {
                    assert(self.matches@[k] == before[k]);
                }
            }
        }
        Some(id)
    }

    /// The client at `i` joins match `id` with the given colour.
    pub fn join_client(&mut self, i: usize, id: u32, color: Color)
        requires
            i < old(self).clients@.len(),
            unique_names(old(self).clients@),
        ensures
            unique_names(final(self).clients@),
            final(self).clients@ == old(self).clients@.update(i as int, joined(old(self).clients@[i as int], id, color)),
            *final(self) == (Server { clients: final(self).clients, ..*old(self) }),
    {
        let c = Client {
            username: self.clients[i].username.clone(),
            ready: false,
            color,
            current_match: Some(id),
            addr: self.clients[i].addr,
        };
        self.clients.set(i, c);
        assert(self.clients@ =~= old(self).clients@.update(i as int, joined(old(self).clients@[i as int], id, color)));
        assert forall|x: int, y: int|
            0 <= x < self.clients@.len() && 0 <= y < self.clients@.len() && x != y implies self.clients@[x].username@
            != self.clients@[y].username@ by {
            assert(old(self).clients@[x].username@ != old(self).clients@[y].username@);
        }
    }

    /// Starts a tournament match between `a` and `b`: a fresh match, each
    /// player told its colour, observers told.
    pub fn start_tournament_pair(&mut self, a: &String, b: &String, actions: &mut Vec<Action>) -> (r: PairStart)
        requires
            old(self).wf(),
        ensures
            final(self).wf(),
            final(actions)@.len() >= old(actions)@.len(),
            final(actions)@.subrange(0, old(actions)@.len() as int) == old(actions)@,
            r matches PairStart::Started(id) ==> {
                &&& pair_started(
                    *old(self),
                    *final(self),
                    a@,
                    b@,
                    final(actions)@.subrange(old(actions)@.len() as int, final(actions)@.len() as int),
                )
                &&& final(self).matches@.last().id == id
            },
            !(r is Started) ==> final(actions)@.len() > old(actions)@.len() && final(actions)@.last() is Halt,
            r is Exhausted ==> *final(self) == *old(self) && !crate::free_id_exists(old(self).matches@),
            r is Stopped ==> !has_client(old(self).clients@, a@) || !has_client(old(self).clients@, b@),
            final(self).tournament == old(self).tournament,
    {
        let ghost start = actions@;
        let ghost s0 = *self;
        let id = match try_gen_match_id(&self.matches) {
            Some(id) => id,
            None => {
                actions.push(Action::Halt);
                assert(actions@.subrange(0, start.len() as int) =~= start);
                return PairStart::Exhausted;
            },
        };
        let m = Match::new(id, a.clone(), b.clone(), false);
        let first_is_a = m.player1 == *a;
        let first_is_b = m.player1 == *b;
        let color_a = if first_is_a { Color::Red } else { Color::Yellow };
        let color_b = if first_is_b { Color::Red } else { Color::Yellow };
        let ia = match self.find_client(a) {
            Some(i) => i,
            None => {
                actions.push(Action::Halt);
                assert(actions@.subrange(0, start.len() as int) =~= start);
                return PairStart::Stopped(id);
            },
        };
        let ib = match self.find_client(b) {
            Some(i) => i,
            None => {
                actions.push(Action::Halt);
                assert(actions@.subrange(0, start.len() as int) =~= start);
                return PairStart::Stopped(id);
            },
        };
        let addr_a = self.clients[ia].addr;
        self.join_client(ia, id, color_a);
        actions.push(Action::Broadcast { text: ready_message(a, false) });
        actions.push(Action::Send { to: addr_a, text: game_start_message(first_is_a) });
        let ghost s1 = *self;
        proof {
            lemma_join_keeps(s0.clients@, a@, id, color_a);
            lemma_client_index(s0.clients@, b@, ib as int);
            assert(self.clients@[ib as int].username == s0.clients@[ib as int].username);
            assert(client_at(self.clients@, b@, ib as int));
        }
        let addr_b = self.clients[ib].addr;
        self.join_client(ib, id, color_b);
        actions.push(Action::Broadcast { text: ready_message(b, false) });
        actions.push(Action::Send { to: addr_b, text: game_start_message(first_is_b) });
        let p1 = m.player1.clone();
        let p2 = m.player2.clone();
        let ghost mm = m;
        let ghost before = self.matches@;
        self.matches.push(m);
        actions.push(Action::Broadcast { text: game_started_message(id, &p1, &p2) });
        proof {
            assert(self.matches@.drop_last() =~= before);
            assert(self.matches@.last() == mm);
            assert forall|x: int, y: int|
                0 <= x < self.matches@.len() && 0 <= y < self.matches@.len() && x != y implies self.matches@[x].id
                != self.matches@[y].id by {
                if x < before.len() && y < before.len() {
                    assert(before[x].id != before[y].id);
                } else if x < before.len() {
                    assert(before[x].id != id);
                } else {
                    assert(before[y].id != id);
                }
            }
            assert forall|k: int| 0 <= k < self.matches@.len() implies (#[trigger] self.matches@[k]).wf() && self.matches@[k].ledger_ok() && self.matches@[k].demo_ok() by {
                if k < before.len() {
                    assert(self.matches@[k] == before[k]);
                }
            }
            lemma_client_index(s0.clients@, a@, ia as int);
            lemma_client_index(s1.clients@, b@, ib as int);
            assert(before == s0.matches@);
            assert forall|k: int| 0 <= k < before.len() implies before[k].id != mm.id by {}
            crate::server::lemma_seated_add(s0.clients@, before, mm);
            let ms1 = before.push(mm);
            assert(ms1 == self.matches@);
            let li = before.len() as int;
            assert(ms1[li] == mm);
            crate::server::lemma_seated_join(s0.clients@, ms1, ia as int, li, color_a);
            assert(s1.clients@ == s0.clients@.update(ia as int, joined(s0.clients@[ia as int], ms1[li].id, color_a)));
            crate::server::lemma_seated_join(s1.clients@, ms1, ib as int, li, color_b);
            assert(color_in(mm, a@) == color_a);
            assert(color_in(mm, b@) == color_b);
            assert(actions@.subrange(0, start.len() as int) =~= start);
            let acts = actions@.subrange(start.len() as int, actions@.len() as int);
            assert(acts.len() == 5);
            assert(acts[0] == actions@[start.len() as int]);
        }
        PairStart::Started(id)
    }
}

} // verus!
