//! Players getting ready, reservations, and the matches they start.
use vstd::prelude::*;
use crate::lists::{pairs_view, remove_pair, without_pair};
use crate::protocol::{game_start_message, game_start_text, game_started_message, game_started_text, ready_message,
    ready_text, reservation_added_message, reservation_added_text};
use crate::server::matchmaking::{color_in, join, new_match_added};
use crate::server::outcomes::addr_of;
use crate::protocol::{move_message, move_text, opponent_message, opponent_text};
use crate::server::{
    broadcasts, client_at, client_index, has_client, lemma_client_index, name_of, sends, unique_names, Action, Server,
    Step,
};
use crate::types::{board_view, column_full, drop_token, empty_board, Client, Color, Match};
use crate::{free_id_exists, id_in_use, MAX_MATCH_ID, MIN_MATCH_ID};

verus! {

/// The reservation at `i` is the first to name the player.
pub open spec fn first_reservation_of(rs: Seq<(Seq<char>, Seq<char>)>, name: Seq<char>, i: int) -> bool {
    &&& 0 <= i < rs.len()
    &&& (rs[i].0 == name || rs[i].1 == name)
    &&& forall|j: int| 0 <= j < i ==> rs[j].0 != name && rs[j].1 != name
}

/// Some connection plays under the name.
pub open spec fn connected(us: Seq<(u64, String)>, name: Seq<char>) -> bool {
    exists|k: int| 0 <= k < us.len() && us[k].1@ == name
}

/// The reserved opponent of a player: the other player of the first
/// reservation that names it, provided a connection plays under that name.
pub open spec fn reservation_opponent(rs: Seq<(Seq<char>, Seq<char>)>, us: Seq<(u64, String)>, name: Seq<char>) -> Option<
    Seq<char>,
> {
    if exists|i: int| first_reservation_of(rs, name, i) {
        let i = choose|i: int| first_reservation_of(rs, name, i);
        let opp = if rs[i].0 == name {
            rs[i].1
        } else {
            rs[i].0
        };
        if connected(us, opp) {
            Some(opp)
        } else {
            None
        }
    } else {
        None
    }
}

/// A reservation pairs its two players either way round: when `(a, b)` is
/// the first reservation naming `a` and `b` is connected, `a`'s reserved
/// opponent is `b`.
pub proof fn law_first_player_of_a_reservation_meets_the_second(
    rs: Seq<(Seq<char>, Seq<char>)>,
    us: Seq<(u64, String)>,
    a: Seq<char>,
    b: Seq<char>,
    i: int,
)
    requires
        0 <= i < rs.len(),
        rs[i] == (a, b),
        forall|j: int| 0 <= j < i ==> rs[j].0 != a && rs[j].1 != a,
        connected(us, b),
    ensures
        reservation_opponent(rs, us, a) == Some(b),
{
    assert(first_reservation_of(rs, a, i));
    let k = choose|k: int| first_reservation_of(rs, a, k);
    assert(first_reservation_of(rs, a, k));
    if k < i {
        assert(rs[k].0 != a && rs[k].1 != a);
    } else if k > i {
        assert(rs[i].0 != a);
    }
    assert(k == i);
}

/// ... and when `(a, b)` is the first reservation naming `b` and `a` is
/// connected, `b`'s reserved opponent is `a`.
pub proof fn law_second_player_of_a_reservation_meets_the_first(
    rs: Seq<(Seq<char>, Seq<char>)>,
    us: Seq<(u64, String)>,
    a: Seq<char>,
    b: Seq<char>,
    i: int,
)
    requires
        0 <= i < rs.len(),
        rs[i] == (a, b),
        forall|j: int| 0 <= j < i ==> rs[j].0 != b && rs[j].1 != b,
        connected(us, a),
    ensures
        reservation_opponent(rs, us, b) == Some(a),
{
    assert(first_reservation_of(rs, b, i));
    let k = choose|k: int| first_reservation_of(rs, b, k);
    assert(first_reservation_of(rs, b, k));
    if k < i {
        assert(rs[k].0 != b && rs[k].1 != b);
    } else if k > i {
        assert(rs[i].1 != b);
    }
    assert(k == i);
}

/// A match between the reserved players `a` and `b` started as the last
/// match: observers are told it started, `a` (through `to`) and `b` are told
/// their colour, both join it, the reservation `(a, b)` is dropped and
/// observers are told both left the ready players.
pub open spec fn reserved_match_started(old: Server, new: Server, a: Seq<char>, b: Seq<char>, to: u64, acts: Seq<Action>) -> bool {
    let m = new.matches@.last();
    &&& new_match_added(old.matches@, new.matches@, a, b, false, false)
    &&& new.clients@ == join(join(old.clients@, a, m.id, color_in(m, a)), b, m.id, color_in(m, b))
    &&& pairs_view(new.reservations@) == without_pair(pairs_view(old.reservations@), a, b)
    &&& new == (Server { clients: new.clients, matches: new.matches, reservations: new.reservations, ..old })
    &&& acts.len() == 5
    &&& broadcasts(acts[0], game_started_text(m.id, m.player1@, m.player2@))
    &&& sends(acts[1], to, game_start_text(m.player1@ == a))
    &&& sends(acts[2], addr_of(old.clients@, b), game_start_text(m.player1@ != a))
    &&& broadcasts(acts[3], ready_text(a, false))
    &&& broadcasts(acts[4], ready_text(b, false))
}

/// What adding a reservation did once acknowledged (`s1` is the state with
/// the reservation added): if both players are known and ready a match
/// starts between them at once; the same player twice stops the handler, as
/// a player cannot be matched with itself.
pub open spec fn reservation_parts(
    old: Server,
    new: Server,
    p1: Seq<char>,
    p2: Seq<char>,
    to: u64,
    acts: Seq<Action>,
    s1: Server,
) -> bool {
    let cs = old.clients@;
    &&& s1 == (Server { reservations: s1.reservations, ..old })
    &&& pairs_view(s1.reservations@) == pairs_view(old.reservations@).push((p1, p2))
    &&& acts.len() >= 1
    &&& sends(acts[0], to, reservation_added_text(p1, p2))
    &&& if !has_client(cs, p1) || !has_client(cs, p2) {
        new == s1 && acts.len() == 1
    } else if p1 == p2 {
        acts.len() == 2 && acts[1] is Halt
    } else if !cs[client_index(cs, p1)].ready || !cs[client_index(cs, p2)].ready {
        new == s1 && acts.len() == 1
    } else if !free_id_exists(old.matches@) {
        acts.len() == 2 && acts[1] is Halt
    } else {
        reserved_match_started(s1, new, p1, p2, to, acts.skip(1))
    }
}

/// The client list with the named client ready.
pub open spec fn made_ready(cs: Seq<Client>, name: Seq<char>) -> Seq<Client> {
    cs.update(client_index(cs, name), Client { ready: true, ..cs[client_index(cs, name)] })
}

/// The board after the opening red token in column `c` of an empty board.
pub open spec fn opening_board(b: Seq<Seq<Color>>, c: int) -> bool {
    exists|b0: Seq<Seq<Color>>| #[trigger] empty_board(b0) && b == drop_token(b0, Color::Red, c)
}

/// The server's opening move `c` in demo match `id` is delivered: after
/// `wait` milliseconds the player (at `to`) gets `OPPONENT:<c>` and
/// observers get the move.
pub open spec fn delivers_opening(a: Action, id: u32, to: u64, wait: u64, c: int) -> bool {
    &&& a matches Action::Deliver { match_id, steps } && match_id == id && steps@.len() == 3
    &&& a->steps@[0] == Step::Sleep(wait)
    &&& a->steps@[1] matches Step::ToConnection { to: t, text } && t == to && text@ == opponent_text(c as nat)
    &&& a->steps@[2] matches Step::ToObservers { text } && text@ == move_text(id, "demo"@, c as nat)
}

/// A demo match against the server started as the last match: observers
/// are told, the player (at `to`) is told its colour and joins it; when the
/// server moves first it plays at once (the move is delivered after the
/// move delay); observers are told the player left the ready players.
pub open spec fn demo_started(old: Server, new: Server, name: Seq<char>, to: u64, now: u64, acts: Seq<Action>) -> bool {
    let m = new.matches@.last();
    let first = m.player1@ == name;
    &&& new.matches@.len() == old.matches@.len() + 1
    &&& new.matches@.drop_last() == old.matches@
    &&& MIN_MATCH_ID <= m.id <= MAX_MATCH_ID
    &&& !id_in_use(old.matches@, m.id)
    &&& (m.player1@ == name && m.player2@ == "demo"@) || (m.player1@ == "demo"@ && m.player2@ == name)
    &&& m.demo_mode
    &&& m.wf()
    &&& new.clients@ == join(old.clients@, name, m.id, color_in(m, name))
    &&& new == (Server { clients: new.clients, matches: new.matches, ..old })
    &&& acts.len() >= 3
    &&& broadcasts(acts[0], game_started_text(m.id, m.player1@, m.player2@))
    &&& sends(acts[1], to, game_start_text(first))
    &&& if first {
        &&& m.ledger@.len() == 0
        &&& empty_board(board_view(&m.board))
        &&& acts.len() == 3
        &&& broadcasts(acts[2], ready_text(name, false))
    } else {
        &&& acts.len() == 4
        &&& exists|c: int|
            0 <= c < 7 && m.ledger@ == seq![(Color::Red, c as usize, now)] && opening_board(board_view(&m.board), c)
                && #[trigger] delivers_opening(acts[2], m.id, to, old.waiting_timeout, c)
        &&& broadcasts(acts[3], ready_text(name, false))
    }
}

/// What getting ready did for a player who was not ready (`s1`: the player
/// marked ready): acknowledged and announced; then a match starts with the
/// reserved opponent if that one is ready, or else in demo mode a match
/// against the server. A reserved opponent that is not a known client, or
/// is the player itself, stops the handler; so does running out
/// of ids.
pub open spec fn ready_parts(old: Server, new: Server, addr: u64, now: u64, acts: Seq<Action>, s1: Server) -> bool {
    let name = name_of(old.usernames@, addr)->0;
    let cs = old.clients@;
    let opp = reservation_opponent(pairs_view(old.reservations@), old.usernames@, name);
    &&& s1 == (Server { clients: s1.clients, ..old })
    &&& s1.clients@ == made_ready(cs, name)
    &&& acts.len() >= 2
    &&& sends(acts[0], addr, "READY:ACK"@)
    &&& broadcasts(acts[1], ready_text(name, true))
    &&& if opp is Some && (!has_client(cs, opp->0) || opp->0 == name) {
        acts.len() == 3 && acts[2] is Halt
    } else if opp is Some && cs[client_index(cs, opp->0)].ready {
        if !free_id_exists(old.matches@) {
            acts.len() == 3 && acts[2] is Halt
        } else {
            reserved_match_started(s1, new, name, opp->0, addr, acts.skip(2))
        }
    } else if !old.demo_mode {
        new == s1 && acts.len() == 2
    } else if !free_id_exists(old.matches@) {
        acts.len() == 3 && acts[2] is Halt
    } else {
        demo_started(s1, new, name, addr, now, acts.skip(2))
    }
}

impl Server {
    /// Whether some connection plays under the name.
    pub fn is_connected(&self, name: &String) -> (r: bool)
        ensures
            r == connected(self.usernames@, name@),
    {
        let mut k: usize = 0;
        while k < self.usernames.len()
            invariant
                k <= self.usernames@.len(),
                forall|j: int| 0 <= j < k ==> self.usernames@[j].1@ != name@,
            decreases self.usernames@.len() - k,
        {
            if self.usernames[k].1 == *name {
                return true;
            }
            k = k + 1;
        }
        false
    }

    /// The reserved opponent of a player, if any.
    pub fn find_reservation_opponent(&self, username: &String) -> (r: Option<String>)
        ensures
            match r {
                Some(o) => reservation_opponent(pairs_view(self.reservations@), self.usernames@, username@) == Some(o@),
                None => reservation_opponent(pairs_view(self.reservations@), self.usernames@, username@) is None,
            },
    {
        let ghost rs = pairs_view(self.reservations@);
        let mut i: usize = 0;
        while i < self.reservations.len()
            invariant
                i <= self.reservations@.len(),
                rs == pairs_view(self.reservations@),
                forall|j: int| 0 <= j < i ==> rs[j].0 != username@ && rs[j].1 != username@,
            decreases self.reservations@.len() - i,
        {
            if self.reservations[i].0 == *username || self.reservations[i].1 == *username {
                assert(first_reservation_of(rs, username@, i as int));
                assert forall|k: int| #[trigger] first_reservation_of(rs, username@, k) implies k == i by {
                    if k < i {
                    } else if k > i {
                        assert(rs[i as int].0 == username@ || rs[i as int].1 == username@);
                    }
                }
                let opp = if self.reservations[i].0 == *username {
                    self.reservations[i].1.clone()
                } else {
                    self.reservations[i].0.clone()
                };
                if self.is_connected(&opp) {
                    return Some(opp);
                }
                return None;
            }
            i = i + 1;
        }
        None
    }

    /// Starts a match between the reserved players `a` and `b` (clients at
    /// `ia` and `ib`). Returns whether the handler stopped: no free id.
    fn start_reserved_match(&mut self, ia: usize, ib: usize, a: &String, b: &String, to: u64, actions: &mut Vec<Action>) -> (halted: bool)
        requires
            old(self).wf(),
            client_at(old(self).clients@, a@, ia as int),
            client_at(old(self).clients@, b@, ib as int),
            a@ != b@,
        ensures
            final(self).wf(),
            final(actions)@.len() >= old(actions)@.len(),
            final(actions)@.subrange(0, old(actions)@.len() as int) == old(actions)@,
            halted ==> !free_id_exists(old(self).matches@) && final(actions)@ == old(actions)@.push(Action::Halt),
            !halted ==> reserved_match_started(
                *old(self),
                *final(self),
                a@,
                b@,
                to,
                final(actions)@.subrange(old(actions)@.len() as int, final(actions)@.len() as int),
            ),
    {
        let ghost s0 = *self;
        let ghost start = actions@;
        let id = match self.add_match(a, b, false, false) {
            Some(id) => id,
            None => {
                actions.push(Action::Halt);
                assert(actions@.subrange(0, start.len() as int) =~= start);
                return true;
            },
        };
        let last = self.matches.len() - 1;
        let p1 = self.matches[last].player1.clone();
        let p2 = self.matches[last].player2.clone();
        let a_first = p1 == *a;
        let color_a = if a_first { Color::Red } else { Color::Yellow };
        let color_b = if a_first { Color::Yellow } else { Color::Red };
        let addr_b = self.clients[ib].addr;
        actions.push(Action::Broadcast { text: game_started_message(id, &p1, &p2) });
        actions.push(Action::Send { to, text: game_start_message(a_first) });
        actions.push(Action::Send { to: addr_b, text: game_start_message(!a_first) });
        let ghost s1 = *self;
        self.join_client(ia, id, color_a);
        let ghost s2 = *self;
        self.join_client(ib, id, color_b);
        remove_pair(&mut self.reservations, a, b);
        actions.push(Action::Broadcast { text: ready_message(a, false) });
        actions.push(Action::Broadcast { text: ready_message(b, false) });
        proof {
            let li = s1.matches@.len() - 1;
            assert(s1.matches@[li].id == id);
            crate::server::lemma_seated_join(s1.clients@, s1.matches@, ia as int, li, color_a);
            crate::server::lemma_seated_join(s2.clients@, s1.matches@, ib as int, li, color_b);
            let m = self.matches@.last();
            lemma_client_index(s1.clients@, a@, ia as int);
            lemma_client_index(s2.clients@, b@, ib as int);
            lemma_client_index(s0.clients@, b@, ib as int);
            assert(color_in(m, a@) == color_a);
            assert(color_in(m, b@) == color_b);
            assert(actions@.subrange(0, start.len() as int) =~= start);
            let acts = actions@.subrange(start.len() as int, actions@.len() as int);
            assert(acts.len() == 5);
            assert(acts[0] == actions@[start.len() as int]);
        }
        false
    }

    /// Adds a reservation, for the administrator, and acknowledges it; if
    /// both players are known and ready, their match starts at once (the
    /// first player's colour goes to the administrator's connection).
    pub fn handle_reservation_add(&mut self, addr: u64, player1: &String, player2: &String) -> (r: Result<
        Vec<Action>,
        String,
    >)
        requires
            old(self).wf(),
        ensures
            final(self).wf(),
            old(self).admin != Some(addr) ==> (r matches Err(e) && e@ == "ERROR:INVALID:AUTH"@) && *final(self)
                == *old(self),
            old(self).admin == Some(addr) ==> r is Ok && exists|s1: Server|
                #[trigger] reservation_parts(*old(self), *final(self), player1@, player2@, addr, r->Ok_0@, s1),
    {
        if !self.auth_check(addr) {
            return Err(String::from_str("ERROR:INVALID:AUTH"));
        }
        let ghost s0 = *self;
        let ghost rv = pairs_view(self.reservations@);
        self.reservations.push((player1.clone(), player2.clone()));
        assert(pairs_view(self.reservations@) =~= rv.push((player1@, player2@)));
        let ghost s1 = *self;
        let mut actions: Vec<Action> = Vec::new();
        actions.push(Action::Send { to: addr, text: reservation_added_message(player1, player2) });
        let i1 = self.find_client(player1);
        let i2 = self.find_client(player2);
        if i1.is_none() || i2.is_none() {
            assert(reservation_parts(s0, *self, player1@, player2@, addr, actions@, s1));
            let r: Result<Vec<Action>, String> = Ok(actions);
            assert(r->Ok_0@ == actions@);
            return r;
        }
        let ia = i1.unwrap();
        let ib = i2.unwrap();
        if *player1 == *player2 {
            actions.push(Action::Halt);
            assert(reservation_parts(s0, *self, player1@, player2@, addr, actions@, s1));
            let r: Result<Vec<Action>, String> = Ok(actions);
            assert(r->Ok_0@ == actions@);
            return r;
        }
        if !self.clients[ia].ready || !self.clients[ib].ready {
            assert(reservation_parts(s0, *self, player1@, player2@, addr, actions@, s1));
            let r: Result<Vec<Action>, String> = Ok(actions);
            assert(r->Ok_0@ == actions@);
            return r;
        }
        let ghost a1 = actions@;
        let halted = self.start_reserved_match(ia, ib, player1, player2, addr, &mut actions);
        proof {
            assert(actions@[0] == a1[0]);
            if !halted {
                assert(actions@.skip(1) =~= actions@.subrange(1, actions@.len() as int));
            }
            assert(reservation_parts(s0, *self, player1@, player2@, addr, actions@, s1));
        }
        let r: Result<Vec<Action>, String> = Ok(actions);
        assert(r->Ok_0@ == actions@);
        r
    }

    /// Adds a match with a fresh id.
    fn push_match(&mut self, m: Match)
        requires
            old(self).wf(),
            m.wf(),
            m.ledger_ok(),
            m.demo_ok(),
            !id_in_use(old(self).matches@, m.id),
        ensures
            final(self).wf(),
            final(self).matches@ == old(self).matches@.push(m),
            *final(self) == (Server { matches: final(self).matches, ..*old(self) }),
    {
        let ghost before = self.matches@;
        let ghost mm = m;
        self.matches.push(m);
        proof {
            assert forall|k: int| 0 <= k < before.len() implies before[k].id != mm.id by {}
            crate::server::lemma_seated_add(self.clients@, before, mm);
            assert(self.matches@ == before.push(mm));
            assert forall|x: int, y: int|
                0 <= x < self.matches@.len() && 0 <= y < self.matches@.len() && x != y implies self.matches@[x].id
                != self.matches@[y].id by {
                if x < before.len() && y < before.len() {
                    assert(before[x].id != before[y].id);
                } else if x < before.len() {
                    assert(before[x].id != mm.id);
                } else {
                    assert(before[y].id != mm.id);
                }
            }
            assert forall|k: int| 0 <= k < self.matches@.len() implies (#[trigger] self.matches@[k]).wf() && self.matches@[k].ledger_ok() && self.matches@[k].demo_ok() by {
                if k < before.len() {
                    assert(self.matches@[k] == before[k]);
                }
            }
        }
    }

    /// A player gets ready (`now` is the time in milliseconds). A player
    /// already ready is only acknowledged. Otherwise the player is marked
    /// ready and announced; a match then starts with its reserved opponent
    /// if that one is ready too, or else, in demo mode, against the server.
    pub fn handle_ready(&mut self, addr: u64, now: u64) -> (r: Result<Vec<Action>, String>)
        requires
            old(self).wf(),
        ensures
            final(self).wf(),
            name_of(old(self).usernames@, addr) is None ==> (r matches Err(e) && e@ == "ERROR:INVALID"@)
                && *final(self) == *old(self),
            name_of(old(self).usernames@, addr) matches Some(n) && !has_client(old(self).clients@, n) ==> (r matches Ok(
                a,
            ) && a@ == seq![Action::Halt]) && *final(self) == *old(self),
            name_of(old(self).usernames@, addr) matches Some(n) && has_client(old(self).clients@, n)
                && old(self).clients@[client_index(old(self).clients@, n)].ready ==> (r matches Ok(a) && a@.len() == 1
                && sends(a@[0], addr, "READY:ACK"@)) && *final(self) == *old(self),
            name_of(old(self).usernames@, addr) matches Some(n) && has_client(old(self).clients@, n)
                && !old(self).clients@[client_index(old(self).clients@, n)].ready ==> r is Ok && exists|s1: Server|
                #[trigger] ready_parts(*old(self), *final(self), addr, now, r->Ok_0@, s1),
    {
        let ghost s0 = *self;
        let name = match self.username_of(addr) {
            Some(n) => n,
            None => {
                return Err(String::from_str("ERROR:INVALID"));
            },
        };
        let mut actions: Vec<Action> = Vec::new();
        let i = match self.find_client(&name) {
            Some(i) => i,
            None => {
                actions.push(Action::Halt);
                assert(actions@ =~= seq![Action::Halt]);
                return Ok(actions);
            },
        };
        if self.clients[i].ready {
            actions.push(Action::Send { to: addr, text: String::from_str("READY:ACK") });
            return Ok(actions);
        }
        let c = Client {
            username: self.clients[i].username.clone(),
            ready: true,
            color: self.clients[i].color,
            current_match: self.clients[i].current_match,
            addr: self.clients[i].addr,
        };
        self.clients.set(i, c);
        proof {
            assert(self.clients@ =~= made_ready(s0.clients@, name@));
            assert forall|a: int, b: int|
                0 <= a < self.clients@.len() && 0 <= b < self.clients@.len() && a != b implies self.clients@[a].username@
                != self.clients@[b].username@ by {
                assert(s0.clients@[a].username@ != s0.clients@[b].username@);
            }
        }
        let ghost s1 = *self;
        actions.push(Action::Send { to: addr, text: String::from_str("READY:ACK") });
        actions.push(Action::Broadcast { text: ready_message(&name, true) });
        let ghost a2 = actions@;
        match self.find_reservation_opponent(&name) {
            Some(opp) => {
                let j = match self.find_client(&opp) {
                    Some(j) => j,
                    None => {
                        actions.push(Action::Halt);
                        proof {
                            assert forall|x: int| #[trigger] client_at(s0.clients@, opp@, x) implies client_at(
                                s1.clients@,
                                opp@,
                                x,
                            ) by {}
                            assert(ready_parts(s0, *self, addr, now, actions@, s1));
                        }
                        let r: Result<Vec<Action>, String> = Ok(actions);
                        assert(r->Ok_0@ == actions@);
                        return r;
                    },
                };
                proof {
                    assert(client_at(s0.clients@, opp@, j as int));
                    lemma_client_index(s0.clients@, opp@, j as int);
                }
                if opp == name {
                    actions.push(Action::Halt);
                    assert(ready_parts(s0, *self, addr, now, actions@, s1));
                    let r: Result<Vec<Action>, String> = Ok(actions);
                    assert(r->Ok_0@ == actions@);
                    return r;
                }
                if self.clients[j].ready {
                    let halted = self.start_reserved_match(i, j, &name, &opp, addr, &mut actions);
                    proof {
                        assert(actions@[0] == a2[0] && actions@[1] == a2[1]);
                        if !halted {
                            assert(actions@.skip(2) =~= actions@.subrange(2, actions@.len() as int));
                        }
                        assert(ready_parts(s0, *self, addr, now, actions@, s1));
                    }
                    let r: Result<Vec<Action>, String> = Ok(actions);
                    assert(r->Ok_0@ == actions@);
                    return r;
                }
            },
            None => {},
        }
        if !self.demo_mode {
            assert(ready_parts(s0, *self, addr, now, actions@, s1));
            let r: Result<Vec<Action>, String> = Ok(actions);
            assert(r->Ok_0@ == actions@);
            return r;
        }
        let id = match crate::try_gen_match_id(&self.matches) {
            Some(id) => id,
            None => {
                actions.push(Action::Halt);
                assert(ready_parts(s0, *self, addr, now, actions@, s1));
                let r: Result<Vec<Action>, String> = Ok(actions);
                assert(r->Ok_0@ == actions@);
                return r;
            },
        };
        let server_name = String::from_str(crate::SERVER_PLAYER_USERNAME);
        let mut m = Match::new(id, name.clone(), server_name.clone(), true);
        let first = m.player1 == name;
        let p1 = m.player1.clone();
        let p2 = m.player2.clone();
        actions.push(Action::Broadcast { text: game_started_message(id, &p1, &p2) });
        actions.push(Action::Send { to: addr, text: game_start_message(first) });
        let color = if first { Color::Red } else { Color::Yellow };
        let ghost wait = self.waiting_timeout;
        let ghost cs1 = self.clients@;
        if first {
            self.push_match(m);
        } else {
            let ghost b0 = board_view(&m.board);
            proof {
                assert(!column_full(b0, 0));
            }
            let c = crate::random_move(&m.board);
            let ghost m0 = m;
            m.ledger.push((Color::Red, c, now));
            m.place_token(Color::Red, c);
            proof {
                assert(opening_board(board_view(&m.board), c as int));
                crate::types::lemma_ledger_step(board_view(&m0.board), m0.ledger@, (Color::Red, c, now));
                assert(m.ledger@ == m0.ledger@.push((Color::Red, c, now)));
            }
            let mut steps: Vec<Step> = Vec::new();
            steps.push(Step::Sleep(self.waiting_timeout));
            steps.push(Step::ToConnection { to: addr, text: opponent_message(c) });
            steps.push(Step::ToObservers { text: move_message(id, &server_name, c) });
            let ghost mm = m;
            self.push_match(m);
            let ghost ledger = mm.ledger@;
            assert(ledger =~= seq![(Color::Red, c, now)]);
            actions.push(Action::Deliver { match_id: id, steps });
            assert(delivers_opening(actions@.last(), id, addr, wait, c as int));
        }
        proof {
            let li = self.matches@.len() - 1;
            assert(self.matches@[li].id == id);
            assert(self.clients@ == cs1);
            crate::server::lemma_seated_join(self.clients@, self.matches@, i as int, li, color);
        }
        self.join_client(i, id, color);
        actions.push(Action::Broadcast { text: ready_message(&name, false) });
        proof {
            let m = self.matches@.last();
            lemma_client_index(s1.clients@, name@, i as int);
            assert(color_in(m, name@) == color);
            assert(actions@[0] == a2[0] && actions@[1] == a2[1]);
            assert(actions@.skip(2) =~= actions@.subrange(2, actions@.len() as int));
            let rest = actions@.skip(2);
            assert(rest[0] == actions@[2]);
            assert(self.matches@.len() == s1.matches@.len() + 1);
            assert(self.matches@.drop_last() == s1.matches@);
            assert(MIN_MATCH_ID <= m.id <= MAX_MATCH_ID);
            assert(!id_in_use(s1.matches@, m.id));
            assert(m.demo_mode);
            assert(m.wf());
            assert(self.clients@ == join(s1.clients@, name@, m.id, color_in(m, name@)));
            assert(*self == (Server { clients: self.clients, matches: self.matches, ..s1 }));
            assert(broadcasts(rest[0], game_started_text(m.id, m.player1@, m.player2@)));
            assert(sends(rest[1], addr, game_start_text(m.player1@ == name@)));
            assert(demo_started(s1, *self, name@, addr, now, rest));
            assert(ready_parts(s0, *self, addr, now, actions@, s1));
        }
        let r: Result<Vec<Action>, String> = Ok(actions);
        assert(r->Ok_0@ == actions@);
        r
    }
}

} // verus!
