//! Connecting, reconnecting, disconnecting and observing.
use vstd::prelude::*;
use crate::lists::{contains_name, lemma_without_addr, remove_addr, remove_name, without_addr, without_name};
use crate::protocol::{
    connected_message, connected_text, disconnected_message, disconnected_text, game_start_message, game_start_text,
    invalid_connect_message, invalid_connect_text, opponent_message, opponent_text,
};
use crate::server::games::{clients_after_termination, terminated, termination_acts};
use crate::server::{
    broadcasts, client_at, client_index, has_client, lemma_client_index, match_at, name_of, names_view, sends,
    unique_names, valid_username, valid_username_exec, with_name, without_entry, Action, Server,
};
use crate::text::views;
use crate::types::{board_view, empty_board, new_board, Client, Color, Match};

verus! {

/// The match was reset: same id, players and mode, no move, empty board.
pub open spec fn reset_match(m: Match, n: Match) -> bool {
    &&& n.id == m.id
    &&& n.demo_mode == m.demo_mode
    &&& n.player1 == m.player1
    &&& n.player2 == m.player2
    &&& n.ledger@.len() == 0
    &&& empty_board(board_view(&n.board))
}

/// The other player of a match.
pub open spec fn opponent_of(m: Match, name: Seq<char>) -> Seq<char> {
    if m.player1@ == name {
        m.player2@
    } else {
        m.player1@
    }
}

/// The client now plays through the connection `addr`.
pub open spec fn moved_to(c: Client, addr: u64) -> Client {
    Client { addr, ..c }
}

/// A client moving to another connection stays seated as it was.
pub proof fn lemma_seated_moved(cs: Seq<Client>, ms: Seq<Match>, i: int, addr: u64)
    requires
        crate::server::colors_ok(cs, ms),
        crate::server::matches_exist(cs, ms),
        crate::server::no_server_client(cs),
        0 <= i < cs.len(),
    ensures
        crate::server::colors_ok(cs.update(i, moved_to(cs[i], addr)), ms),
        crate::server::matches_exist(cs.update(i, moved_to(cs[i], addr)), ms),
        crate::server::no_server_client(cs.update(i, moved_to(cs[i], addr))),
{
    let cs2 = cs.update(i, moved_to(cs[i], addr));
    assert forall|ci: int, mj: int|
        0 <= ci < cs2.len() && 0 <= mj < ms.len() && #[trigger] cs2[ci].current_match == Some(#[trigger] ms[mj].id)
            implies crate::server::seated(cs2[ci], ms[mj]) by {
        assert(cs[ci].current_match == Some(ms[mj].id));
    }
    assert forall|ci: int| 0 <= ci < cs2.len() && (#[trigger] cs2[ci]).current_match is Some implies crate::server::contests::has_match(
        ms,
        cs2[ci].current_match->Some_0,
    ) by {
        assert(cs[ci].current_match == cs2[ci].current_match);
    }
    assert forall|ci: int| 0 <= ci < cs2.len() implies (#[trigger] cs2[ci]).username@ != "demo"@ by {
        assert(cs[ci].username == cs2[ci].username);
    }
}

/// A player coming back while its match runs: the match starts over. The
/// opponent is told the game was terminated, then both are told to start
/// again with their colours (the handler stops on an unknown match or
/// opponent, or a player without a colour).
pub open spec fn restarted(old: Server, new: Server, ci: int, addr: u64, acts: Seq<Action>) -> bool {
    let c = old.clients@[ci];
    let id = c.current_match->0;
    let cs = old.clients@.update(ci, moved_to(c, addr));
    &&& !(exists|j: int| match_at(old.matches@, id, j)) ==> {
        &&& acts == seq![Action::Halt]
        &&& new == (Server { clients: new.clients, ..old })
        &&& new.clients@ == cs
    }
    &&& forall|j: int| #[trigger] match_at(old.matches@, id, j) ==> {
        let m = old.matches@[j];
        let opp = opponent_of(m, c.username@);
        &&& new == (Server { clients: new.clients, matches: new.matches, ..old })
        &&& new.clients@ == cs
        &&& new.matches@.len() == old.matches@.len()
        &&& reset_match(m, new.matches@[j])
        &&& forall|k: int| 0 <= k < old.matches@.len() && k != j ==> new.matches@[k] == old.matches@[k]
        &&& !has_client(cs, opp) ==> acts == seq![Action::Halt]
        &&& has_client(cs, opp) ==> {
            let o = cs[client_index(cs, opp)];
            &&& acts.len() >= 2
            &&& sends(acts[0], o.addr, "GAME:TERMINATED"@)
            &&& c.color == Color::Empty ==> acts.len() == 2 && acts[1] is Halt
            &&& c.color != Color::Empty ==> {
                &&& sends(acts[1], addr, game_start_text(c.color == Color::Red))
                &&& o.color == Color::Empty ==> acts.len() == 3 && acts[2] is Halt
                &&& o.color != Color::Empty ==> acts.len() == 3 && sends(acts[2], o.addr, game_start_text(o.color == Color::Red))
            }
        }
    }
}

impl Server {
    /// A connection opened: it starts out observing.
    pub fn handle_open(&mut self, addr: u64)
        requires
            old(self).wf(),
        ensures
            final(self).wf(),
            *final(self) == (Server { observers: final(self).observers, ..*old(self) }),
            old(self).observers@.contains(addr) ==> final(self).observers@ == old(self).observers@,
            !old(self).observers@.contains(addr) ==> final(self).observers@ == old(self).observers@.push(addr),
    {
        let mut i: usize = 0;
        while i < self.observers.len()
            invariant
                i <= self.observers@.len(),
                *self == *old(self),
                old(self).wf(),
                forall|k: int| 0 <= k < i ==> self.observers@[k] != addr,
            decreases self.observers@.len() - i,
        {
            if self.observers[i] == addr {
                return;
            }
            i = i + 1;
        }
        let ghost before = self.observers@;
        self.observers.push(addr);
        assert forall|a: int, b: int|
            0 <= a < self.observers@.len() && 0 <= b < self.observers@.len() && a != b implies self.observers@[a]
            != self.observers@[b] by {
            if a < before.len() && b < before.len() {
                assert(before[a] != before[b]);
            }
        }
    }

    /// Switches a connection that plays under no name between observing and
    /// not observing.
    pub fn handle_observe(&mut self, addr: u64) -> (r: Result<Vec<Action>, String>)
        requires
            old(self).wf(),
        ensures
            final(self).wf(),
            name_of(old(self).usernames@, addr) is Some ==> (r matches Err(e) && e@ == "ERROR:INVALID:OBSERVE"@)
                && *final(self) == *old(self),
            name_of(old(self).usernames@, addr) is None ==> {
                &&& *final(self) == (Server { observers: final(self).observers, ..*old(self) })
                &&& old(self).observers@.contains(addr) ==> final(self).observers@ == without_addr(
                    old(self).observers@,
                    addr,
                ) && (r matches Ok(a) && a@.len() == 1 && sends(a@[0], addr, "OBSERVE:ACK:0"@))
                &&& !old(self).observers@.contains(addr) ==> final(self).observers@ == old(self).observers@.push(addr)
                    && (r matches Ok(a) && a@.len() == 1 && sends(a@[0], addr, "OBSERVE:ACK:1"@))
            },
    {
        if self.username_of(addr).is_some() {
            return Err(String::from_str("ERROR:INVALID:OBSERVE"));
        }
        let mut actions: Vec<Action> = Vec::new();
        let mut found = false;
        let mut i: usize = 0;
        while i < self.observers.len()
            invariant
                i <= self.observers@.len(),
                found == exists|k: int| 0 <= k < i && self.observers@[k] == addr,
            decreases self.observers@.len() - i,
        {
            if self.observers[i] == addr {
                found = true;
            }
            i = i + 1;
        }
        proof {
            lemma_without_addr(self.observers@, addr);
        }
        if found {
            remove_addr(&mut self.observers, addr);
            actions.push(Action::Send { to: addr, text: String::from_str("OBSERVE:ACK:0") });
        } else {
            let ghost before = self.observers@;
            self.observers.push(addr);
            assert forall|a: int, b: int|
                0 <= a < self.observers@.len() && 0 <= b < self.observers@.len() && a != b implies self.observers@[a]
                != self.observers@[b] by {
                if a < before.len() && b < before.len() {
                    assert(before[a] != before[b]);
                }
            }
            actions.push(Action::Send { to: addr, text: String::from_str("OBSERVE:ACK:1") });
        }
        Ok(actions)
    }

    /// The client at `ci` now plays through `addr`.
    fn move_client(&mut self, ci: usize, addr: u64)
        requires
            ci < old(self).clients@.len(),
            unique_names(old(self).clients@),
        ensures
            unique_names(final(self).clients@),
            final(self).clients@ == old(self).clients@.update(ci as int, moved_to(old(self).clients@[ci as int], addr)),
            *final(self) == (Server { clients: final(self).clients, ..*old(self) }),
    {
        let c = Client {
            username: self.clients[ci].username.clone(),
            ready: self.clients[ci].ready,
            color: self.clients[ci].color,
            current_match: self.clients[ci].current_match,
            addr,
        };
        self.clients.set(ci, c);
        assert(self.clients@ =~= old(self).clients@.update(ci as int, moved_to(old(self).clients@[ci as int], addr)));
        assert forall|a: int, b: int|
            0 <= a < self.clients@.len() && 0 <= b < self.clients@.len() && a != b implies self.clients@[a].username@
            != self.clients@[b].username@ by {
            assert(old(self).clients@[a].username@ != old(self).clients@[b].username@);
        }
    }

    /// The client at `ci`, back through `addr`, plays through it, and its
    /// match starts over.
    fn restart_match(&mut self, ci: usize, addr: u64) -> (r: Vec<Action>)
        requires
            old(self).wf(),
            ci < old(self).clients@.len(),
            old(self).clients@[ci as int].current_match is Some,
        ensures
            final(self).wf(),
            restarted(*old(self), *final(self), ci as int, addr, r@),
    {
        proof {
            lemma_seated_moved(self.clients@, self.matches@, ci as int, addr);
        }
        self.move_client(ci, addr);
        let mut actions: Vec<Action> = Vec::new();
        let id = self.clients[ci].current_match.unwrap();
        let j = match self.find_match(id) {
            Some(j) => j,
            None => {
                actions.push(Action::Halt);
                assert(actions@ =~= seq![Action::Halt]);
                return actions;
            },
        };
        proof {
            assert forall|k: int| #[trigger] match_at(self.matches@, id, k) implies k == j by {
                if k != j {
                    assert(self.matches@[k].id != self.matches@[j as int].id);
                }
            }
        }
        let name = self.clients[ci].username.clone();
        let opponent = if self.matches[j].player1 == name {
            self.matches[j].player2.clone()
        } else {
            self.matches[j].player1.clone()
        };
        let board = new_board();
        proof {
            crate::types::lemma_blank(board_view(&board));
            crate::types::lemma_ledger_start();
        }
        let fresh = Match {
            id: self.matches[j].id,
            demo_mode: self.matches[j].demo_mode,
            board,
            ledger: Vec::new(),
            player1: self.matches[j].player1.clone(),
            player2: self.matches[j].player2.clone(),
        };
        proof {
            crate::server::lemma_seated_update(self.clients@, self.matches@, j as int, fresh);
        }
        self.matches.set(j, fresh);
        proof {
            assert forall|a: int, b: int|
                0 <= a < self.matches@.len() && 0 <= b < self.matches@.len() && a != b implies self.matches@[a].id
                != self.matches@[b].id by {
                assert(old(self).matches@[a].id != old(self).matches@[b].id);
            }
            assert forall|k: int| 0 <= k < self.matches@.len() implies (#[trigger] self.matches@[k]).wf() && self.matches@[k].ledger_ok() && self.matches@[k].demo_ok() by {
                if k != j {
                    assert(self.matches@[k] == old(self).matches@[k]);
                }
            }
        }
        let oi = match self.find_client(&opponent) {
            Some(oi) => oi,
            None => {
                actions.push(Action::Halt);
                assert(actions@ =~= seq![Action::Halt]);
                return actions;
            },
        };
        actions.push(Action::Send { to: self.clients[oi].addr, text: String::from_str("GAME:TERMINATED") });
        if self.clients[ci].color == Color::Empty {
            actions.push(Action::Halt);
            return actions;
        }
        let mine = self.clients[ci].color.into_bool();
        actions.push(Action::Send { to: addr, text: game_start_message(mine) });
        if self.clients[oi].color == Color::Empty {
            actions.push(Action::Halt);
            return actions;
        }
        let theirs = self.clients[oi].color.into_bool();
        actions.push(Action::Send { to: self.clients[oi].addr, text: game_start_message(theirs) });
        actions
    }

    /// A player connects under a name. Refused (with
    /// `ERROR:INVALID:CONNECT:<name>`) for a name that may not be taken, or
    /// that another player has unless that player dropped out. Otherwise the
    /// connection stops observing, plays under the name and gets
    /// `CONNECT:ACK`; a new player is added and announced to observers; a
    /// player who dropped out takes their place back, and their match (if
    /// any) starts over.
    pub fn handle_connect_cmd(&mut self, addr: u64, requested_username: &String) -> (r: Result<Vec<Action>, String>)
        requires
            old(self).wf(),
        ensures
            final(self).wf(),
            ({
                let name = requested_username@;
                let reconnecting = views(old(self).disconnected_clients@).contains(name);
                let existing = has_client(old(self).clients@, name);
                let refused = !valid_username(name) || (existing && !reconnecting);
                &&& refused ==> (r matches Err(e) && e@ == invalid_connect_text(name)) && *final(self) == *old(self)
                &&& !refused ==> {
                    &&& final(self).observers@ == without_addr(old(self).observers@, addr)
                    &&& names_view(final(self).usernames@) == with_name(names_view(old(self).usernames@), addr, name)
                    &&& r matches Ok(a) && a@.len() >= 1 && sends(a@[0], addr, "CONNECT:ACK"@)
                    &&& !reconnecting ==> {
                        &&& final(self).clients@.len() == old(self).clients@.len() + 1
                        &&& final(self).clients@.drop_last() == old(self).clients@
                        &&& final(self).clients@.last().username@ == name
                        &&& final(self).clients@.last().addr == addr
                        &&& !final(self).clients@.last().ready
                        &&& final(self).clients@.last().color == Color::Empty
                        &&& final(self).clients@.last().current_match is None
                        &&& r matches Ok(a) && a@.len() == 2 && broadcasts(a@[1], connected_text(name))
                        &&& *final(self) == (Server {
                            observers: final(self).observers,
                            usernames: final(self).usernames,
                            clients: final(self).clients,
                            ..*old(self)
                        })
                    }
                    &&& reconnecting ==> {
                        &&& views(final(self).disconnected_clients@) == without_name(
                            views(old(self).disconnected_clients@),
                            name,
                        )
                        &&& !existing ==> {
                            &&& r matches Ok(a) && a@.len() == 2 && a@[1] is Halt
                            &&& *final(self) == (Server {
                                observers: final(self).observers,
                                usernames: final(self).usernames,
                                disconnected_clients: final(self).disconnected_clients,
                                ..*old(self)
                            })
                        }
                        &&& existing ==> {
                            let ci = client_index(old(self).clients@, name);
                            let c = old(self).clients@[ci];
                            let mid = Server {
                                observers: final(self).observers,
                                usernames: final(self).usernames,
                                disconnected_clients: final(self).disconnected_clients,
                                ..*old(self)
                            };
                            &&& c.current_match is None ==> {
                                &&& r matches Ok(a) && a@.len() == 1
                                &&& final(self).clients@ == old(self).clients@.update(ci, moved_to(c, addr))
                                &&& *final(self) == (Server { clients: final(self).clients, ..mid })
                            }
                            &&& c.current_match is Some ==> (r matches Ok(a) && restarted(
                                mid,
                                *final(self),
                                ci,
                                addr,
                                a@.drop_first(),
                            ))
                        }
                    }
                }
            }),
    {
        if !valid_username_exec(requested_username) {
            return Err(invalid_connect_message(requested_username));
        }
        let reconnecting = contains_name(&self.disconnected_clients, requested_username);
        let existing = self.find_client(requested_username);
        if existing.is_some() && !reconnecting {
            return Err(invalid_connect_message(requested_username));
        }
        proof {
            lemma_without_addr(self.observers@, addr);
        }
        remove_addr(&mut self.observers, addr);
        self.set_username(addr, requested_username);
        let mut actions: Vec<Action> = Vec::new();
        actions.push(Action::Send { to: addr, text: String::from_str("CONNECT:ACK") });
        if !reconnecting {
            let ghost before = self.clients@;
            self.clients.push(Client::new(requested_username.clone(), addr));
            proof {
                assert(self.clients@.drop_last() =~= before);
                assert forall|a: int, b: int|
                    0 <= a < self.clients@.len() && 0 <= b < self.clients@.len() && a != b implies self.clients@[a].username@
                    != self.clients@[b].username@ by {
                    if a < before.len() && b < before.len() {
                        assert(before[a].username@ != before[b].username@);
                    } else if a < before.len() {
                        assert(!client_at(before, requested_username@, a));
                    } else {
                        assert(!client_at(before, requested_username@, b));
                    }
                }
            }
            actions.push(Action::Broadcast { text: connected_message(requested_username) });
            return Ok(actions);
        }
        remove_name(&mut self.disconnected_clients, requested_username);
        let ci = match existing {
            Some(ci) => ci,
            None => {
                actions.push(Action::Halt);
                return Ok(actions);
            },
        };
        if self.clients[ci].current_match.is_none() {
            self.move_client(ci, addr);
            return Ok(actions);
        }
        let ghost call_state = *self;
        let mut more = self.restart_match(ci, addr);
        let ghost produced = more@;
        let ghost first = actions@;
        actions.append(&mut more);
        assert(actions@.drop_first() =~= produced);
        assert(restarted(call_state, *self, ci as int, addr, produced));
        Ok(actions)
    }

    /// A player who dropped out comes back under its name (an unknown name
    /// is ignored). It plays through the new connection again; in a match it
    /// is sent the opponent's last move when it is its turn (or the start of
    /// the game if it moves first and nobody has moved), otherwise
    /// `GAME:TERMINATED`; if a tournament runs without it, `RECONNECT:ACK`.
    pub fn handle_reconnect_cmd(&mut self, addr: u64, requested_username: &String) -> (r: Result<Vec<Action>, String>)
        requires
            old(self).wf(),
        ensures
            final(self).wf(),
            ({
                let name = requested_username@;
                let back = views(old(self).disconnected_clients@).contains(name) && has_client(old(self).clients@, name);
                &&& !back ==> (r matches Ok(a) && a@.len() == 0) && *final(self) == *old(self)
                &&& back ==> {
                    let ci = client_index(old(self).clients@, name);
                    let c = old(self).clients@[ci];
                    let tail = match old(self).tournament {
                        Some(t) => !t.entrants().contains(name),
                        None => false,
                    };
                    &&& views(final(self).disconnected_clients@) == without_name(
                        views(old(self).disconnected_clients@),
                        name,
                    )
                    &&& names_view(final(self).usernames@) == with_name(names_view(old(self).usernames@), addr, name)
                    &&& final(self).clients@ == old(self).clients@.update(ci, moved_to(c, addr))
                    &&& *final(self) == (Server {
                        disconnected_clients: final(self).disconnected_clients,
                        usernames: final(self).usernames,
                        clients: final(self).clients,
                        ..*old(self)
                    })
                    &&& c.current_match is None ==> (r matches Ok(a) && a@.len() == (if tail { 2int } else { 1int })
                        && sends(a@[0], addr, "GAME:TERMINATED"@) && (tail ==> sends(a@[1], addr, "RECONNECT:ACK"@)))
                    &&& c.current_match is Some ==> {
                        let id = c.current_match->0;
                        &&& !(exists|j: int| match_at(old(self).matches@, id, j)) ==> (r matches Ok(a) && a@ == seq![
                            Action::Halt,
                        ])
                        &&& forall|j: int| #[trigger] match_at(old(self).matches@, id, j) ==> {
                            let ledger = old(self).matches@[j].ledger@;
                            let resend = (ledger.len() > 0 && ledger.last().0 != c.color) || (ledger.len() == 0
                                && c.color == Color::Red);
                            let n = (if resend { 1int } else { 0int });
                            &&& r matches Ok(a) && a@.len() == n + (if tail { 1int } else { 0int })
                            &&& ledger.len() > 0 && ledger.last().0 != c.color ==> (r matches Ok(a) && sends(
                                a@[0],
                                addr,
                                opponent_text(ledger.last().1 as nat),
                            ))
                            &&& ledger.len() == 0 && c.color == Color::Red ==> (r matches Ok(a) && sends(
                                a@[0],
                                addr,
                                "GAME:START:1"@,
                            ))
                            &&& tail ==> (r matches Ok(a) && sends(a@[n], addr, "RECONNECT:ACK"@))
                        }
                    }
                }
            }),
    {
        let mut actions: Vec<Action> = Vec::new();
        let reconnecting = contains_name(&self.disconnected_clients, requested_username);
        if !reconnecting {
            return Ok(actions);
        }
        let ci = match self.find_client(requested_username) {
            Some(ci) => ci,
            None => {
                return Ok(actions);
            },
        };
        remove_name(&mut self.disconnected_clients, requested_username);
        self.set_username(addr, requested_username);
        self.move_client(ci, addr);
        let ghost mut jg: int = 0;
        match self.clients[ci].current_match {
            Some(id) => {
                let j = match self.find_match(id) {
                    Some(j) => j,
                    None => {
                        actions.push(Action::Halt);
                        assert(actions@ =~= seq![Action::Halt]);
                        return Ok(actions);
                    },
                };
                proof {
                    assert forall|k: int| #[trigger] match_at(self.matches@, id, k) implies k == j by {
                        if k != j {
                            assert(self.matches@[k].id != self.matches@[j as int].id);
                        }
                    }
                }
                let color = self.clients[ci].color;
                let n = self.matches[j].ledger.len();
                if n > 0 {
                    if self.matches[j].ledger[n - 1].0 != color {
                        let col = self.matches[j].ledger[n - 1].1;
                        actions.push(Action::Send { to: addr, text: opponent_message(col) });
                    }
                } else if color == Color::Red {
                    actions.push(Action::Send { to: addr, text: String::from_str("GAME:START:1") });
                }
            },
            None => {
                actions.push(Action::Send { to: addr, text: String::from_str("GAME:TERMINATED") });
            },
        }
        match &self.tournament {
            Some(t) => {
                if !t.contains_player(requested_username) {
                    actions.push(Action::Send { to: addr, text: String::from_str("RECONNECT:ACK") });
                }
            },
            None => {},
        }
        Ok(actions)
    }

    /// A player leaves: its match (if any) is terminated, it is forgotten,
    /// it gets `DISCONNECT:ACK` and observers `DISCONNECT:<name>`. Refused
    /// for a connection that plays under no name. The handler stops on a
    /// name with no player or an unknown match.
    pub fn handle_disconnect_cmd(&mut self, addr: u64) -> (r: Result<Vec<Action>, String>)
        requires
            old(self).wf(),
        ensures
            final(self).wf(),
            name_of(old(self).usernames@, addr) is None ==> (r matches Err(e) && e@ == "ERROR:INVALID:DISCONNECT"@)
                && *final(self) == *old(self),
            name_of(old(self).usernames@, addr) matches Some(name) ==> {
                &&& !has_client(old(self).clients@, name) ==> (r matches Ok(a) && a@ == seq![Action::Halt])
                    && *final(self) == *old(self)
                &&& has_client(old(self).clients@, name) ==> {
                    let c = old(self).clients@[client_index(old(self).clients@, name)];
                    &&& c.current_match is None ==> {
                        &&& final(self).clients@ == old(self).clients@.remove(client_index(old(self).clients@, name))
                        &&& names_view(final(self).usernames@) == without_entry(names_view(old(self).usernames@), addr)
                        &&& *final(self) == (Server {
                            clients: final(self).clients,
                            usernames: final(self).usernames,
                            ..*old(self)
                        })
                        &&& r matches Ok(a) && a@.len() == 2 && sends(a@[0], addr, "DISCONNECT:ACK"@) && broadcasts(
                            a@[1],
                            disconnected_text(name),
                        )
                    }
                    &&& c.current_match matches Some(id) ==> {
                        &&& !(exists|j: int| match_at(old(self).matches@, id, j)) ==> (r matches Ok(a) && a@ == seq![
                            Action::Halt,
                        ]) && *final(self) == *old(self)
                        &&& forall|j: int| #[trigger] match_at(old(self).matches@, id, j) ==> {
                            &&& r matches Ok(a) && a@.len() >= 2 && termination_acts(
                                *old(self),
                                j,
                                a@.subrange(0, a@.len() - 2),
                            ) && sends(a@[a@.len() - 2], addr, "DISCONNECT:ACK"@) && broadcasts(
                                a@[a@.len() - 1],
                                disconnected_text(name),
                            )
                            &&& final(self).clients@ == clients_after_termination(*old(self), j).remove(
                                client_index(old(self).clients@, name),
                            )
                            &&& final(self).matches@ == old(self).matches@.remove(j)
                            &&& names_view(final(self).usernames@) == without_entry(
                                names_view(old(self).usernames@),
                                addr,
                            )
                            &&& *final(self) == (Server {
                                clients: final(self).clients,
                                usernames: final(self).usernames,
                                matches: final(self).matches,
                                ..*old(self)
                            })
                        }
                    }
                }
            },
    {
        let name = match self.username_of(addr) {
            Some(n) => n,
            None => {
                return Err(String::from_str("ERROR:INVALID:DISCONNECT"));
            },
        };
        let mut actions: Vec<Action> = Vec::new();
        let ci = match self.find_client(&name) {
            Some(ci) => ci,
            None => {
                actions.push(Action::Halt);
                assert(actions@ =~= seq![Action::Halt]);
                return Ok(actions);
            },
        };
        let ghost mut jg: int = 0;
        match self.clients[ci].current_match {
            Some(id) => {
                let j = match self.find_match(id) {
                    Some(j) => j,
                    None => {
                        actions.push(Action::Halt);
                        assert(actions@ =~= seq![Action::Halt]);
                        return Ok(actions);
                    },
                };
                let ghost pre = *self;
                actions = self.terminate_match(id);
                proof {
                    jg = j as int;
                    assert(match_at(pre.matches@, id, j as int));
                    crate::server::games::lemma_terminated_keeps(pre, *self, j as int, actions@);
                    assert(client_at(self.clients@, name@, ci as int));
                    lemma_client_index(self.clients@, name@, ci as int);
                }
            },
            None => {},
        }
        let ghost mid = *self;
        let ghost terminated_acts = actions@;
        let ghost before = self.clients@;
        self.clients.remove(ci);
        proof {
            assert forall|a: int, b: int|
                0 <= a < self.clients@.len() && 0 <= b < self.clients@.len() && a != b implies self.clients@[a].username@
                != self.clients@[b].username@ by {
                let a2 = if a < ci { a } else { a + 1 };
                let b2 = if b < ci { b } else { b + 1 };
                assert(before[a2].username@ != before[b2].username@);
            }
        }
        self.remove_username(addr);
        actions.push(Action::Send { to: addr, text: String::from_str("DISCONNECT:ACK") });
        actions.push(Action::Broadcast { text: disconnected_message(&name) });
        assert(actions@.subrange(0, actions@.len() - 2) =~= terminated_acts);
        proof {
            if old(self).clients@[ci as int].current_match is Some {
                assert(terminated(*old(self), mid, jg, actions@.subrange(0, actions@.len() - 2)));
                assert(client_index(old(self).clients@, name@) == ci);
                assert(forall|j: int| #[trigger] match_at(old(self).matches@, old(self).clients@[ci as int].current_match->0, j) ==> j == jg) by {
                    assert forall|j: int| #[trigger] match_at(old(self).matches@, old(self).clients@[ci as int].current_match->0, j) implies j == jg by {
                        if j != jg {
                            assert(old(self).matches@[j].id != old(self).matches@[jg].id);
                        }
                    }
                }
            }
        }
        Ok(actions)
    }

    /// The connection `addr` closed. Its player is forgotten; a player in a
    /// match or in the running tournament is first marked as dropped out. The connection no longer observes, and if it was the
    /// administrator's, nobody is administrator.
    pub fn handle_close(&mut self, addr: u64)
        requires
            old(self).wf(),
        ensures
            final(self).wf(),
            final(self).observers@ == without_addr(old(self).observers@, addr),
            final(self).admin == (if old(self).admin == Some(addr) {
                None
            } else {
                old(self).admin
            }),
            final(self).matches == old(self).matches,
            final(self).tournament == old(self).tournament,
            final(self).reservations == old(self).reservations,
            final(self).waiting_timeout == old(self).waiting_timeout,
            final(self).max_timeout == old(self).max_timeout,
            final(self).demo_mode == old(self).demo_mode,
            final(self).admin_password == old(self).admin_password,
            match name_of(old(self).usernames@, addr) {
                Some(name) if has_client(old(self).clients@, name) => {
                    let ci = client_index(old(self).clients@, name);
                    let keep = old(self).clients@[ci].current_match is Some || match old(self).tournament {
                        Some(t) => t.entrants().contains(name),
                        None => false,
                    };
                    &&& names_view(final(self).usernames@) == without_entry(names_view(old(self).usernames@), addr)
                    &&& final(self).clients@ == old(self).clients@.remove(ci)
                    &&& keep ==> views(final(self).disconnected_clients@) == views(old(self).disconnected_clients@).push(
                        name,
                    )
                    &&& !keep ==> final(self).disconnected_clients == old(self).disconnected_clients
                },
                _ => {
                    &&& final(self).usernames == old(self).usernames
                    &&& final(self).clients == old(self).clients
                    &&& final(self).disconnected_clients == old(self).disconnected_clients
                },
            },
    {
        match self.username_of(addr) {
            Some(name) => {
                match self.find_client(&name) {
                    Some(ci) => {
                        let mut keep = self.clients[ci].current_match.is_some();
                        if !keep {
                            match &self.tournament {
                                Some(t) => {
                                    keep = t.contains_player(&name);
                                },
                                None => {},
                            }
                        }
                        if keep {
                            let ghost before = views(self.disconnected_clients@);
                            self.disconnected_clients.push(name.clone());
                            proof {
                                crate::text::lemma_views(self.disconnected_clients@);
                                assert(views(self.disconnected_clients@) =~= before.push(self.disconnected_clients@.last()@));
                            }
                        }
                        let ghost before = self.clients@;
                        self.clients.remove(ci);
                        proof {
                            assert forall|a: int, b: int|
                                0 <= a < self.clients@.len() && 0 <= b < self.clients@.len() && a != b implies self.clients@[a].username@
                                != self.clients@[b].username@ by {
                                let a2 = if a < ci { a } else { a + 1 };
                                let b2 = if b < ci { b } else { b + 1 };
                                assert(before[a2].username@ != before[b2].username@);
                            }
                        }
                        self.remove_username(addr);
                    },
                    None => {},
                }
            },
            None => {},
        }
        proof {
            lemma_without_addr(self.observers@, addr);
        }
        remove_addr(&mut self.observers, addr);
        if self.admin == Some(addr) {
            self.admin = None;
        }
    }
}

} // verus!
