//! The administrator's commands, the settings and the listings.
use vstd::prelude::*;
use crate::lists::{pairs_view, remove_pair, without_pair};
use crate::protocol::{get_prefix_message, get_prefix_text, join2, reservation_deleted_message, reservation_deleted_text,
    set_ack_message, set_ack_text};
use crate::server::{broadcasts, client_at, has_client, sends, sends_seconds, writes_bracket, Action, Server};
use crate::text::{bool_text, decimal, decimal_string, parse_bool, parse_bool_text, pop_char, pop_last, replace_char,
    replace_char_text};
use crate::tournaments::knockout_bracket::{bracket_text, rounds_view};
use crate::tournaments::Tournament;
use crate::types::{Client, Color, Match};

verus! {

/// One player in the player list: `<name>,<ready>,<in a match>|`.
pub open spec fn player_entry(c: Client) -> Seq<char> {
    c.username@ + ","@ + bool_text(c.ready) + ","@ + bool_text(c.current_match is Some) + "|"@
}

/// The player list entries, one after another.
pub open spec fn player_entries(cs: Seq<Client>) -> Seq<char>
    decreases cs.len(),
{
    if cs.len() == 0 {
        Seq::empty()
    } else {
        player_entries(cs.drop_last()) + player_entry(cs.last())
    }
}

/// `PLAYER:LIST:` followed by the entries, without the last bar.
pub open spec fn player_list_text(cs: Seq<Client>) -> Seq<char> {
    if cs.len() == 0 {
        "PLAYER:LIST:"@
    } else {
        pop_last("PLAYER:LIST:"@ + player_entries(cs))
    }
}

/// One match in the game list: `<id>,<player1>,<player2>|`.
pub open spec fn game_entry(m: Match) -> Seq<char> {
    decimal(m.id as nat) + ","@ + m.player1@ + ","@ + m.player2@ + "|"@
}

/// The game list entries, one after another.
pub open spec fn game_entries(ms: Seq<Match>) -> Seq<char>
    decreases ms.len(),
{
    if ms.len() == 0 {
        Seq::empty()
    } else {
        game_entries(ms.drop_last()) + game_entry(ms.last())
    }
}

/// `GAME:LIST:` followed by the entries, without the last bar.
pub open spec fn game_list_text(ms: Seq<Match>) -> Seq<char> {
    if ms.len() == 0 {
        "GAME:LIST:"@
    } else {
        pop_last("GAME:LIST:"@ + game_entries(ms))
    }
}

/// The reservation entries: `<player1>,<player2>|` each.
pub open spec fn reservation_entries(rs: Seq<(Seq<char>, Seq<char>)>) -> Seq<char>
    decreases rs.len(),
{
    if rs.len() == 0 {
        Seq::empty()
    } else {
        reservation_entries(rs.drop_last()) + rs.last().0 + ","@ + rs.last().1 + "|"@
    }
}

/// `RESERVATION:LIST:` followed by the entries, without the last bar.
pub open spec fn reservation_list_text(rs: Seq<(Seq<char>, Seq<char>)>) -> Seq<char> {
    if rs.len() == 0 {
        "RESERVATION:LIST:"@
    } else {
        pop_last("RESERVATION:LIST:"@ + reservation_entries(rs))
    }
}

/// The moves of a match as watched: `<player>,<column>|` each, the player
/// being `player1` for red moves and `player2` otherwise.
pub open spec fn watched_moves(ledger: Seq<(Color, usize, u64)>, p1: Seq<char>, p2: Seq<char>) -> Seq<char>
    decreases ledger.len(),
{
    if ledger.len() == 0 {
        Seq::empty()
    } else {
        watched_moves(ledger.drop_last(), p1, p2) + (if ledger.last().0 == Color::Red {
            p1
        } else {
            p2
        }) + ","@ + decimal(ledger.last().1 as nat) + "|"@
    }
}

/// A red move, the first player's colour, is shown with the first player's
/// name, and its column.
pub proof fn law_a_red_move_is_shown_as_the_first_players(column: usize, time: u64, p1: Seq<char>, p2: Seq<char>)
    ensures
        watched_moves(seq![(Color::Red, column, time)], p1, p2) == p1 + ","@ + decimal(column as nat) + "|"@,
{
    let l = seq![(Color::Red, column, time)];
    assert(l.drop_last() =~= Seq::<(Color, usize, u64)>::empty());
    assert(watched_moves(l.drop_last(), p1, p2) == Seq::<char>::empty());
    assert(l.last() == (Color::Red, column, time));
    assert(watched_moves(l, p1, p2) == Seq::<char>::empty() + p1 + ","@ + decimal(column as nat) + "|"@);
    assert(Seq::<char>::empty() + p1 + ","@ + decimal(column as nat) + "|"@ =~= p1 + ","@ + decimal(column as nat) + "|"@);
}

/// A yellow move, the second player's colour, is shown with the second
/// player's name, and its column.
pub proof fn law_a_yellow_move_is_shown_as_the_second_players(column: usize, time: u64, p1: Seq<char>, p2: Seq<char>)
    ensures
        watched_moves(seq![(Color::Yellow, column, time)], p1, p2) == p2 + ","@ + decimal(column as nat) + "|"@,
{
    let l = seq![(Color::Yellow, column, time)];
    assert(l.drop_last() =~= Seq::<(Color, usize, u64)>::empty());
    assert(watched_moves(l.drop_last(), p1, p2) == Seq::<char>::empty());
    assert(l.last() == (Color::Yellow, column, time));
    assert(watched_moves(l, p1, p2) == Seq::<char>::empty() + p2 + ","@ + decimal(column as nat) + "|"@);
    assert(Seq::<char>::empty() + p2 + ","@ + decimal(column as nat) + "|"@ =~= p2 + ","@ + decimal(column as nat) + "|"@);
}

/// The watched moves are written move by move: the moves of two ledgers one
/// after the other read as those of the first followed by those of the
/// second, so how a move reads does not depend on where it stands.
pub proof fn law_watched_moves_read_move_by_move(
    l1: Seq<(Color, usize, u64)>,
    l2: Seq<(Color, usize, u64)>,
    p1: Seq<char>,
    p2: Seq<char>,
)
    ensures
        watched_moves(l1 + l2, p1, p2) == watched_moves(l1, p1, p2) + watched_moves(l2, p1, p2),
    decreases l2.len(),
{
    if l2.len() == 0 {
        assert(l1 + l2 =~= l1);
        assert(watched_moves(l1, p1, p2) + Seq::<char>::empty() =~= watched_moves(l1, p1, p2));
    } else {
        law_watched_moves_read_move_by_move(l1, l2.drop_last(), p1, p2);
        assert((l1 + l2).drop_last() =~= l1 + l2.drop_last());
        assert((l1 + l2).last() == l2.last());
        let e = l2.last();
        let who = if e.0 == Color::Red { p1 } else { p2 };
        assert(watched_moves(l1 + l2, p1, p2) =~= watched_moves(l1, p1, p2) + watched_moves(l2.drop_last(), p1, p2)
            + who + ","@ + decimal(e.1 as nat) + "|"@);
        assert(watched_moves(l2, p1, p2) =~= watched_moves(l2.drop_last(), p1, p2) + who + ","@ + decimal(e.1 as nat)
            + "|"@);
    }
}

/// `GAME:WATCH:ACK:<id>,<player1>,<player2>|<moves>` without the last bar.
pub open spec fn watch_text(m: Match) -> Seq<char> {
    pop_last(
        "GAME:WATCH:ACK:"@ + decimal(m.id as nat) + ","@ + m.player1@ + ","@ + m.player2@ + "|"@ + watched_moves(
            m.ledger@,
            m.player1@,
            m.player2@,
        ),
    )
}

/// The names of the settings differ from one another.
proof fn lemma_setting_names()
    ensures
        "TOURNAMENT_STATUS"@ != "TOURNAMENT_DATA"@,
        "TOURNAMENT_STATUS"@ != "BRACKET_PAIRINGS"@,
        "TOURNAMENT_STATUS"@ != "MOVE_WAIT"@,
        "TOURNAMENT_STATUS"@ != "MAX_TIMEOUT"@,
        "TOURNAMENT_STATUS"@ != "DEMO_MODE"@,
        "TOURNAMENT_DATA"@ != "BRACKET_PAIRINGS"@,
        "TOURNAMENT_DATA"@ != "MOVE_WAIT"@,
        "TOURNAMENT_DATA"@ != "MAX_TIMEOUT"@,
        "TOURNAMENT_DATA"@ != "DEMO_MODE"@,
        "BRACKET_PAIRINGS"@ != "MOVE_WAIT"@,
        "BRACKET_PAIRINGS"@ != "MAX_TIMEOUT"@,
        "BRACKET_PAIRINGS"@ != "DEMO_MODE"@,
        "MOVE_WAIT"@ != "MAX_TIMEOUT"@,
        "MOVE_WAIT"@ != "DEMO_MODE"@,
        "MAX_TIMEOUT"@ != "DEMO_MODE"@,
{
    reveal_strlit("TOURNAMENT_STATUS");
    reveal_strlit("TOURNAMENT_DATA");
    reveal_strlit("BRACKET_PAIRINGS");
    reveal_strlit("MOVE_WAIT");
    reveal_strlit("MAX_TIMEOUT");
    reveal_strlit("DEMO_MODE");
    assert("TOURNAMENT_STATUS"@.len() == 17);
    assert("TOURNAMENT_DATA"@.len() == 15);
    assert("BRACKET_PAIRINGS"@.len() == 16);
    assert("MOVE_WAIT"@.len() == 9);
    assert("MAX_TIMEOUT"@.len() == 11);
    assert("DEMO_MODE"@.len() == 9);
    assert("MOVE_WAIT"@[0] != "DEMO_MODE"@[0]);
}

/// The answer to `GET:<id>`: `GET:<id>:` and the value: the tournament's
/// format (or `false`), the published bracket, the bracket file with its
/// lines joined by commas, the move delay or the move time in seconds, or
/// the demo flag; any other id is refused.
pub open spec fn get_answer(s: Server, to: u64, data_id: Seq<char>, bracket_file: Seq<char>, r: Result<Vec<Action>, String>) -> bool {
    let id = data_id;
    let prefix = get_prefix_text(id);
    &&& id == "TOURNAMENT_STATUS"@ ==> (r matches Ok(a) && a@.len() == 1 && sends(
        a@[0],
        to,
        prefix + match s.tournament {
            Some(Tournament::RoundRobin(_)) => "RoundRobin"@,
            Some(Tournament::KnockoutBracket(_)) => "KnockoutBracket"@,
            None => "false"@,
        },
    ))
    &&& id == "TOURNAMENT_DATA"@ ==> (r matches Ok(a) && a@.len() == 1 && sends(
        a@[0],
        to,
        prefix + match s.tournament {
            Some(Tournament::KnockoutBracket(t)) => if t.started {
                bracket_text(rounds_view(t.data@))
            } else {
                Seq::empty()
            },
            _ => Seq::empty(),
        },
    ))
    &&& id == "BRACKET_PAIRINGS"@ ==> (r matches Ok(a) && a@.len() == 1 && sends(
        a@[0],
        to,
        prefix + replace_char(bracket_file, '\n', ","@),
    ))
    &&& id == "MOVE_WAIT"@ ==> (r matches Ok(a) && a@.len() == 1 && sends_seconds(a@[0], to, prefix, s.waiting_timeout))
    &&& id == "MAX_TIMEOUT"@ ==> (r matches Ok(a) && a@.len() == 1 && sends_seconds(a@[0], to, prefix, s.max_timeout))
    &&& id == "DEMO_MODE"@ ==> (r matches Ok(a) && a@.len() == 1 && sends(
        a@[0],
        to,
        prefix + bool_text(s.demo_mode),
    ))
    &&& (id != "TOURNAMENT_STATUS"@ && id != "TOURNAMENT_DATA"@ && id != "BRACKET_PAIRINGS"@ && id
        != "MOVE_WAIT"@ && id != "MAX_TIMEOUT"@ && id != "DEMO_MODE"@) ==> (r matches Err(e) && e@
        == "ERROR:INVALID:GET"@)
}

/// What `SET:<id>:<value>` does: for the administrator, the demo flag, the
/// move delay or the move time (`millis`, the value read as seconds, in
/// milliseconds) changes and is acknowledged, or the bracket file is to be
/// written; a malformed value or any other id is refused.
pub open spec fn set_outcome(
    old: Server,
    new: Server,
    addr: u64,
    data_id: Seq<char>,
    data_value: Seq<char>,
    millis: Option<u64>,
    r: Result<Vec<Action>, String>,
) -> bool {
    let id = data_id;
    let ack = set_ack_text(id);
    let refused = r matches Err(e) && e@ == "ERROR:INVALID:SET"@ && new == old;
    let acked = r matches Ok(a) && a@.len() == 1 && sends(a@[0], addr, ack);
    &&& old.admin != Some(addr) ==> (r matches Err(e) && e@ == "ERROR:INVALID:AUTH"@)
        && new == old
    &&& old.admin == Some(addr) ==> {
        &&& id == "DEMO_MODE"@ ==> match parse_bool(data_value) {
            Some(b) => acked && new == (Server { demo_mode: b, ..old }),
            None => refused,
        }
        &&& id == "MOVE_WAIT"@ ==> match millis {
            Some(m) => acked && new == (Server { waiting_timeout: m, ..old }),
            None => refused,
        }
        &&& id == "MAX_TIMEOUT"@ ==> match millis {
            Some(m) => acked && new == (Server { max_timeout: m, ..old }),
            None => refused,
        }
        &&& id == "BRACKET_PAIRINGS"@ ==> {
            &&& new == old
            &&& r matches Ok(a) && a@.len() == 1 && writes_bracket(
                a@[0],
                replace_char(data_value, ',', "\n"@),
                addr,
                ack,
            )
        }
        &&& (id != "DEMO_MODE"@ && id != "MOVE_WAIT"@ && id != "MAX_TIMEOUT"@ && id
            != "BRACKET_PAIRINGS"@) ==> refused
    }
}

impl Server {
    /// Authenticates the administrator: refused while an administrator is
    /// authenticated or with a wrong password.
    pub fn handle_admin_auth(&mut self, addr: u64, password: &String) -> (r: Result<Vec<Action>, String>)
        ensures
            (old(self).admin is Some || password@ != old(self).admin_password@) ==> {
                &&& r matches Err(e) && e@ == "ERROR:INVALID:AUTH"@
                &&& *final(self) == *old(self)
            },
            (old(self).admin is None && password@ == old(self).admin_password@) ==> {
                &&& r matches Ok(a) && a@.len() == 1 && sends(a@[0], addr, "ADMIN:AUTH:ACK"@)
                &&& *final(self) == (Server { admin: Some(addr), ..*old(self) })
            },
    {
        if self.admin.is_some() {
            return Err(String::from_str("ERROR:INVALID:AUTH"));
        }
        if *password != self.admin_password {
            return Err(String::from_str("ERROR:INVALID:AUTH"));
        }
        self.admin = Some(addr);
        let mut actions: Vec<Action> = Vec::new();
        actions.push(Action::Send { to: addr, text: String::from_str("ADMIN:AUTH:ACK") });
        Ok(actions)
    }

    /// Closes a player's connection, for the administrator.
    pub fn handle_admin_kick(&self, addr: u64, kick_username: &String) -> (r: Result<Vec<Action>, String>)
        requires
            self.wf(),
        ensures
            self.admin != Some(addr) ==> (r matches Err(e) && e@ == "ERROR:INVALID:AUTH"@),
            self.admin == Some(addr) && !has_client(self.clients@, kick_username@) ==> (r matches Err(e) && e@
                == "ERROR:INVALID:KICK"@),
            self.admin == Some(addr) && has_client(self.clients@, kick_username@) ==> {
                &&& r matches Ok(a) && a@.len() == 1 && a@[0] == (Action::Close {
                    to: self.clients@[crate::server::client_index(self.clients@, kick_username@)].addr,
                })
            },
    {
        if !self.auth_check(addr) {
            return Err(String::from_str("ERROR:INVALID:AUTH"));
        }
        match self.find_client(kick_username) {
            Some(i) => {
                let mut actions: Vec<Action> = Vec::new();
                actions.push(Action::Close { to: self.clients[i].addr });
                Ok(actions)
            },
            None => Err(String::from_str("ERROR:INVALID:KICK")),
        }
    }

    /// Deletes every reservation of the two players (in this order), for the
    /// administrator.
    pub fn handle_reservation_delete(&mut self, addr: u64, player1: &String, player2: &String) -> (r: Result<
        Vec<Action>,
        String,
    >)
        ensures
            old(self).admin != Some(addr) ==> (r matches Err(e) && e@ == "ERROR:INVALID:AUTH"@) && *final(self)
                == *old(self),
            old(self).admin == Some(addr) ==> {
                &&& pairs_view(final(self).reservations@) == without_pair(
                    pairs_view(old(self).reservations@),
                    player1@,
                    player2@,
                )
                &&& *final(self) == (Server { reservations: final(self).reservations, ..*old(self) })
                &&& r matches Ok(a) && a@.len() == 1 && sends(
                    a@[0],
                    addr,
                    reservation_deleted_text(player1@, player2@),
                )
            },
    {
        if !self.auth_check(addr) {
            return Err(String::from_str("ERROR:INVALID:AUTH"));
        }
        remove_pair(&mut self.reservations, player1, player2);
        let mut actions: Vec<Action> = Vec::new();
        actions.push(Action::Send { to: addr, text: reservation_deleted_message(player1, player2) });
        Ok(actions)
    }

    /// Lists the reservations, for the administrator.
    pub fn handle_reservation_get(&self, addr: u64) -> (r: Result<Vec<Action>, String>)
        ensures
            self.admin != Some(addr) ==> (r matches Err(e) && e@ == "ERROR:INVALID:AUTH"@),
            self.admin == Some(addr) ==> (r matches Ok(a) && a@.len() == 1 && sends(
                a@[0],
                addr,
                reservation_list_text(pairs_view(self.reservations@)),
            )),
    {
        if !self.auth_check(addr) {
            return Err(String::from_str("ERROR:INVALID:AUTH"));
        }
        let ghost rs = pairs_view(self.reservations@);
        let mut msg = String::from_str("RESERVATION:LIST:");
        let mut i: usize = 0;
        assert(rs.take(0) =~= Seq::<(Seq<char>, Seq<char>)>::empty());
        while i < self.reservations.len()
            invariant
                i <= self.reservations@.len(),
                rs == pairs_view(self.reservations@),
                msg@ == "RESERVATION:LIST:"@ + reservation_entries(rs.take(i as int)),
            decreases self.reservations@.len() - i,
        {
            msg.append(self.reservations[i].0.as_str());
            msg.append(",");
            msg.append(self.reservations[i].1.as_str());
            msg.append("|");
            assert(rs.take(i + 1).drop_last() =~= rs.take(i as int));
            assert(rs.take(i + 1).last() == (self.reservations@[i as int].0@, self.reservations@[i as int].1@));
            assert(msg@ =~= "RESERVATION:LIST:"@ + reservation_entries(rs.take(i + 1)));
            i = i + 1;
        }
        assert(rs.take(rs.len() as int) =~= rs);
        if self.reservations.len() > 0 {
            msg = pop_char(msg);
        }
        let mut actions: Vec<Action> = Vec::new();
        actions.push(Action::Send { to: addr, text: msg });
        Ok(actions)
    }

    /// Lists the players: name, whether ready, whether in a match.
    pub fn handle_player_list(&self, to: u64) -> (r: Result<Vec<Action>, String>)
        ensures
            r matches Ok(a) && a@.len() == 1 && sends(a@[0], to, player_list_text(self.clients@)),
    {
        let mut msg = String::from_str("PLAYER:LIST:");
        let mut i: usize = 0;
        assert(self.clients@.take(0) =~= Seq::<Client>::empty());
        while i < self.clients.len()
            invariant
                i <= self.clients@.len(),
                msg@ == "PLAYER:LIST:"@ + player_entries(self.clients@.take(i as int)),
            decreases self.clients@.len() - i,
        {
            let c = &self.clients[i];
            msg.append(c.username.as_str());
            msg.append(",");
            if c.ready {
                msg.append("true");
            } else {
                msg.append("false");
            }
            msg.append(",");
            if c.current_match.is_some() {
                msg.append("true");
            } else {
                msg.append("false");
            }
            msg.append("|");
            assert(self.clients@.take(i + 1).drop_last() =~= self.clients@.take(i as int));
            assert(msg@ =~= "PLAYER:LIST:"@ + player_entries(self.clients@.take(i + 1)));
            i = i + 1;
        }
        assert(self.clients@.take(self.clients@.len() as int) =~= self.clients@);
        if self.clients.len() > 0 {
            msg = pop_char(msg);
        }
        let mut actions: Vec<Action> = Vec::new();
        actions.push(Action::Send { to, text: msg });
        Ok(actions)
    }

    /// Lists the matches: id and players.
    pub fn handle_game_list(&self, to: u64) -> (r: Result<Vec<Action>, String>)
        ensures
            r matches Ok(a) && a@.len() == 1 && sends(a@[0], to, game_list_text(self.matches@)),
    {
        let mut msg = String::from_str("GAME:LIST:");
        let mut i: usize = 0;
        assert(self.matches@.take(0) =~= Seq::<Match>::empty());
        while i < self.matches.len()
            invariant
                i <= self.matches@.len(),
                msg@ == "GAME:LIST:"@ + game_entries(self.matches@.take(i as int)),
            decreases self.matches@.len() - i,
        {
            let m = &self.matches[i];
            let id = decimal_string(m.id as u64);
            msg.append(id.as_str());
            msg.append(",");
            msg.append(m.player1.as_str());
            msg.append(",");
            msg.append(m.player2.as_str());
            msg.append("|");
            assert(self.matches@.take(i + 1).drop_last() =~= self.matches@.take(i as int));
            assert(msg@ =~= "GAME:LIST:"@ + game_entries(self.matches@.take(i + 1)));
            i = i + 1;
        }
        assert(self.matches@.take(self.matches@.len() as int) =~= self.matches@);
        if self.matches.len() > 0 {
            msg = pop_char(msg);
        }
        let mut actions: Vec<Action> = Vec::new();
        actions.push(Action::Send { to, text: msg });
        Ok(actions)
    }

    /// Sends the players and moves of a match to a watcher. An unknown match
    /// stops the handler.
    pub fn handle_game_watch(&self, to: u64, match_id: u32) -> (r: Result<Vec<Action>, String>)
        requires
            self.wf(),
        ensures
            (forall|i: int| 0 <= i < self.matches@.len() ==> self.matches@[i].id != match_id) ==> (r matches Ok(a)
                && a@.len() == 1 && a@[0] is Halt),
            forall|i: int| #[trigger] crate::server::match_at(self.matches@, match_id, i) ==> (r matches Ok(a)
                && a@.len() == 1 && sends(a@[0], to, watch_text(self.matches@[i]))),
    {
        let mut actions: Vec<Action> = Vec::new();
        let idx = match self.find_match(match_id) {
            Some(i) => i,
            None => {
                actions.push(Action::Halt);
                return Ok(actions);
            },
        };
        proof {
            assert forall|i: int| #[trigger] crate::server::match_at(self.matches@, match_id, i) implies i == idx by {
                if i != idx {
                    assert(self.matches@[i].id != self.matches@[idx as int].id);
                }
            }
        }
        let m = &self.matches[idx];
        let mut msg = String::from_str("GAME:WATCH:ACK:");
        let id = decimal_string(match_id as u64);
        msg.append(id.as_str());
        msg.append(",");
        msg.append(m.player1.as_str());
        msg.append(",");
        msg.append(m.player2.as_str());
        msg.append("|");
        let ghost head = msg@;
        let mut k: usize = 0;
        assert(m.ledger@.take(0) =~= Seq::<(Color, usize, u64)>::empty());
        while k < m.ledger.len()
            invariant
                k <= m.ledger@.len(),
                msg@ == head + watched_moves(m.ledger@.take(k as int), m.player1@, m.player2@),
            decreases m.ledger@.len() - k,
        {
            if m.ledger[k].0 == Color::Red {
                msg.append(m.player1.as_str());
            } else {
                msg.append(m.player2.as_str());
            }
            msg.append(",");
            let col = decimal_string(m.ledger[k].1 as u64);
            msg.append(col.as_str());
            msg.append("|");
            assert(m.ledger@.take(k + 1).drop_last() =~= m.ledger@.take(k as int));
            assert(msg@ =~= head + watched_moves(m.ledger@.take(k + 1), m.player1@, m.player2@));
            k = k + 1;
        }
        assert(m.ledger@.take(m.ledger@.len() as int) =~= m.ledger@);
        msg = pop_char(msg);
        actions.push(Action::Send { to, text: msg });
        Ok(actions)
    }

    /// Answers `GET:<id>` with `GET:<id>:` and the value: the tournament's
    /// format (or `false`), the published bracket, the bracket file with its
    /// lines joined by commas, the move delay or the move time in seconds,
    /// or the demo flag. `bracket_file` is the bracket file's content (empty
    /// if it cannot be read).
    pub fn handle_get_data(&self, to: u64, data_id: &String, bracket_file: &str) -> (r: Result<Vec<Action>, String>)
        ensures
            get_answer(*self, to, data_id@, bracket_file@, r),
    {
        proof {
            lemma_setting_names();
        }
        let mut msg = get_prefix_message(data_id);
        let mut actions: Vec<Action> = Vec::new();
        if *data_id == String::from_str("TOURNAMENT_STATUS") {
            match &self.tournament {
                Some(t) => {
                    let kind = t.get_type();
                    msg.append(kind.as_str());
                },
                None => {
                    msg.append("false");
                },
            }
        } else if *data_id == String::from_str("TOURNAMENT_DATA") {
            match &self.tournament {
                Some(t) => {
                    match t.get_data() {
                        Some(d) => {
                            msg.append(d.as_str());
                        },
                        None => {
                            assert(msg@ =~= msg@ + Seq::<char>::empty());
                        },
                    }
                },
                None => {
                    assert(msg@ =~= msg@ + Seq::<char>::empty());
                },
            }
        } else if *data_id == String::from_str("BRACKET_PAIRINGS") {
            let joined = replace_char_text(bracket_file, '\n', ",");
            msg.append(joined.as_str());
        } else if *data_id == String::from_str("MOVE_WAIT") {
            actions.push(Action::SendSeconds { to, prefix: msg, millis: self.waiting_timeout });
            return Ok(actions);
        } else if *data_id == String::from_str("DEMO_MODE") {
            if self.demo_mode {
                msg.append("true");
            } else {
                msg.append("false");
            }
        } else if *data_id == String::from_str("MAX_TIMEOUT") {
            actions.push(Action::SendSeconds { to, prefix: msg, millis: self.max_timeout });
            return Ok(actions);
        } else {
            return Err(String::from_str("ERROR:INVALID:GET"));
        }
        actions.push(Action::Send { to, text: msg });
        Ok(actions)
    }

    /// Changes a setting, for the administrator: the demo flag (`true` or
    /// `false`), the move delay or the move time (`millis` is the value read
    /// as seconds and turned into milliseconds, `None` if it is no number),
    /// or the bracket file (commas become line breaks; it is written by the
    /// front end, which acknowledges).
    pub fn handle_set_data(&mut self, addr: u64, data_id: &String, data_value: &String, millis: Option<u64>) -> (r:
        Result<Vec<Action>, String>)
        ensures
            set_outcome(*old(self), *final(self), addr, data_id@, data_value@, millis, r),
    {
        proof {
            lemma_setting_names();
        }
        if !self.auth_check(addr) {
            return Err(String::from_str("ERROR:INVALID:AUTH"));
        }
        let mut actions: Vec<Action> = Vec::new();
        if *data_id == String::from_str("DEMO_MODE") {
            match parse_bool_text(data_value.as_str()) {
                Some(b) => {
                    self.demo_mode = b;
                },
                None => {
                    return Err(String::from_str("ERROR:INVALID:SET"));
                },
            }
        } else if *data_id == String::from_str("MOVE_WAIT") {
            match millis {
                Some(m) => {
                    self.waiting_timeout = m;
                },
                None => {
                    return Err(String::from_str("ERROR:INVALID:SET"));
                },
            }
        } else if *data_id == String::from_str("MAX_TIMEOUT") {
            match millis {
                Some(m) => {
                    self.max_timeout = m;
                },
                None => {
                    return Err(String::from_str("ERROR:INVALID:SET"));
                },
            }
        } else if *data_id == String::from_str("BRACKET_PAIRINGS") {
            let contents = replace_char_text(data_value.as_str(), ',', "\n");
            actions.push(Action::WriteBracketFile { contents, to: addr, ack: set_ack_message(data_id) });
            return Ok(actions);
        } else {
            return Err(String::from_str("ERROR:INVALID:SET"));
        }
        actions.push(Action::Send { to: addr, text: set_ack_message(data_id) });
        Ok(actions)
    }
}

/// Reading the demo flag back after the administrator set it answers the
/// flag set: `SET:DEMO_MODE:<b>` then `GET:DEMO_MODE` gives
/// `GET:DEMO_MODE:<b>`.
pub proof fn law_demo_mode_round_trip(
    old: Server,
    new: Server,
    addr: u64,
    b: bool,
    millis: Option<u64>,
    r1: Result<Vec<Action>, String>,
    to: u64,
    bracket_file: Seq<char>,
    r2: Result<Vec<Action>, String>,
)
    requires
        old.admin == Some(addr),
        set_outcome(old, new, addr, "DEMO_MODE"@, bool_text(b), millis, r1),
        get_answer(new, to, "DEMO_MODE"@, bracket_file, r2),
    ensures
        r1 is Ok,
        r2 matches Ok(a) && a@.len() == 1 && sends(a@[0], to, get_prefix_text("DEMO_MODE"@) + bool_text(b)),
{
    lemma_setting_names();
    crate::text::law_bool_round_trip(b);
}

/// Reading a time setting back after the administrator set it answers the
/// value set: `SET:MOVE_WAIT:<v>` (or `MAX_TIMEOUT`) read as `m`
/// milliseconds, then `GET` of the same setting, gives `m` in seconds.
pub proof fn law_time_setting_round_trip(
    old: Server,
    new: Server,
    addr: u64,
    id: Seq<char>,
    value: Seq<char>,
    m: u64,
    r1: Result<Vec<Action>, String>,
    to: u64,
    bracket_file: Seq<char>,
    r2: Result<Vec<Action>, String>,
)
    requires
        old.admin == Some(addr),
        id == "MOVE_WAIT"@ || id == "MAX_TIMEOUT"@,
        set_outcome(old, new, addr, id, value, Some(m), r1),
        get_answer(new, to, id, bracket_file, r2),
    ensures
        r1 is Ok,
        r2 matches Ok(a) && a@.len() == 1 && sends_seconds(a@[0], to, get_prefix_text(id), m),
{
    lemma_setting_names();
}

} // verus!
