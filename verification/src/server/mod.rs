//! The moderator's state and its answers to the players, observers and the
//! administrator. Each handler takes the state and a request and gives the
//! new state and the actions for the network front end to carry out.
use vstd::prelude::*;
use crate::tournaments::Tournament;
use crate::types::{Client, Color, Match};
use vstd::string::*;

pub mod admin;
pub mod contests;
pub mod games;
pub mod matchmaking;
pub mod outcomes;
pub mod play;
pub mod progress;
pub mod readiness;
pub mod results;
pub mod session;

verus! {

/// One step of a delayed delivery.
#[derive(Debug)]
pub enum Step {
    /// Wait this many milliseconds.
    Sleep(u64),
    /// Send to the player's connection at the time of sending.
    ToPlayer { name: String, text: String },
    /// Send to a connection.
    ToConnection { to: u64, text: String },
    /// Send to every observer at the time of sending.
    ToObservers { text: String },
}

/// What the network front end is asked to do.
#[derive(Debug)]
pub enum Action {
    /// Send a text message to a connection.
    Send { to: u64, text: String },
    /// Send a text message to every observer.
    Broadcast { text: String },
    /// Close a connection.
    Close { to: u64 },
    /// Cancel the pending delivery of a match.
    AbortWait { match_id: u32 },
    /// Cancel the move timer of a match.
    AbortTimeout { match_id: u32 },
    /// Run these steps in the background, as the match's pending delivery.
    Deliver { match_id: u32, steps: Vec<Step> },
    /// Start the move timer of a match: after `delay` milliseconds, call
    /// `Server::handle_move_timeout` with these values.
    StartTimeout {
        match_id: u32,
        delay: u64,
        ledger_size: usize,
        mover: String,
        mover_addr: u64,
        player1: String,
        player2: String,
    },
    /// Send `prefix` followed by `millis` written in seconds.
    SendSeconds { to: u64, prefix: String, millis: u64 },
    /// Write the bracket file; on success send `ack` to `to`, on failure
    /// send `ERROR:INVALID:SET` instead.
    WriteBracketFile { contents: String, to: u64, ack: String },
    /// The handler stops here: the state cannot be handled any further.
    Halt,
}

/// The action sends `text` to the connection `to`.
pub open spec fn sends(a: Action, to: u64, text: Seq<char>) -> bool {
    a matches Action::Send { to: t, text: x } && t == to && x@ == text
}

/// The action sends `text` to every observer.
pub open spec fn broadcasts(a: Action, text: Seq<char>) -> bool {
    a matches Action::Broadcast { text: x } && x@ == text
}

/// The action sends `prefix` and a number of milliseconds in seconds.
pub open spec fn sends_seconds(a: Action, to: u64, prefix: Seq<char>, millis: u64) -> bool {
    a matches Action::SendSeconds { to: t, prefix: p, millis: m } && t == to && p@ == prefix && m == millis
}

/// The action writes the bracket file, then acknowledges.
pub open spec fn writes_bracket(a: Action, contents: Seq<char>, to: u64, ack: Seq<char>) -> bool {
    a matches Action::WriteBracketFile { contents: c, to: t, ack: k } && c@ == contents && t == to && k@ == ack
}

/// The client at index `i` has the given name.
pub open spec fn client_at(cs: Seq<Client>, name: Seq<char>, i: int) -> bool {
    0 <= i < cs.len() && cs[i].username@ == name
}

/// A client has the given name.
pub open spec fn has_client(cs: Seq<Client>, name: Seq<char>) -> bool {
    exists|i: int| client_at(cs, name, i)
}

/// The index of the client with the given name.
pub open spec fn client_index(cs: Seq<Client>, name: Seq<char>) -> int {
    choose|i: int| client_at(cs, name, i)
}

/// No two clients share a name.
pub open spec fn unique_names(cs: Seq<Client>) -> bool {
    forall|i: int, j: int| 0 <= i < cs.len() && 0 <= j < cs.len() && i != j ==> cs[i].username@ != cs[j].username@
}

/// The entry at index `i` is for the connection `addr`.
pub open spec fn entry_at(us: Seq<(u64, String)>, addr: u64, i: int) -> bool {
    0 <= i < us.len() && us[i].0 == addr
}

/// The name under which the connection `addr` plays, if any.
pub open spec fn name_of(us: Seq<(u64, String)>, addr: u64) -> Option<Seq<char>> {
    if exists|i: int| entry_at(us, addr, i) {
        Some(us[choose|i: int| entry_at(us, addr, i)].1@)
    } else {
        None
    }
}

/// No two entries for the same connection.
pub open spec fn unique_addrs(us: Seq<(u64, String)>) -> bool {
    forall|i: int, j: int| 0 <= i < us.len() && 0 <= j < us.len() && i != j ==> us[i].0 != us[j].0
}

/// The match at index `i` has the given id.
pub open spec fn match_at(ms: Seq<Match>, id: u32, i: int) -> bool {
    0 <= i < ms.len() && ms[i].id == id
}

/// A client in a match is one of its two players, holding red when it is
/// the first player and yellow when it is the second.
pub open spec fn seated(c: Client, m: Match) -> bool {
    if c.username@ == m.player1@ {
        c.color == Color::Red
    } else {
        c.username@ == m.player2@ && c.color == Color::Yellow
    }
}

/// Every client in a match is seated in it.
pub open spec fn colors_ok(cs: Seq<Client>, ms: Seq<Match>) -> bool {
    forall|ci: int, mi: int|
        0 <= ci < cs.len() && 0 <= mi < ms.len() && #[trigger] cs[ci].current_match == Some(#[trigger] ms[mi].id)
            ==> seated(cs[ci], ms[mi])
}

/// No client plays under the server's own name.
pub open spec fn no_server_client(cs: Seq<Client>) -> bool {
    forall|ci: int| 0 <= ci < cs.len() ==> (#[trigger] cs[ci]).username@ != "demo"@
}

/// Every client in a match is in one that exists.
pub open spec fn matches_exist(cs: Seq<Client>, ms: Seq<Match>) -> bool {
    forall|ci: int|
        #![trigger cs[ci]]
        0 <= ci < cs.len() && cs[ci].current_match is Some ==> crate::server::contests::has_match(
            ms,
            cs[ci].current_match->Some_0,
        )
}

/// A match with a fresh id can be added: no client is in it yet.
pub proof fn lemma_seated_add(cs: Seq<Client>, ms: Seq<Match>, m: Match)
    requires
        colors_ok(cs, ms),
        matches_exist(cs, ms),
        forall|i: int| 0 <= i < ms.len() ==> ms[i].id != m.id,
    ensures
        colors_ok(cs, ms.push(m)),
        matches_exist(cs, ms.push(m)),
{
    let ms2 = ms.push(m);
    assert forall|ci: int, mi: int|
        0 <= ci < cs.len() && 0 <= mi < ms2.len() && #[trigger] cs[ci].current_match == Some(#[trigger] ms2[mi].id)
            implies seated(cs[ci], ms2[mi]) by {
        if mi < ms.len() {
            assert(ms2[mi] == ms[mi]);
        } else {
            assert(cs[ci].current_match is Some);
            let j = choose|j: int| #[trigger] match_at(ms, cs[ci].current_match->Some_0, j);
            assert(ms[j].id == m.id);
        }
    }
    assert forall|ci: int| 0 <= ci < cs.len() && (#[trigger] cs[ci]).current_match is Some implies crate::server::contests::has_match(
        ms2,
        cs[ci].current_match->Some_0,
    ) by {
        let j = choose|j: int| #[trigger] match_at(ms, cs[ci].current_match->Some_0, j);
        assert(match_at(ms2, cs[ci].current_match->Some_0, j));
    }
}

/// A client can join an existing match in which it is then seated.
pub proof fn lemma_seated_join(cs: Seq<Client>, ms: Seq<Match>, i: int, mi: int, color: Color)
    requires
        colors_ok(cs, ms),
        matches_exist(cs, ms),
        unique_ids(ms),
        0 <= i < cs.len(),
        0 <= mi < ms.len(),
        seated(crate::server::matchmaking::joined(cs[i], ms[mi].id, color), ms[mi]),
    ensures
        colors_ok(cs.update(i, crate::server::matchmaking::joined(cs[i], ms[mi].id, color)), ms),
        matches_exist(cs.update(i, crate::server::matchmaking::joined(cs[i], ms[mi].id, color)), ms),
{
    let cs2 = cs.update(i, crate::server::matchmaking::joined(cs[i], ms[mi].id, color));
    assert forall|ci: int, mj: int|
        0 <= ci < cs2.len() && 0 <= mj < ms.len() && #[trigger] cs2[ci].current_match == Some(#[trigger] ms[mj].id)
            implies seated(cs2[ci], ms[mj]) by {
        if ci == i {
            if mj != mi {
                assert(ms[mj].id != ms[mi].id);
            }
        } else {
            assert(cs2[ci] == cs[ci]);
        }
    }
    assert forall|ci: int| 0 <= ci < cs2.len() && (#[trigger] cs2[ci]).current_match is Some implies crate::server::contests::has_match(
        ms,
        cs2[ci].current_match->Some_0,
    ) by {
        if ci == i {
            assert(match_at(ms, ms[mi].id, mi));
        } else {
            assert(cs2[ci] == cs[ci]);
        }
    }
}

/// A client can leave its match.
pub proof fn lemma_seated_release(cs: Seq<Client>, ms: Seq<Match>, i: int)
    requires
        colors_ok(cs, ms),
        matches_exist(cs, ms),
        0 <= i < cs.len(),
    ensures
        colors_ok(cs.update(i, crate::server::games::released(cs[i])), ms),
        matches_exist(cs.update(i, crate::server::games::released(cs[i])), ms),
{
    let cs2 = cs.update(i, crate::server::games::released(cs[i]));
    assert forall|ci: int, mj: int|
        0 <= ci < cs2.len() && 0 <= mj < ms.len() && #[trigger] cs2[ci].current_match == Some(#[trigger] ms[mj].id)
            implies seated(cs2[ci], ms[mj]) by {
        assert(ci != i);
        assert(cs2[ci] == cs[ci]);
    }
    assert forall|ci: int| 0 <= ci < cs2.len() && (#[trigger] cs2[ci]).current_match is Some implies crate::server::contests::has_match(
        ms,
        cs2[ci].current_match->Some_0,
    ) by {
        assert(ci != i);
        assert(cs2[ci] == cs[ci]);
    }
}

/// A match nobody is in any more can be removed.
pub proof fn lemma_seated_remove(cs: Seq<Client>, ms: Seq<Match>, idx: int)
    requires
        colors_ok(cs, ms),
        matches_exist(cs, ms),
        0 <= idx < ms.len(),
        forall|ci: int| 0 <= ci < cs.len() ==> #[trigger] cs[ci].current_match != Some(ms[idx].id),
    ensures
        colors_ok(cs, ms.remove(idx)),
        matches_exist(cs, ms.remove(idx)),
{
    let ms2 = ms.remove(idx);
    assert forall|ci: int, mj: int|
        0 <= ci < cs.len() && 0 <= mj < ms2.len() && #[trigger] cs[ci].current_match == Some(#[trigger] ms2[mj].id)
            implies seated(cs[ci], ms2[mj]) by {
        if mj < idx {
            assert(ms2[mj] == ms[mj]);
        } else {
            assert(ms2[mj] == ms[mj + 1]);
        }
    }
    assert forall|ci: int| 0 <= ci < cs.len() && (#[trigger] cs[ci]).current_match is Some implies crate::server::contests::has_match(
        ms2,
        cs[ci].current_match->Some_0,
    ) by {
        let j = choose|j: int| #[trigger] match_at(ms, cs[ci].current_match->Some_0, j);
        assert(j != idx);
        if j < idx {
            assert(match_at(ms2, cs[ci].current_match->Some_0, j));
        } else {
            assert(ms2[j - 1] == ms[j]);
            assert(match_at(ms2, cs[ci].current_match->Some_0, j - 1));
        }
    }
}

/// A match can change its board and moves, keeping its id and players.
pub proof fn lemma_seated_update(cs: Seq<Client>, ms: Seq<Match>, idx: int, m: Match)
    requires
        colors_ok(cs, ms),
        matches_exist(cs, ms),
        0 <= idx < ms.len(),
        m.id == ms[idx].id,
        m.player1@ == ms[idx].player1@,
        m.player2@ == ms[idx].player2@,
    ensures
        colors_ok(cs, ms.update(idx, m)),
        matches_exist(cs, ms.update(idx, m)),
{
    let ms2 = ms.update(idx, m);
    assert forall|ci: int, mj: int|
        0 <= ci < cs.len() && 0 <= mj < ms2.len() && #[trigger] cs[ci].current_match == Some(#[trigger] ms2[mj].id)
            implies seated(cs[ci], ms2[mj]) by {
        assert(cs[ci].current_match == Some(ms[mj].id));
    }
    assert forall|ci: int| 0 <= ci < cs.len() && (#[trigger] cs[ci]).current_match is Some implies crate::server::contests::has_match(
        ms2,
        cs[ci].current_match->Some_0,
    ) by {
        let j = choose|j: int| #[trigger] match_at(ms, cs[ci].current_match->Some_0, j);
        assert(match_at(ms2, cs[ci].current_match->Some_0, j));
    }
}

/// In every state the handlers leave (each keeps `wf`), every match is the
/// game its moves describe: its moves alternate in colour starting with
/// red, replaying them on a blank board gives its board, and each client
/// in the match is its first player holding red or its second holding
/// yellow.
pub proof fn law_matches_replay_their_moves(s: Server, i: int, ci: int)
    requires
        s.wf(),
        0 <= i < s.matches@.len(),
    ensures
        forall|k: int|
            0 <= k < s.matches@[i].ledger@.len() ==> (#[trigger] s.matches@[i].ledger@[k]).0
                == crate::types::turn_color(k),
        crate::types::board_view(&s.matches@[i].board) == crate::types::replay(s.matches@[i].ledger@),
        0 <= ci < s.clients@.len() && s.clients@[ci].current_match == Some(s.matches@[i].id) ==> (
        s.clients@[ci].username@ == s.matches@[i].player1@ && s.clients@[ci].color == Color::Red) || (
        s.clients@[ci].username@ == s.matches@[i].player2@ && s.clients@[ci].username@ != s.matches@[i].player1@
            && s.clients@[ci].color == Color::Yellow),
{
    assert(s.matches@[i].ledger_ok());
    if 0 <= ci < s.clients@.len() && s.clients@[ci].current_match == Some(s.matches@[i].id) {
        assert(seated(s.clients@[ci], s.matches@[i]));
    }
}

/// No two matches share an id.
pub open spec fn unique_ids(ms: Seq<Match>) -> bool {
    forall|i: int, j: int| 0 <= i < ms.len() && 0 <= j < ms.len() && i != j ==> ms[i].id != ms[j].id
}

/// With unique names, the client found by name is the one at `i`.
pub proof fn lemma_client_index(cs: Seq<Client>, name: Seq<char>, i: int)
    requires
        unique_names(cs),
        client_at(cs, name, i),
    ensures
        client_index(cs, name) == i,
        has_client(cs, name),
{
    let j = client_index(cs, name);
    assert(client_at(cs, name, j));
}

/// With unique connections, the name found for `addr` is the one at `i`.
pub proof fn lemma_name_of(us: Seq<(u64, String)>, addr: u64, i: int)
    requires
        unique_addrs(us),
        entry_at(us, addr, i),
    ensures
        name_of(us, addr) == Some(us[i].1@),
{
    let j = choose|j: int| entry_at(us, addr, j);
    assert(entry_at(us, addr, j));
}

/// The connection-to-name table by views.
pub open spec fn names_view(us: Seq<(u64, String)>) -> Seq<(u64, Seq<char>)> {
    us.map_values(|e: (u64, String)| (e.0, e.1@))
}

/// The table after `addr` is set to play under `name`: its entry is
/// replaced, or added at the end.
pub open spec fn with_name(us: Seq<(u64, Seq<char>)>, addr: u64, name: Seq<char>) -> Seq<(u64, Seq<char>)> {
    if exists|i: int| 0 <= i < us.len() && us[i].0 == addr {
        us.update(choose|i: int| 0 <= i < us.len() && us[i].0 == addr, (addr, name))
    } else {
        us.push((addr, name))
    }
}

/// The table without the entries of `addr`.
pub open spec fn without_entry(us: Seq<(u64, Seq<char>)>, addr: u64) -> Seq<(u64, Seq<char>)>
    decreases us.len(),
{
    if us.len() == 0 {
        us
    } else if us.last().0 == addr {
        without_entry(us.drop_last(), addr)
    } else {
        without_entry(us.drop_last(), addr).push(us.last())
    }
}

/// A control character (general category Cc), as `char::is_control` tests.
pub open spec fn is_control(c: char) -> bool {
    (c as u32) <= 0x1f || (0x7f <= (c as u32) && (c as u32) <= 0x9f)
}

/// A name a player may take: not empty, none of `:`, `,`, `|` or a control
/// character, and not the server's own name.
pub open spec fn valid_username(name: Seq<char>) -> bool {
    &&& name.len() > 0
    &&& forall|i: int| 0 <= i < name.len() ==> #[trigger] name[i] != ':' && name[i] != ',' && name[i] != '|'
        && !is_control(name[i])
    &&& name != "demo"@
}

/// Whether a name may be taken.
pub fn valid_username_exec(name: &String) -> (r: bool)
    ensures
        r == valid_username(name@),
{
    let n = name.as_str().unicode_len();
    if n == 0 {
        return false;
    }
    let mut i: usize = 0;
    while i < n
        invariant
            n == name@.len(),
            i <= n,
            forall|k: int| 0 <= k < i ==> #[trigger] name@[k] != ':' && name@[k] != ',' && name@[k] != '|'
                && !is_control(name@[k]),
        decreases n - i,
    {
        let c = name.as_str().get_char(i);
        let code = c as u32;
        if c == ':' || c == ',' || c == '|' || code <= 0x1f || (0x7f <= code && code <= 0x9f) {
            return false;
        }
        i = i + 1;
    }
    if *name == String::from_str(crate::SERVER_PLAYER_USERNAME) {
        return false;
    }
    true
}

/// The moderator's state.
pub struct Server {
    /// The players, by name.
    pub clients: Vec<Client>,
    /// Players whose connection dropped during a match or tournament.
    pub disconnected_clients: Vec<String>,
    /// Which connection plays under which name.
    pub usernames: Vec<(u64, String)>,
    /// The connections that receive broadcasts.
    pub observers: Vec<u64>,
    pub matches: Vec<Match>,
    /// Pairs of players to be matched as soon as both are ready.
    pub reservations: Vec<(String, String)>,
    /// The administrator's connection, once authenticated.
    pub admin: Option<u64>,
    pub admin_password: String,
    pub tournament: Option<Tournament>,
    /// Delay before a move is passed on, in milliseconds.
    pub waiting_timeout: u64,
    /// Time a player has for a move, in milliseconds.
    pub max_timeout: u64,
    pub demo_mode: bool,
}

impl Server {
    /// The state is consistent: names, connections, observers and match ids
    /// are unique; every board is well formed and is what the moves of its
    /// ledger, alternating from red, build; every client in a match is in an
    /// existing one, as its first player holding red or its second holding
    /// yellow; and a tournament is running.
    pub open spec fn wf(&self) -> bool {
        &&& unique_names(self.clients@)
        &&& unique_addrs(self.usernames@)
        &&& self.observers@.no_duplicates()
        &&& unique_ids(self.matches@)
        &&& forall|i: int| 0 <= i < self.matches@.len() ==> (#[trigger] self.matches@[i]).wf()
            && self.matches@[i].ledger_ok() && self.matches@[i].demo_ok()
        &&& no_server_client(self.clients@)
        &&& colors_ok(self.clients@, self.matches@)
        &&& matches_exist(self.clients@, self.matches@)
        &&& self.tournament matches Some(t) ==> t.running()
    }

    /// A moderator with no player, observer, match or tournament; moves are
    /// passed on after 5 s and players have 30 s per move.
    pub fn new(admin_password: String, demo_mode: bool) -> (s: Server)
        ensures
            s.wf(),
            s.clients@.len() == 0,
            s.disconnected_clients@.len() == 0,
            s.usernames@.len() == 0,
            s.observers@.len() == 0,
            s.matches@.len() == 0,
            s.reservations@.len() == 0,
            s.admin is None,
            s.admin_password == admin_password,
            s.tournament is None,
            s.waiting_timeout == 5000,
            s.max_timeout == 30000,
            s.demo_mode == demo_mode,
    {
        Server {
            clients: Vec::new(),
            disconnected_clients: Vec::new(),
            usernames: Vec::new(),
            observers: Vec::new(),
            matches: Vec::new(),
            reservations: Vec::new(),
            admin: None,
            admin_password,
            tournament: None,
            waiting_timeout: 5000,
            max_timeout: 30000,
            demo_mode,
        }
    }

    /// Where the client with the given name is.
    pub fn find_client(&self, name: &String) -> (r: Option<usize>)
        requires
            unique_names(self.clients@),
        ensures
            r matches Some(i) ==> client_at(self.clients@, name@, i as int) && client_index(self.clients@, name@)
                == i,
            r is None ==> !has_client(self.clients@, name@),
    {
        let mut i: usize = 0;
        while i < self.clients.len()
            invariant
                i <= self.clients@.len(),
                unique_names(self.clients@),
                forall|j: int| 0 <= j < i ==> self.clients@[j].username@ != name@,
            decreases self.clients@.len() - i,
        {
            if self.clients[i].username == *name {
                proof {
                    lemma_client_index(self.clients@, name@, i as int);
                }
                return Some(i);
            }
            i = i + 1;
        }
        None
    }

    /// The name under which the connection plays, if any.
    pub fn username_of(&self, addr: u64) -> (r: Option<String>)
        requires
            unique_addrs(self.usernames@),
        ensures
            match r {
                Some(n) => name_of(self.usernames@, addr) == Some(n@),
                None => name_of(self.usernames@, addr) is None,
            },
    {
        let mut i: usize = 0;
        while i < self.usernames.len()
            invariant
                i <= self.usernames@.len(),
                unique_addrs(self.usernames@),
                forall|j: int| 0 <= j < i ==> self.usernames@[j].0 != addr,
            decreases self.usernames@.len() - i,
        {
            if self.usernames[i].0 == addr {
                proof {
                    lemma_name_of(self.usernames@, addr, i as int);
                }
                return Some(self.usernames[i].1.clone());
            }
            i = i + 1;
        }
        None
    }

    /// Where the match with the given id is.
    pub fn find_match(&self, id: u32) -> (r: Option<usize>)
        requires
            unique_ids(self.matches@),
        ensures
            r matches Some(i) ==> match_at(self.matches@, id, i as int),
            r is None ==> forall|i: int| 0 <= i < self.matches@.len() ==> self.matches@[i].id != id,
    {
        let mut i: usize = 0;
        while i < self.matches.len()
            invariant
                i <= self.matches@.len(),
                forall|j: int| 0 <= j < i ==> self.matches@[j].id != id,
            decreases self.matches@.len() - i,
        {
            if self.matches[i].id == id {
                return Some(i);
            }
            i = i + 1;
        }
        None
    }

    /// Whether the connection is the authenticated administrator's.
    pub fn auth_check(&self, addr: u64) -> (r: bool)
        ensures
            r == (self.admin == Some(addr)),
    {
        match self.admin {
            Some(a) => a == addr,
            None => false,
        }
    }

    /// Sets the connection `addr` to play under `name`.
    pub fn set_username(&mut self, addr: u64, name: &String)
        requires
            unique_addrs(old(self).usernames@),
        ensures
            unique_addrs(final(self).usernames@),
            names_view(final(self).usernames@) == with_name(names_view(old(self).usernames@), addr, name@),
            *final(self) == (Server { usernames: final(self).usernames, ..*old(self) }),
    {
        let ghost before = names_view(self.usernames@);
        let mut i: usize = 0;
        while i < self.usernames.len()
            invariant
                i <= self.usernames@.len(),
                *self == *old(self),
                before == names_view(self.usernames@),
                unique_addrs(self.usernames@),
                forall|k: int| 0 <= k < i ==> self.usernames@[k].0 != addr,
            decreases self.usernames@.len() - i,
        {
            if self.usernames[i].0 == addr {
                self.usernames.set(i, (addr, name.clone()));
                proof {
                    let j = choose|j: int| 0 <= j < before.len() && before[j].0 == addr;
                    assert(before[i as int].0 == addr);
                    if j != i {
                        assert(old(self).usernames@[j].0 != old(self).usernames@[i as int].0);
                    }
                    assert(names_view(self.usernames@) =~= before.update(i as int, (addr, name@)));
                }
                return;
            }
            i = i + 1;
        }
        self.usernames.push((addr, name.clone()));
        assert(names_view(self.usernames@) =~= before.push((addr, name@)));
    }

    /// Forgets which name the connection `addr` plays under.
    pub fn remove_username(&mut self, addr: u64)
        requires
            unique_addrs(old(self).usernames@),
        ensures
            unique_addrs(final(self).usernames@),
            names_view(final(self).usernames@) == without_entry(names_view(old(self).usernames@), addr),
            name_of(final(self).usernames@, addr) is None,
            *final(self) == (Server { usernames: final(self).usernames, ..*old(self) }),
    {
        let ghost orig = names_view(self.usernames@);
        let mut kept: Vec<(u64, String)> = Vec::new();
        let mut i: usize = 0;
        assert(orig.take(0) =~= Seq::<(u64, Seq<char>)>::empty());
        assert(names_view(kept@) =~= Seq::<(u64, Seq<char>)>::empty());
        while i < self.usernames.len()
            invariant
                i <= self.usernames@.len(),
                orig == names_view(self.usernames@),
                self.usernames == old(self).usernames,
                unique_addrs(self.usernames@),
                names_view(kept@) == without_entry(orig.take(i as int), addr),
                forall|k: int| 0 <= k < kept@.len() ==> kept@[k].0 != addr,
                forall|k: int|
                    0 <= k < kept@.len() ==> exists|j: int| 0 <= j < i && self.usernames@[j] == #[trigger] kept@[k],
                forall|k: int, l: int| 0 <= k < l < kept@.len() ==> exists|j1: int, j2: int|
                    0 <= j1 < j2 < i && self.usernames@[j1] == #[trigger] kept@[k] && self.usernames@[j2]
                        == #[trigger] kept@[l],
            decreases self.usernames@.len() - i,
        {
            assert(orig.take(i + 1).drop_last() =~= orig.take(i as int));
            if self.usernames[i].0 != addr {
                let ghost before = names_view(kept@);
                let e = (self.usernames[i].0, self.usernames[i].1.clone());
                kept.push(e);
                assert(names_view(kept@) =~= before.push((e.0, e.1@)));
                proof {
                    assert(self.usernames@[i as int] == e);
                    assert forall|k: int, l: int| 0 <= k < l < kept@.len() implies exists|j1: int, j2: int|
                        0 <= j1 < j2 < i + 1 && self.usernames@[j1] == #[trigger] kept@[k] && self.usernames@[j2]
                            == #[trigger] kept@[l] by {
                        if l == kept@.len() - 1 {
                            let j1 = choose|j: int| 0 <= j < i && self.usernames@[j] == kept@[k];
                            assert(self.usernames@[j1] == kept@[k] && self.usernames@[i as int] == kept@[l]);
                        } else {
                            let (j1, j2) = choose|j1: int, j2: int|
                                0 <= j1 < j2 < i && self.usernames@[j1] == kept@[k] && self.usernames@[j2] == kept@[l];
                            assert(self.usernames@[j1] == kept@[k] && self.usernames@[j2] == kept@[l]);
                        }
                    }
                    assert forall|k: int| 0 <= k < kept@.len() implies exists|j: int|
                        0 <= j < i + 1 && self.usernames@[j] == #[trigger] kept@[k] by {
                        if k == kept@.len() - 1 {
                            assert(self.usernames@[i as int] == kept@[k]);
                        } else {
                            let j = choose|j: int| 0 <= j < i && self.usernames@[j] == kept@[k];
                            assert(self.usernames@[j] == kept@[k]);
                        }
                    }
                }
            }
            i = i + 1;
        }
        assert(orig.take(orig.len() as int) =~= orig);
        self.usernames = kept;
        proof {
            assert forall|k: int, l: int|
                0 <= k < self.usernames@.len() && 0 <= l < self.usernames@.len() && k != l implies self.usernames@[k].0
                != self.usernames@[l].0 by {
                if k < l {
                    let (j1, j2) = choose|j1: int, j2: int|
                        0 <= j1 < j2 < old(self).usernames@.len() && old(self).usernames@[j1] == self.usernames@[k]
                            && old(self).usernames@[j2] == self.usernames@[l];
                    assert(old(self).usernames@[j1].0 != old(self).usernames@[j2].0);
                } else {
                    let (j1, j2) = choose|j1: int, j2: int|
                        0 <= j1 < j2 < old(self).usernames@.len() && old(self).usernames@[j1] == self.usernames@[l]
                            && old(self).usernames@[j2] == self.usernames@[k];
                    assert(old(self).usernames@[j1].0 != old(self).usernames@[j2].0);
                }
            }
        }
    }

    /// The messages that send `msg` to every observer, in order.
    pub fn broadcast(&self, msg: &String) -> (r: Vec<Action>)
        ensures
            r@.len() == self.observers@.len(),
            forall|i: int| 0 <= i < self.observers@.len() ==> sends(#[trigger] r@[i], self.observers@[i], msg@),
    {
        let mut r: Vec<Action> = Vec::new();
        let mut i: usize = 0;
        while i < self.observers.len()
            invariant
                i <= self.observers@.len(),
                r@.len() == i,
                forall|k: int| 0 <= k < i ==> sends(#[trigger] r@[k], self.observers@[k], msg@),
            decreases self.observers@.len() - i,
        {
            r.push(Action::Send { to: self.observers[i], text: msg.clone() });
            i = i + 1;
        }
        r
    }
}

} // verus!
