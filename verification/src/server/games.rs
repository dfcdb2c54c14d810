//! Matches: ending them, and the players' part in them.
use vstd::prelude::*;
use crate::protocol::{terminated_message, terminated_text};
use crate::server::{
    broadcasts, client_at, client_index, has_client, lemma_client_index, match_at, sends, unique_ids, unique_names,
    Action, Server,
};
use crate::types::{Client, Color, Match};

verus! {

/// A player out of any match: no match, no colour.
pub open spec fn released(c: Client) -> Client {
    Client { current_match: None, color: Color::Empty, ..c }
}

/// The clients after the named one (if any) leaves its match.
pub open spec fn release(cs: Seq<Client>, name: Seq<char>) -> Seq<Client> {
    if has_client(cs, name) {
        cs.update(client_index(cs, name), released(cs[client_index(cs, name)]))
    } else {
        cs
    }
}

/// The named player, unless it is the server itself, leaves its match.
pub open spec fn release_player(cs: Seq<Client>, name: Seq<char>) -> Seq<Client> {
    if name != "demo"@ {
        release(cs, name)
    } else {
        cs
    }
}

/// Releasing players keeps every client, name and connection in place.
pub proof fn lemma_release_keeps(cs: Seq<Client>, name: Seq<char>)
    ensures
        release_player(cs, name).len() == cs.len(),
        forall|i: int| 0 <= i < cs.len() ==> (#[trigger] release_player(cs, name)[i]).username == cs[i].username
            && release_player(cs, name)[i].addr == cs[i].addr && release_player(cs, name)[i].ready == cs[i].ready,
{
}

/// The named player leaving its match keeps every client in a match seated
/// in an existing one.
pub proof fn lemma_seated_release_named(cs: Seq<Client>, ms: Seq<Match>, name: Seq<char>)
    requires
        crate::server::colors_ok(cs, ms),
        crate::server::matches_exist(cs, ms),
    ensures
        crate::server::colors_ok(release_player(cs, name), ms),
        crate::server::matches_exist(release_player(cs, name), ms),
{
    if name != "demo"@ && has_client(cs, name) {
        let i = client_index(cs, name);
        assert(client_at(cs, name, i));
        crate::server::lemma_seated_release(cs, ms, i);
    }
}

/// A player leaving its match keeps every client in a match seated in an
/// existing one.
pub proof fn lemma_seated_release_by_name(cs: Seq<Client>, ms: Seq<Match>, name: Seq<char>)
    requires
        crate::server::colors_ok(cs, ms),
        crate::server::matches_exist(cs, ms),
    ensures
        crate::server::colors_ok(release(cs, name), ms),
        crate::server::matches_exist(release(cs, name), ms),
        release(cs, name).len() == cs.len(),
        forall|k: int| 0 <= k < cs.len() ==> (#[trigger] release(cs, name)[k]).username == cs[k].username,
        crate::server::no_server_client(cs) ==> crate::server::no_server_client(release(cs, name)),
        unique_names(cs) ==> unique_names(release(cs, name)),
{
    if has_client(cs, name) {
        let i = client_index(cs, name);
        assert(client_at(cs, name, i));
        crate::server::lemma_seated_release(cs, ms, i);
    }
    let cs2 = release(cs, name);
    if crate::server::no_server_client(cs) {
        assert forall|k: int| 0 <= k < cs2.len() implies (#[trigger] cs2[k]).username@ != "demo"@ by {
            assert(cs2[k].username == cs[k].username);
        }
    }
    if unique_names(cs) {
        assert forall|a: int, b: int| 0 <= a < cs2.len() && 0 <= b < cs2.len() && a != b implies cs2[a].username@
            != cs2[b].username@ by {
            assert(cs2[a].username == cs[a].username && cs2[b].username == cs[b].username);
        }
    }
}

/// Once the named players have left it (a player missing from them can
/// only be the server), nobody is in match `idx` any more.
pub proof fn lemma_left_match(cs: Seq<Client>, ms: Seq<Match>, idx: int, x: Seq<char>, y: Seq<char>)
    requires
        crate::server::colors_ok(cs, ms),
        crate::server::matches_exist(cs, ms),
        crate::server::no_server_client(cs),
        unique_names(cs),
        0 <= idx < ms.len(),
        x == ms[idx].player1@ || y == ms[idx].player1@ || ms[idx].player1@ == "demo"@,
        x == ms[idx].player2@ || y == ms[idx].player2@ || ms[idx].player2@ == "demo"@,
    ensures
        crate::server::colors_ok(release(release(cs, x), y), ms),
        crate::server::matches_exist(release(release(cs, x), y), ms),
        crate::server::no_server_client(release(release(cs, x), y)),
        unique_names(release(release(cs, x), y)),
        forall|ci: int|
            0 <= ci < release(release(cs, x), y).len() ==> #[trigger] release(release(cs, x), y)[ci].current_match
                != Some(ms[idx].id),
{
    let m = ms[idx];
    let cs1 = release(cs, x);
    let cs2 = release(cs1, y);
    lemma_seated_release_by_name(cs, ms, x);
    lemma_seated_release_by_name(cs1, ms, y);
    assert forall|ci: int| 0 <= ci < cs2.len() implies #[trigger] cs2[ci].current_match != Some(m.id) by {
        if cs2[ci].current_match == Some(m.id) {
            assert(cs1[ci].username == cs[ci].username);
            if cs2[ci] != cs1[ci] {
                assert(cs2[ci].current_match is None);
            }
            if cs1[ci] != cs[ci] {
                assert(cs1[ci].current_match is None);
            }
            assert(cs[ci].current_match == Some(ms[idx].id));
            assert(crate::server::seated(cs[ci], ms[idx]));
            assert(cs[ci].username@ != "demo"@);
            let nm = cs[ci].username@;
            if nm == x {
                lemma_client_index(cs, x, ci);
            } else {
                assert(nm == y);
                lemma_client_index(cs1, y, ci);
            }
        }
    }
}

/// The same when only one player leaves, the other being the server.
pub proof fn lemma_left_match_one(cs: Seq<Client>, ms: Seq<Match>, idx: int, x: Seq<char>)
    requires
        crate::server::colors_ok(cs, ms),
        crate::server::matches_exist(cs, ms),
        crate::server::no_server_client(cs),
        unique_names(cs),
        0 <= idx < ms.len(),
        x == ms[idx].player1@ || ms[idx].player1@ == "demo"@,
        x == ms[idx].player2@ || ms[idx].player2@ == "demo"@,
    ensures
        crate::server::colors_ok(release(cs, x), ms),
        crate::server::matches_exist(release(cs, x), ms),
        crate::server::no_server_client(release(cs, x)),
        unique_names(release(cs, x)),
        forall|ci: int| 0 <= ci < release(cs, x).len() ==> #[trigger] release(cs, x)[ci].current_match != Some(ms[idx].id),
{
    lemma_left_match(cs, ms, idx, x, x);
    assert(release(release(cs, x), x) == release(cs, x)) by {
        let cs1 = release(cs, x);
        lemma_seated_release_by_name(cs, ms, x);
        if has_client(cs1, x) {
            let i = client_index(cs1, x);
            assert(client_at(cs1, x, i));
            assert(has_client(cs, x));
            let j = client_index(cs, x);
            assert(client_at(cs, x, j));
            lemma_client_index(cs, x, i);
            assert(cs1[i].current_match is None);
            assert(release(cs1, x) =~= cs1);
        }
    }
}

/// Once its players have left it, a match can be removed: every client in
/// a match stays seated in an existing one.
pub proof fn lemma_seated_terminated(cs: Seq<Client>, ms: Seq<Match>, idx: int)
    requires
        crate::server::colors_ok(cs, ms),
        crate::server::matches_exist(cs, ms),
        crate::server::no_server_client(cs),
        unique_names(cs),
        0 <= idx < ms.len(),
    ensures
        crate::server::colors_ok(
            release_player(release_player(cs, ms[idx].player1@), ms[idx].player2@),
            ms.remove(idx),
        ),
        crate::server::matches_exist(
            release_player(release_player(cs, ms[idx].player1@), ms[idx].player2@),
            ms.remove(idx),
        ),
{
    let m = ms[idx];
    let cs1 = release_player(cs, m.player1@);
    let cs2 = release_player(cs1, m.player2@);
    lemma_seated_release_named(cs, ms, m.player1@);
    lemma_seated_release_named(cs1, ms, m.player2@);
    lemma_release_keeps(cs, m.player1@);
    lemma_release_keeps(cs1, m.player2@);
    assert forall|ci: int| 0 <= ci < cs2.len() implies #[trigger] cs2[ci].current_match != Some(m.id) by {
        if cs2[ci].current_match == Some(m.id) {
            assert(cs1[ci].username == cs[ci].username);
            if cs2[ci] != cs1[ci] {
                assert(cs2[ci].current_match is None);
            }
            if cs1[ci] != cs[ci] {
                assert(cs1[ci].current_match is None);
            }
            assert(cs[ci].current_match == Some(ms[idx].id));
            assert(crate::server::seated(cs[ci], ms[idx]));
            assert(cs[ci].username@ != "demo"@);
            if cs[ci].username@ == m.player1@ {
                lemma_client_index(cs, m.player1@, ci);
            } else {
                assert(cs1[ci].username@ == m.player2@);
                assert(unique_names(cs1));
                lemma_client_index(cs1, m.player2@, ci);
            }
        }
    }
    crate::server::lemma_seated_remove(cs2, ms, idx);
}

/// After a termination, the clients are the same players in the same places.
pub proof fn lemma_terminated_keeps(old: Server, new: Server, i: int, acts: Seq<Action>)
    requires
        terminated(old, new, i, acts),
    ensures
        new.clients@.len() == old.clients@.len(),
        forall|k: int| 0 <= k < old.clients@.len() ==> (#[trigger] new.clients@[k]).username == old.clients@[k].username
            && new.clients@[k].addr == old.clients@[k].addr && new.clients@[k].ready == old.clients@[k].ready,
{
    let m = old.matches@[i];
    lemma_release_keeps(old.clients@, m.player1@);
    lemma_release_keeps(release_player(old.clients@, m.player1@), m.player2@);
}

/// The actions that tell the named player (unless it is the server or
/// unknown) that the match ended: exactly one message, `GAME:TERMINATED`.
pub open spec fn notified_terminated(acts: Seq<Action>, cs: Seq<Client>, name: Seq<char>) -> bool {
    if name != "demo"@ && has_client(cs, name) {
        acts.len() == 1 && sends(acts[0], cs[client_index(cs, name)].addr, "GAME:TERMINATED"@)
    } else {
        acts.len() == 0
    }
}

/// The actions of terminating match `i`: its pending deliveries and timer
/// are cancelled, observers are told, then each player (unless it is the
/// server or unknown) is told.
pub open spec fn termination_acts(old: Server, i: int, acts: Seq<Action>) -> bool {
    let m = old.matches@[i];
    let cs1 = release_player(old.clients@, m.player1@);
    let n1 = if m.player1@ != "demo"@ && has_client(old.clients@, m.player1@) {
        1int
    } else {
        0int
    };
    &&& acts.len() >= 3
    &&& acts[0] == Action::AbortWait { match_id: m.id }
    &&& acts[1] == Action::AbortTimeout { match_id: m.id }
    &&& broadcasts(acts[2], terminated_text(m.id))
    &&& 3 + n1 <= acts.len()
    &&& notified_terminated(acts.subrange(3, 3 + n1), old.clients@, m.player1@)
    &&& notified_terminated(acts.subrange(3 + n1, acts.len() as int), cs1, m.player2@)
}

/// The clients after match `i` is terminated: its players (but the server)
/// leave it.
pub open spec fn clients_after_termination(old: Server, i: int) -> Seq<Client> {
    let m = old.matches@[i];
    release_player(release_player(old.clients@, m.player1@), m.player2@)
}

/// Termination of match `i`: the actions above, its players leave it, and
/// the match is removed.
pub open spec fn terminated(old: Server, new: Server, i: int, acts: Seq<Action>) -> bool {
    &&& termination_acts(old, i, acts)
    &&& new == (Server {
        clients: new.clients,
        matches: new.matches,
        ..old
    })
    &&& new.clients@ == clients_after_termination(old, i)
    &&& new.matches@ == old.matches@.remove(i)
}

impl Server {
    /// The named player (if known and not the server) is told its match was
    /// terminated and leaves it.
    fn release_named(&mut self, name: &String, actions: &mut Vec<Action>)
        requires
            unique_names(old(self).clients@),
        ensures
            unique_names(final(self).clients@),
            final(self).clients@ == release_player(old(self).clients@, name@),
            *final(self) == (Server { clients: final(self).clients, ..*old(self) }),
            final(actions)@.subrange(0, old(actions)@.len() as int) == old(actions)@,
            final(actions)@.len() >= old(actions)@.len(),
            notified_terminated(
                final(actions)@.subrange(old(actions)@.len() as int, final(actions)@.len() as int),
                old(self).clients@,
                name@,
            ),
    {
        let ghost start = actions@;
        if *name == String::from_str(crate::SERVER_PLAYER_USERNAME) {
            assert(actions@.subrange(start.len() as int, actions@.len() as int) =~= Seq::<Action>::empty());
            assert(actions@.subrange(0, start.len() as int) =~= start);
            return;
        }
        match self.find_client(name) {
            Some(i) => {
                actions.push(Action::Send { to: self.clients[i].addr, text: String::from_str("GAME:TERMINATED") });
                let c = Client {
                    username: self.clients[i].username.clone(),
                    ready: self.clients[i].ready,
                    color: Color::Empty,
                    current_match: None,
                    addr: self.clients[i].addr,
                };
                self.clients.set(i, c);
                assert(self.clients@ =~= old(self).clients@.update(i as int, released(old(self).clients@[i as int])));
                assert(actions@.subrange(start.len() as int, actions@.len() as int) =~= seq![actions@.last()]);
                assert(actions@.subrange(0, start.len() as int) =~= start);
                assert forall|a: int, b: int|
                    0 <= a < self.clients@.len() && 0 <= b < self.clients@.len() && a != b implies self.clients@[a].username@
                    != self.clients@[b].username@ by {
                    assert(old(self).clients@[a].username@ != old(self).clients@[b].username@);
                }
            },
            None => {
                assert(actions@.subrange(start.len() as int, actions@.len() as int) =~= Seq::<Action>::empty());
                assert(actions@.subrange(0, start.len() as int) =~= start);
            },
        }
    }

    /// Terminates a match: pending deliveries and the move timer are
    /// cancelled, observers get `GAME:<id>:TERMINATED`, each player (unless
    /// it is the server) gets `GAME:TERMINATED` and leaves the match, and the
    /// match is removed. An unknown match stops the handler.
    pub fn terminate_match(&mut self, match_id: u32) -> (r: Vec<Action>)
        requires
            old(self).wf(),
        ensures
            final(self).wf(),
            (forall|i: int| 0 <= i < old(self).matches@.len() ==> old(self).matches@[i].id != match_id) ==> (r@
                == seq![Action::Halt] && *final(self) == *old(self)),
            forall|i: int| #[trigger] match_at(old(self).matches@, match_id, i) ==> terminated(
                *old(self),
                *final(self),
                i,
                r@,
            ),
    {
        let mut actions: Vec<Action> = Vec::new();
        let idx = match self.find_match(match_id) {
            Some(i) => i,
            None => {
                actions.push(Action::Halt);
                assert(actions@ =~= seq![Action::Halt]);
                return actions;
            },
        };
        proof {
            assert forall|i: int| #[trigger] match_at(self.matches@, match_id, i) implies i == idx by {
                if i != idx {
                    assert(self.matches@[i].id != self.matches@[idx as int].id);
                }
            }
        }
        let player1 = self.matches[idx].player1.clone();
        let player2 = self.matches[idx].player2.clone();
        actions.push(Action::AbortWait { match_id });
        actions.push(Action::AbortTimeout { match_id });
        actions.push(Action::Broadcast { text: terminated_message(match_id) });
        let ghost s0 = *self;
        let ghost a0 = actions@;
        self.release_named(&player1, &mut actions);
        let ghost a1 = actions@;
        self.release_named(&player2, &mut actions);
        let ghost a2 = actions@;
        self.matches.remove(idx);
        proof {
            let n1 = a1.len() - 3;
            assert(a2.subrange(3, 3 + n1) =~= a1.subrange(3, a1.len() as int));
            assert(a2.subrange(3 + n1, a2.len() as int) =~= a2.subrange(a1.len() as int, a2.len() as int));
            assert(a2[0] == a0[0] && a2[1] == a0[1] && a2[2] == a0[2]);
            lemma_seated_terminated(s0.clients@, s0.matches@, idx as int);
            assert forall|i: int| 0 <= i < self.matches@.len() implies (#[trigger] self.matches@[i]).wf() && self.matches@[i].ledger_ok() && self.matches@[i].demo_ok() by {
                if i < idx {
                    assert(self.matches@[i] == old(self).matches@[i]);
                } else {
                    assert(self.matches@[i] == old(self).matches@[i + 1]);
                }
            }
            assert forall|a: int, b: int|
                0 <= a < self.matches@.len() && 0 <= b < self.matches@.len() && a != b implies self.matches@[a].id
                != self.matches@[b].id by {
                let a2 = if a < idx { a } else { a + 1 };
                let b2 = if b < idx { b } else { b + 1 };
                assert(old(self).matches@[a2].id != old(self).matches@[b2].id);
            }
        }
        actions
    }
}

} // verus!
