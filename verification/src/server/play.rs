//! Moves: checking them, then ending the match or passing the move on.
use vstd::prelude::*;
use crate::protocol::{draw_message, draw_text, move_message, move_text, opponent_message, opponent_text, win_message,
    win_text};
use crate::server::contests::has_match;
use crate::server::games::{release, terminated};
use crate::server::outcomes::{addr_of, after_match, after_match_stopped};
use crate::server::results::{result_recorded, result_stopped};
use crate::server::{
    broadcasts, client_at, client_index, has_client, lemma_client_index, match_at, name_of, sends, Action, Server,
    Step,
};
use crate::types::{board_outcome, board_view, board_wf, column_full, drop_token, outcome, opposite, Color, Match};
use crate::has_open_column;

verus! {

/// The other player of the match.
pub open spec fn opponent_name(m: Match, name: Seq<char>) -> Seq<char> {
    if name == m.player1@ {
        m.player2@
    } else {
        m.player1@
    }
}

/// It is the player's turn: the first move is the first player's, and no
/// one moves twice in a row.
pub open spec fn turn_ok(m: Match, name: Seq<char>, color: Color) -> bool {
    !((m.ledger@.len() == 0 && m.player1@ != name) || (m.ledger@.len() > 0 && m.ledger@.last().0 == color))
}

/// The random part of the move delay: `magnitude` taken away (`sign` 0),
/// nothing (`sign` 1) or added (`sign` 2 or more).
pub open spec fn variance(magnitude: u64, sign: u64) -> int {
    if sign == 0 {
        -magnitude
    } else if sign == 1 {
        0
    } else {
        magnitude as int
    }
}

/// How long a move waits before it is passed on: nothing for the first move
/// of a match; otherwise the move delay, varied, less the time since the
/// last move, and at least zero.
pub open spec fn move_delay(wait: u64, magnitude: u64, sign: u64, first: bool, last: u64, now: u64) -> u64 {
    if first {
        0
    } else {
        let elapsed: int = if now >= last {
            now - last
        } else {
            0
        };
        let d: int = wait + variance(magnitude, sign) - elapsed;
        if d < 0 {
            0
        } else if d > u64::MAX {
            u64::MAX
        } else {
            d as u64
        }
    }
}

/// `a + b`, or the largest `u64` if it does not fit.
pub open spec fn saturating_sum(a: u64, b: u64) -> u64 {
    if a + b > u64::MAX {
        u64::MAX
    } else {
        (a + b) as u64
    }
}

/// An invalid move (`acts` after the error message) loses match `i`: a demo
/// match is terminated and the connection closed; otherwise the player
/// loses, the opponent wins, observers are told, both leave the match, which
/// is removed (`s1`), and the result is recorded with the tournament
/// (without one the handler stops).
pub open spec fn forfeit_by_invalid(
    old: Server,
    new: Server,
    i: int,
    name: Seq<char>,
    addr: u64,
    acts: Seq<Action>,
    s1: Server,
) -> bool {
    let m = old.matches@[i];
    let opp = opponent_name(m, name);
    if m.demo_mode {
        &&& acts.len() >= 1
        &&& terminated(old, new, i, acts.drop_last())
        &&& acts.last() == Action::Close { to: addr }
    } else {
        &&& acts.len() >= 3
        &&& sends(acts[0], addr, "GAME:LOSS"@)
        &&& sends(acts[1], addr_of(old.clients@, opp), "GAME:WINS"@)
        &&& broadcasts(acts[2], win_text(m.id, opp))
        &&& s1 == (Server { clients: s1.clients, matches: s1.matches, ..old })
        &&& s1.clients@ == release(release(old.clients@, opp), name)
        &&& s1.matches@ == old.matches@.remove(i)
        &&& if old.tournament is None {
            acts.len() == 4 && acts[3] is Halt && new == s1
        } else {
            result_recorded(s1, new, opp, m.id, m.player1@, m.player2@, acts.skip(3)) || result_stopped(
                s1,
                opp,
                m.id,
                m.player1@,
                m.player2@,
                acts.skip(3),
            )
        }
    }
}

/// The number of actions that open the end of a match: the timer
/// cancelled, the players told the result (a player only when the move
/// won or drew, its opponent unless the server), observers told the move
/// and the result.
pub open spec fn game_over_len(m: Match, color: Color, o: (Color, bool)) -> int {
    let won = o.0 == color;
    let drawn = !won && o.1;
    if won || drawn {
        if m.demo_mode {
            4
        } else {
            5
        }
    } else {
        2
    }
}

/// The actions that open the end of match `i` after the move.
pub open spec fn game_over_opening(
    old: Server,
    i: int,
    name: Seq<char>,
    color: Color,
    addr: u64,
    column: usize,
    pre: Seq<Action>,
) -> bool {
    let m = old.matches@[i];
    let opp = opponent_name(m, name);
    let o = outcome(drop_token(board_view(&m.board), color, column as int));
    let won = o.0 == color;
    let drawn = !won && o.1;
    let nr: int = if won || drawn {
        if m.demo_mode {
            1
        } else {
            2
        }
    } else {
        0
    };
    &&& pre.len() == game_over_len(m, color, o)
    &&& pre[0] == Action::AbortTimeout { match_id: m.id }
    &&& won ==> sends(pre[1], addr, "GAME:WINS"@) && (!m.demo_mode ==> sends(
        pre[2],
        addr_of(old.clients@, opp),
        "GAME:LOSS"@,
    ))
    &&& drawn ==> sends(pre[1], addr, "GAME:DRAW"@) && (!m.demo_mode ==> sends(
        pre[2],
        addr_of(old.clients@, opp),
        "GAME:DRAW"@,
    ))
    &&& broadcasts(pre[1 + nr], move_text(m.id, name, column as nat))
    &&& won ==> broadcasts(pre[2 + nr], win_text(m.id, name))
    &&& drawn ==> broadcasts(pre[2 + nr], draw_text(m.id))
}

/// A move that decides match `i`: the actions above; the players leave
/// the match, which is removed (`s1`); in a tournament the result is
/// recorded (a draw as an empty winner), then what follows the end of a
/// match (`mid`, after `k` actions).
pub open spec fn game_over(
    old: Server,
    new: Server,
    i: int,
    name: Seq<char>,
    color: Color,
    addr: u64,
    column: usize,
    acts: Seq<Action>,
    s1: Server,
    mid: Server,
    k: int,
) -> bool {
    let m = old.matches@[i];
    let cs = old.clients@;
    let opp = opponent_name(m, name);
    let o = outcome(drop_token(board_view(&m.board), color, column as int));
    let j = game_over_len(m, color, o);
    &&& acts.len() >= j
    &&& game_over_opening(old, i, name, color, addr, column, acts.take(j))
    &&& s1 == (Server { clients: s1.clients, matches: s1.matches, ..old })
    &&& s1.clients@ == (if m.demo_mode {
        release(cs, name)
    } else {
        release(release(cs, name), opp)
    })
    &&& s1.matches@ == old.matches@.remove(i)
    &&& if old.tournament is Some {
        let w = if o.1 {
            Seq::<char>::empty()
        } else {
            name
        };
        ||| result_stopped(s1, w, m.id, m.player1@, m.player2@, acts.skip(j))
        ||| {
            &&& j <= k <= acts.len()
            &&& result_recorded(s1, mid, w, m.id, m.player1@, m.player2@, acts.subrange(j, k))
            &&& (after_match(mid, new, acts.skip(k)) || after_match_stopped(mid, acts.skip(k)))
        }
    } else {
        new == s1 && acts.len() == j
    }
}

/// The move is passed on: after `delay` the opponent gets `OPPONENT:<c>`
/// and observers the move.
pub open spec fn delivers_move(a: Action, id: u32, delay: u64, opp: Seq<char>, name: Seq<char>, column: usize) -> bool {
    &&& a matches Action::Deliver { match_id, steps } && match_id == id && steps@.len() == 3
    &&& a->steps@[0] == Step::Sleep(delay)
    &&& a->steps@[1] matches Step::ToPlayer { name: n, text } && n@ == opp && text@ == opponent_text(column as nat)
    &&& a->steps@[2] matches Step::ToObservers { text } && text@ == move_text(id, name, column as nat)
}

/// In a demo match: after `delay` observers get the move; after the move
/// delay `wait` the player (at `to`) gets the server's reply `dc` and
/// observers get it too.
pub open spec fn delivers_demo_reply(
    a: Action,
    id: u32,
    delay: u64,
    to: u64,
    name: Seq<char>,
    column: usize,
    wait: u64,
    dc: int,
) -> bool {
    &&& a matches Action::Deliver { match_id, steps } && match_id == id && steps@.len() == 5
    &&& a->steps@[0] == Step::Sleep(delay)
    &&& a->steps@[1] matches Step::ToObservers { text } && text@ == move_text(id, name, column as nat)
    &&& a->steps@[2] == Step::Sleep(wait)
    &&& a->steps@[3] matches Step::ToConnection { to: t, text } && t == to && text@ == opponent_text(dc as nat)
    &&& a->steps@[4] matches Step::ToObservers { text } && text@ == move_text(id, "demo"@, dc as nat)
}

/// The move timer of the match starts.
pub open spec fn times_move(
    a: Action,
    id: u32,
    delay: u64,
    ledger_size: nat,
    mover: Seq<char>,
    addr: u64,
    player1: Seq<char>,
    player2: Seq<char>,
) -> bool {
    a matches Action::StartTimeout { match_id, delay: d, ledger_size: n, mover: who, mover_addr, player1: p1, player2: p2 }
        && match_id == id && d == delay && n == ledger_size && who@ == mover && mover_addr == addr && p1@ == player1
        && p2@ == player2
}

/// A move that does not decide match `i`, the move delay varied by
/// `magnitude` and `sign`: the move timer is cancelled, the token placed and
/// the move recorded at `now`. Then, if no column is open
/// the handler stops, as no reply column can be drawn. In a demo
/// match the server replies at once in an open column `dc`; otherwise the
/// move is passed on and the move timer restarts.
pub open spec fn game_goes_on(
    old: Server,
    new: Server,
    i: int,
    name: Seq<char>,
    color: Color,
    addr: u64,
    column: usize,
    now: u64,
    magnitude: u64,
    sign: u64,
    acts: Seq<Action>,
) -> bool {
    let m = old.matches@[i];
    let delay = move_delay(old.waiting_timeout, magnitude, sign, m.ledger@.len() == 0, m.ledger@.last().2, now);
    let b = drop_token(board_view(&m.board), color, column as int);
    let ledger = m.ledger@.push((color, column, now));
    let nm = new.matches@[i];
    &&& acts.len() >= 2
    &&& acts[0] == Action::AbortTimeout { match_id: m.id }
    &&& if !has_open_column(b) {
        acts.len() == 2 && acts[1] is Halt
    } else {
        &&& new == (Server { matches: new.matches, ..old })
        &&& new.matches@.len() == old.matches@.len()
        &&& forall|j: int| 0 <= j < old.matches@.len() && j != i ==> new.matches@[j] == old.matches@[j]
        &&& nm.id == m.id
        &&& nm.player1 == m.player1
        &&& nm.player2 == m.player2
        &&& nm.demo_mode == m.demo_mode
        &&& nm.wf()
        &&& if m.demo_mode {
            &&& acts.len() == 2
            &&& exists|dc: int|
                0 <= dc < 7 && !column_full(b, dc) && nm.ledger@ == ledger.push((opposite(color), dc as usize, now))
                    && board_view(&nm.board) == drop_token(b, opposite(color), dc) && #[trigger] delivers_demo_reply(
                    acts[1],
                    m.id,
                    delay,
                    addr,
                    name,
                    column,
                    old.waiting_timeout,
                    dc,
                )
        } else {
            &&& nm.ledger@ == ledger
            &&& board_view(&nm.board) == b
            &&& acts.len() == 3
            &&& delivers_move(acts[1], m.id, delay, opponent_name(m, name), name, column)
            &&& times_move(
                acts[2],
                m.id,
                saturating_sum(delay, old.max_timeout),
                ledger.len(),
                name,
                addr,
                m.player1@,
                m.player2@,
            )
        }
    }
}

/// The outcome of a valid or invalid move in match `i`.
pub open spec fn move_outcome(
    old: Server,
    new: Server,
    i: int,
    name: Seq<char>,
    color: Color,
    addr: u64,
    column: usize,
    now: u64,
    acts: Seq<Action>,
) -> bool {
    let m = old.matches@[i];
    if column >= 7 || !turn_ok(m, name, color) || column_full(board_view(&m.board), column as int) {
        &&& acts.len() >= 1
        &&& sends(acts[0], addr, "ERROR:INVALID:MOVE"@)
        &&& exists|s1: Server| #[trigger] forfeit_by_invalid(old, new, i, name, addr, acts.skip(1), s1)
    } else {
        let o = outcome(drop_token(board_view(&m.board), color, column as int));
        if o.0 != Color::Empty || o.1 {
            exists|s1: Server, mid: Server, k: int|
                #[trigger] game_over(old, new, i, name, color, addr, column, acts, s1, mid, k)
        } else {
            exists|magnitude: u64, sign: u64|
                magnitude <= old.waiting_timeout / 200 && sign <= 2 && #[trigger] game_goes_on(
                    old,
                    new,
                    i,
                    name,
                    color,
                    addr,
                    column,
                    now,
                    magnitude,
                    sign,
                    acts,
                )
        }
    }
}

/// Only a stop, nothing changed.
pub open spec fn halted_only(old: Server, new: Server, r: Result<Vec<Action>, String>) -> bool {
    r matches Ok(a) && a@ == seq![Action::Halt] && new == old
}

/// What a `PLAY` request from `addr` gives. An unknown connection or a
/// player in no match is refused; a player or a match that cannot be found
/// stops the handler.
pub open spec fn play_outcome(
    old: Server,
    new: Server,
    addr: u64,
    column: usize,
    now: u64,
    r: Result<Vec<Action>, String>,
) -> bool {
    let cs = old.clients@;
    match name_of(old.usernames@, addr) {
        None => r matches Err(e) && e@ == "ERROR:INVALID:MOVE"@ && new == old,
        Some(name) => if !has_client(cs, name) {
            halted_only(old, new, r)
        } else {
            let c = cs[client_index(cs, name)];
            match c.current_match {
                None => r matches Err(e) && e@ == "ERROR:INVALID:MOVE"@ && new == old,
                Some(id) => if !has_match(old.matches@, id) {
                    halted_only(old, new, r)
                } else {
                    let i = choose|i: int| match_at(old.matches@, id, i);
                    let m = old.matches@[i];
                    if !m.demo_mode && !has_client(cs, opponent_name(m, name)) {
                        halted_only(old, new, r)
                    } else {
                        r is Ok && move_outcome(old, new, i, name, c.color, addr, column, now, r->Ok_0@)
                    }
                }
            }
        }
    }
}

/// The delay before a move is passed on (see `move_delay`).
pub fn move_delay_exec(wait: u64, magnitude: u64, sign: u64, first: bool, last: u64, now: u64) -> (d: u64)
    ensures
        d == move_delay(wait, magnitude, sign, first, last, now),
{
    if first {
        return 0;
    }
    let elapsed: i128 = if now >= last {
        (now - last) as i128
    } else {
        0
    };
    let v: i128 = if sign == 0 {
        -(magnitude as i128)
    } else if sign == 1 {
        0
    } else {
        magnitude as i128
    };
    let d: i128 = wait as i128 + v - elapsed;
    if d < 0 {
        0
    } else if d > u64::MAX as i128 {
        u64::MAX
    } else {
        d as u64
    }
}

/// A copy of a board.
pub fn copy_board(board: &Vec<Vec<Color>>) -> (r: Vec<Vec<Color>>)
    requires
        board_wf(board_view(board)),
    ensures
        board_view(&r) == board_view(board),
{
    proof {
        crate::types::lemma_board_view(board);
    }
    let mut r: Vec<Vec<Color>> = Vec::new();
    let mut x: usize = 0;
    while x < 7
        invariant
            x <= 7,
            board_wf(board_view(board)),
            board@.len() == 7,
            forall|i: int| 0 <= i < 7 ==> #[trigger] board@[i]@.len() == 6,
            r@.len() == x,
            forall|i: int| 0 <= i < x ==> #[trigger] r@[i]@ == board@[i]@,
        decreases 7 - x,
    {
        let mut col: Vec<Color> = Vec::new();
        let mut y: usize = 0;
        while y < 6
            invariant
                y <= 6,
                x < 7,
                board@.len() == 7,
                board@[x as int]@.len() == 6,
                col@ == board@[x as int]@.take(y as int),
            decreases 6 - y,
        {
            col.push(board[x][y]);
            assert(board@[x as int]@.take(y + 1) =~= board@[x as int]@.take(y as int).push(board@[x as int]@[y as int]));
            y = y + 1;
        }
        assert(board@[x as int]@.take(6) =~= board@[x as int]@);
        r.push(col);
        x = x + 1;
    }
    proof {
        crate::types::lemma_board_view(&r);
        assert(board_view(&r) =~= board_view(board));
    }
    r
}

/// Whether the top cell of the column is taken.
pub fn top_taken(board: &Vec<Vec<Color>>, column: usize) -> (r: bool)
    requires
        board_wf(board_view(board)),
        column < 7,
    ensures
        r == column_full(board_view(board), column as int),
{
    proof {
        crate::types::lemma_board_view(board);
    }
    board[column][5] != Color::Empty
}

/// Whether some column is open.
pub fn any_open_column(board: &Vec<Vec<Color>>) -> (r: bool)
    requires
        board_wf(board_view(board)),
    ensures
        r == has_open_column(board_view(board)),
{
    let mut x: usize = 0;
    while x < 7
        invariant
            x <= 7,
            board_wf(board_view(board)),
            forall|c: int| 0 <= c < x ==> column_full(board_view(board), c),
        decreases 7 - x,
    {
        if !top_taken(board, x) {
            return true;
        }
        x = x + 1;
    }
    false
}

/// No two consecutive moves of the ledger have the same colour.
pub open spec fn alternating(ledger: Seq<(Color, usize, u64)>) -> bool {
    forall|k: int| 0 <= k < ledger.len() - 1 ==> #[trigger] ledger[k].0 != ledger[k + 1].0
}

/// Moves alternate: a move accepted on the player's turn keeps the colours
/// of the ledger alternating, and so does the server's reply in a demo
/// match.
pub proof fn law_moves_alternate(m: Match, name: Seq<char>, color: Color, column: usize, now: u64, reply: usize)
    requires
        alternating(m.ledger@),
        turn_ok(m, name, color),
        color != Color::Empty,
    ensures
        alternating(m.ledger@.push((color, column, now))),
        alternating(m.ledger@.push((color, column, now)).push((opposite(color), reply, now))),
{
    let l1 = m.ledger@.push((color, column, now));
    let l2 = l1.push((opposite(color), reply, now));
    assert forall|k: int| 0 <= k < l1.len() - 1 implies #[trigger] l1[k].0 != l1[k + 1].0 by {
        if k < m.ledger@.len() - 1 {
            assert(l1[k] == m.ledger@[k] && l1[k + 1] == m.ledger@[k + 1]);
        }
    }
    assert forall|k: int| 0 <= k < l2.len() - 1 implies #[trigger] l2[k].0 != l2[k + 1].0 by {
        if k < l1.len() - 1 {
            assert(l2[k] == l1[k] && l2[k + 1] == l1[k + 1]);
        }
    }
}

impl Server {
    /// An invalid move (the error already sent) loses the match at `i`.
    /// Returns whether the handler stopped.
    fn invalid_move(&mut self, i: usize, name: &String, addr: u64, actions: &mut Vec<Action>) -> (halted: bool)
        requires
            old(self).wf(),
            i < old(self).matches@.len(),
            !old(self).matches@[i as int].demo_mode ==> has_client(
                old(self).clients@,
                opponent_name(old(self).matches@[i as int], name@),
            ),
            name@ == old(self).matches@[i as int].player1@ || name@ == old(self).matches@[i as int].player2@,
            name@ != "demo"@,
        ensures
            final(self).wf(),
            final(actions)@.len() >= old(actions)@.len(),
            final(actions)@.subrange(0, old(actions)@.len() as int) == old(actions)@,
            exists|s1: Server|
                #[trigger] forfeit_by_invalid(
                    *old(self),
                    *final(self),
                    i as int,
                    name@,
                    addr,
                    final(actions)@.subrange(old(actions)@.len() as int, final(actions)@.len() as int),
                    s1,
                ),
    {
        let ghost s0 = *self;
        let ghost start = actions@;
        let id = self.matches[i].id;
        let p1 = self.matches[i].player1.clone();
        let p2 = self.matches[i].player2.clone();
        proof {
            assert(match_at(s0.matches@, id, i as int));
        }
        if self.matches[i].demo_mode {
            let mut more = self.terminate_match(id);
            let ghost m = more@;
            actions.append(&mut more);
            actions.push(Action::Close { to: addr });
            proof {
                let acts = actions@.subrange(start.len() as int, actions@.len() as int);
                assert(acts.drop_last() =~= m);
                assert(actions@.subrange(0, start.len() as int) =~= start);
                assert(forfeit_by_invalid(s0, *self, i as int, name@, addr, acts, *self));
            }
            return false;
        }
        let opp = if *name == p1 { p2.clone() } else { p1.clone() };
        let oi = self.find_client(&opp).unwrap();
        let opp_addr = self.clients[oi].addr;
        actions.push(Action::Send { to: addr, text: String::from_str("GAME:LOSS") });
        actions.push(Action::Send { to: opp_addr, text: String::from_str("GAME:WINS") });
        actions.push(Action::Broadcast { text: win_message(id, &opp) });
        proof {
            crate::server::games::lemma_left_match(self.clients@, self.matches@, i as int, opp@, name@);
        }
        self.release_client(&opp);
        self.release_client(name);
        self.remove_match(i);
        let ghost s1 = *self;
        let ghost a3 = actions@;
        if self.tournament.is_none() {
            actions.push(Action::Halt);
            proof {
                let acts = actions@.subrange(start.len() as int, actions@.len() as int);
                assert(actions@.subrange(0, start.len() as int) =~= start);
                assert(acts[0] == actions@[start.len() as int]);
                assert(forfeit_by_invalid(s0, *self, i as int, name@, addr, acts, s1));
            }
            return true;
        }
        let halted = self.record_result(&opp, id, &p1, &p2, actions);
        proof {
            let acts = actions@.subrange(start.len() as int, actions@.len() as int);
            assert(actions@.subrange(0, a3.len() as int) == a3);
            assert(actions@.subrange(0, start.len() as int) =~= start);
            assert(acts[0] == a3[start.len() as int]);
            assert(acts[1] == a3[start.len() + 1int]);
            assert(acts[2] == a3[start.len() + 2int]);
            assert(acts.skip(3) =~= actions@.subrange(a3.len() as int, actions@.len() as int));
            assert(forfeit_by_invalid(s0, *self, i as int, name@, addr, acts, s1));
        }
        halted
    }

    /// A move that decides the match at `i` (its outcome `o` computed on a
    /// copy of the board). Returns whether the handler stopped.
    fn finish_game(
        &mut self,
        i: usize,
        name: &String,
        color: Color,
        addr: u64,
        column: usize,
        o: (Color, bool),
        actions: &mut Vec<Action>,
    ) -> (halted: bool)
        requires
            old(self).wf(),
            i < old(self).matches@.len(),
            column < 7,
            !old(self).matches@[i as int].demo_mode ==> has_client(
                old(self).clients@,
                opponent_name(old(self).matches@[i as int], name@),
            ),
            o == outcome(drop_token(board_view(&old(self).matches@[i as int].board), color, column as int)),
            old(actions)@.len() == 0,
            name@ == old(self).matches@[i as int].player1@ || name@ == old(self).matches@[i as int].player2@,
            name@ != "demo"@,
        ensures
            final(self).wf(),
            exists|s1: Server, mid: Server, k: int|
                #[trigger] game_over(*old(self), *final(self), i as int, name@, color, addr, column, final(actions)@, s1, mid, k),
    {
        let ghost s0 = *self;
        let id = self.matches[i].id;
        let demo = self.matches[i].demo_mode;
        let p1 = self.matches[i].player1.clone();
        let p2 = self.matches[i].player2.clone();
        let opp = if *name == p1 { p2.clone() } else { p1.clone() };
        actions.push(Action::AbortTimeout { match_id: id });
        let won = o.0 == color;
        let drawn = !won && o.1;
        if won || drawn {
            let text = if won { String::from_str("GAME:WINS") } else { String::from_str("GAME:DRAW") };
            actions.push(Action::Send { to: addr, text });
            if !demo {
                let oi = self.find_client(&opp).unwrap();
                let text = if won { String::from_str("GAME:LOSS") } else { String::from_str("GAME:DRAW") };
                actions.push(Action::Send { to: self.clients[oi].addr, text });
            }
        }
        actions.push(Action::Broadcast { text: move_message(id, name, column) });
        if won {
            actions.push(Action::Broadcast { text: win_message(id, name) });
        } else if drawn {
            actions.push(Action::Broadcast { text: draw_message(id) });
        }
        proof {
            if demo {
                assert(s0.matches@[i as int].demo_ok());
                crate::server::games::lemma_left_match_one(self.clients@, self.matches@, i as int, name@);
            } else {
                crate::server::games::lemma_left_match(self.clients@, self.matches@, i as int, name@, opp@);
            }
        }
        self.release_client(name);
        if !demo {
            self.release_client(&opp);
        }
        self.remove_match(i);
        let ghost s1 = *self;
        let ghost j = actions@.len() as int;
        let ghost aj = actions@;
        proof {
            let m = s0.matches@[i as int];
            assert(j == game_over_len(m, color, o));
            if !demo {
                lemma_client_index(s0.clients@, opp@, choose|x: int| client_at(s0.clients@, opp@, x));
            }
            assert(game_over_opening(s0, i as int, name@, color, addr, column, aj));
            assert(aj.take(j) =~= aj);
        }
        if self.tournament.is_some() {
            let w = if o.1 { String::new() } else { name.clone() };
            proof {
                reveal_strlit("");
            }
            if self.record_result(&w, id, &p1, &p2, actions) {
                assert(actions@.take(j) =~= aj);
                assert(actions@.skip(j) =~= actions@.subrange(j, actions@.len() as int));
                assert(game_over(s0, *self, i as int, name@, color, addr, column, actions@, s1, *self, 0));
                return true;
            }
            let ghost mid = *self;
            let ghost k = actions@.len() as int;
            let ghost ak = actions@;
            let halted = self.after_match_exec(actions);
            proof {
                assert(ak.subrange(0, j) == aj);
                assert(actions@.subrange(0, k) == ak);
                assert(actions@.take(j) =~= aj);
                assert(actions@.subrange(j, k) =~= ak.subrange(j, k));
                assert(actions@.skip(k) =~= actions@.subrange(k, actions@.len() as int));
                assert(game_over(s0, *self, i as int, name@, color, addr, column, actions@, s1, mid, k));
            }
            return halted;
        }
        assert(game_over(s0, *self, i as int, name@, color, addr, column, actions@, s1, *self, 0));
        false
    }

    /// A move that does not decide the match at `i`: it is recorded and
    /// passed on after `delay` (a demo match gets the server's reply).
    /// Returns whether the handler stopped.
    fn continue_game(
        &mut self,
        i: usize,
        name: &String,
        color: Color,
        addr: u64,
        column: usize,
        now: u64,
        magnitude: u64,
        sign: u64,
        actions: &mut Vec<Action>,
    ) -> (halted: bool)
        requires
            old(self).wf(),
            i < old(self).matches@.len(),
            column < 7,
            old(actions)@.len() == 0,
            color == crate::types::turn_color(old(self).matches@[i as int].ledger@.len() as int),
        ensures
            final(self).wf(),
            game_goes_on(*old(self), *final(self), i as int, name@, color, addr, column, now, magnitude, sign, final(actions)@),
    {
        let ghost s0 = *self;
        let ghost m0 = self.matches@[i as int];
        let first = self.matches[i].ledger.len() == 0;
        let last = if first { 0 } else { self.matches[i].ledger[self.matches[i].ledger.len() - 1].2 };
        let delay = move_delay_exec(self.waiting_timeout, magnitude, sign, first, last, now);
        let id = self.matches[i].id;
        actions.push(Action::AbortTimeout { match_id: id });
        let mut m = self.matches.remove(i);
        m.place_token(color, column);
        m.ledger.push((color, column, now));
        proof {
            crate::types::lemma_ledger_step(board_view(&m0.board), m0.ledger@, (color, column, now));
            assert(m.ledger@ == m0.ledger@.push((color, column, now)));
        }
        if !any_open_column(&m.board) {
            actions.push(Action::Halt);
            self.matches.insert(i, m);
            proof {
                assert(self.matches@ =~= s0.matches@.update(i as int, self.matches@[i as int]));
                crate::server::lemma_seated_update(s0.clients@, s0.matches@, i as int, m);
                assert forall|k: int| 0 <= k < self.matches@.len() implies (#[trigger] self.matches@[k]).wf() && self.matches@[k].ledger_ok() && self.matches@[k].demo_ok() by {
                    if k != i {
                        assert(self.matches@[k] == s0.matches@[k]);
                    }
                }
                assert forall|a: int, b: int|
                    0 <= a < self.matches@.len() && 0 <= b < self.matches@.len() && a != b implies self.matches@[a].id
                    != self.matches@[b].id by {
                    assert(s0.matches@[a].id != s0.matches@[b].id);
                }
            }
            return true;
        }
        let ghost b = board_view(&m.board);
        let ghost ledger = m.ledger@;
        let ghost mut reply_col: int = 0;
        if m.demo_mode {
            let dc = crate::random_move(&m.board);
            let reply = color.opponent();
            m.ledger.push((reply, dc, now));
            m.place_token(reply, dc);
            proof {
                assert(reply == crate::types::turn_color(ledger.len() as int));
                crate::types::lemma_ledger_step(b, ledger, (reply, dc, now));
            }
            let server_name = String::from_str(crate::SERVER_PLAYER_USERNAME);
            let mut steps: Vec<Step> = Vec::new();
            steps.push(Step::Sleep(delay));
            steps.push(Step::ToObservers { text: move_message(id, name, column) });
            steps.push(Step::Sleep(self.waiting_timeout));
            steps.push(Step::ToConnection { to: addr, text: opponent_message(dc) });
            steps.push(Step::ToObservers { text: move_message(id, &server_name, dc) });
            actions.push(Action::Deliver { match_id: id, steps });
            assert(delivers_demo_reply(actions@[1], id, delay, addr, name@, column, s0.waiting_timeout, dc as int));
            proof {
                assert(m.ledger@ == ledger.push((opposite(color), dc, now)));
                assert(board_view(&m.board) == drop_token(b, opposite(color), dc as int));
                assert(!column_full(b, dc as int));
                reply_col = dc as int;
            }
        } else {
            let opp = if *name == m.player1 { m.player2.clone() } else { m.player1.clone() };
            let mut steps: Vec<Step> = Vec::new();
            steps.push(Step::Sleep(delay));
            steps.push(Step::ToPlayer { name: opp, text: opponent_message(column) });
            steps.push(Step::ToObservers { text: move_message(id, name, column) });
            actions.push(Action::Deliver { match_id: id, steps });
            actions.push(Action::StartTimeout {
                match_id: id,
                delay: delay.saturating_add(self.max_timeout),
                ledger_size: m.ledger.len(),
                mover: name.clone(),
                mover_addr: addr,
                player1: m.player1.clone(),
                player2: m.player2.clone(),
            });
        }
        self.matches.insert(i, m);
        proof {
            assert(self.matches@ =~= s0.matches@.update(i as int, self.matches@[i as int]));
            crate::server::lemma_seated_update(s0.clients@, s0.matches@, i as int, self.matches@[i as int]);
            assert forall|k: int| 0 <= k < self.matches@.len() implies (#[trigger] self.matches@[k]).wf() && self.matches@[k].ledger_ok() && self.matches@[k].demo_ok() by {
                if k != i {
                    assert(self.matches@[k] == s0.matches@[k]);
                }
            }
            assert forall|a: int, b: int|
                0 <= a < self.matches@.len() && 0 <= b < self.matches@.len() && a != b implies self.matches@[a].id
                != self.matches@[b].id by {
                assert(s0.matches@[a].id != s0.matches@[b].id);
            }
            assert(ledger =~= m0.ledger@.push((color, column, now)));
            let nm = self.matches@[i as int];
            assert(delay == move_delay(s0.waiting_timeout, magnitude, sign, m0.ledger@.len() == 0, m0.ledger@.last().2, now));
            assert(b == drop_token(board_view(&m0.board), color, column as int));
            assert(has_open_column(b));
            assert(*self == (Server { matches: self.matches, ..s0 }));
            assert(nm.id == m0.id && nm.player1 == m0.player1 && nm.player2 == m0.player2 && nm.demo_mode == m0.demo_mode);
            if m0.demo_mode {
                assert(0 <= reply_col < 7 && !column_full(b, reply_col) && nm.ledger@ == ledger.push(
                    (opposite(color), reply_col as usize, now),
                ) && board_view(&nm.board) == drop_token(b, opposite(color), reply_col) && delivers_demo_reply(
                    actions@[1],
                    m0.id,
                    delay,
                    addr,
                    name@,
                    column,
                    s0.waiting_timeout,
                    reply_col,
                ));
            }
            if !m0.demo_mode {
                assert(nm.ledger@ == ledger);
                assert(board_view(&nm.board) == b);
                assert(delivers_move(actions@[1], id, delay, opponent_name(m0, name@), name@, column));
                assert(times_move(actions@[2], id, saturating_sum(delay, s0.max_timeout), ledger.len(), name@, addr, m0.player1@, m0.player2@));
            }
            assert(actions@.len() >= 2);
            assert(actions@[0] == Action::AbortTimeout { match_id: m0.id });
            assert(self.matches@.len() == s0.matches@.len());
            assert(forall|j: int| 0 <= j < s0.matches@.len() && j != i ==> self.matches@[j] == s0.matches@[j]);
            assert(nm.wf());
            if m0.demo_mode {
                assert(actions@.len() == 2);
                let mm = s0.matches@[i as int];
                let bb = drop_token(board_view(&mm.board), color, column as int);
                let ll = mm.ledger@.push((color, column, now));
                let dd = move_delay(s0.waiting_timeout, magnitude, sign, mm.ledger@.len() == 0, mm.ledger@.last().2, now);
                assert(bb == b);
                assert(ll == ledger);
                assert(dd == delay);
                assert(exists|dc: int|
                    0 <= dc < 7 && !column_full(bb, dc) && nm.ledger@ == ll.push((opposite(color), dc as usize, now))
                        && board_view(&nm.board) == drop_token(bb, opposite(color), dc) && #[trigger] delivers_demo_reply(
                        actions@[1],
                        mm.id,
                        dd,
                        addr,
                        name@,
                        column,
                        s0.waiting_timeout,
                        dc,
                    ));
                assert(game_goes_on(s0, *self, i as int, name@, color, addr, column, now, magnitude, sign, actions@));
            } else {
                assert(actions@.len() == 3);
                assert(game_goes_on(s0, *self, i as int, name@, color, addr, column, now, magnitude, sign, actions@));
            }
        }
        false
    }

    /// A player moves in `column` (`now` is the time in milliseconds). See
    /// `play_outcome`: an invalid move (not the player's turn, a column past
    /// the board, or a full column) loses the match; a deciding move ends it; any other move is
    /// recorded and passed on after the move delay, varied at random by up to
    /// half a percent.
    pub fn handle_play(&mut self, addr: u64, column: usize, now: u64) -> (r: Result<Vec<Action>, String>)
        requires
            old(self).wf(),
        ensures
            final(self).wf(),
            play_outcome(*old(self), *final(self), addr, column, now, r),
    {
        let ghost s0 = *self;
        let name = match self.username_of(addr) {
            Some(n) => n,
            None => {
                return Err(String::from_str("ERROR:INVALID:MOVE"));
            },
        };
        let mut actions: Vec<Action> = Vec::new();
        let ci = match self.find_client(&name) {
            Some(i) => i,
            None => {
                actions.push(Action::Halt);
                assert(actions@ =~= seq![Action::Halt]);
                return Ok(actions);
            },
        };
        let id = match self.clients[ci].current_match {
            Some(id) => id,
            None => {
                return Err(String::from_str("ERROR:INVALID:MOVE"));
            },
        };
        let color = self.clients[ci].color;
        let mi = match self.find_match(id) {
            Some(i) => i,
            None => {
                actions.push(Action::Halt);
                assert(actions@ =~= seq![Action::Halt]);
                return Ok(actions);
            },
        };
        proof {
            assert(match_at(s0.matches@, id, mi as int));
            assert(has_match(s0.matches@, id));
            assert forall|j: int| #[trigger] match_at(s0.matches@, id, j) implies j == mi by {
                if j != mi {
                    assert(s0.matches@[j].id != s0.matches@[mi as int].id);
                }
            }
        }
        let demo = self.matches[mi].demo_mode;
        let opp = if name == self.matches[mi].player1 {
            self.matches[mi].player2.clone()
        } else {
            self.matches[mi].player1.clone()
        };
        if !demo && self.find_client(&opp).is_none() {
            actions.push(Action::Halt);
            assert(actions@ =~= seq![Action::Halt]);
            return Ok(actions);
        }
        let ledger_len = self.matches[mi].ledger.len();
        let ok = !((ledger_len == 0 && self.matches[mi].player1 != name) || (ledger_len > 0
            && self.matches[mi].ledger[ledger_len - 1].0 == color));
        let full = column >= 7 || top_taken(&self.matches[mi].board, column);
        if !ok || full {
            actions.push(Action::Send { to: addr, text: String::from_str("ERROR:INVALID:MOVE") });
            let ghost a1 = actions@;
            self.invalid_move(mi, &name, addr, &mut actions);
            proof {
                assert(actions@[0] == a1[0]);
                assert(actions@.skip(1) =~= actions@.subrange(1, actions@.len() as int));
            }
            let r: Result<Vec<Action>, String> = Ok(actions);
            assert(r->Ok_0@ == actions@);
            return r;
        }
        let mut board = copy_board(&self.matches[mi].board);
        let mut probe = Match {
            id,
            demo_mode: demo,
            board,
            ledger: Vec::new(),
            player1: String::new(),
            player2: String::new(),
        };
        probe.place_token(color, column);
        let o = probe.end_game_check();
        if o.0 != Color::Empty || o.1 {
            self.finish_game(mi, &name, color, addr, column, o, &mut actions);
            let r: Result<Vec<Action>, String> = Ok(actions);
            assert(r->Ok_0@ == actions@);
            return r;
        }
        let magnitude = crate::random_between(0, self.waiting_timeout / 200);
        let sign = crate::random_between(0, 2);
        self.continue_game(mi, &name, color, addr, column, now, magnitude, sign, &mut actions);
        let r: Result<Vec<Action>, String> = Ok(actions);
        assert(r->Ok_0@ == actions@);
        r
    }
}

} // verus!
