//! Connect Four match moderation: the board rules, the tournament formats and
//! the server's command handling, as state machines that a network front end drives.
use rand::RngExt;
use vstd::prelude::*;

pub mod commands;
pub mod lists;
pub mod protocol;
pub mod server;
pub mod text;
pub mod tournaments;
pub mod types;

use crate::types::{board_view, board_wf, column_full, Color, Match};

verus! {

/// `rand::rng().random_range(lo..=hi)` from the `rand` crate: a value drawn
/// from the thread's random generator. The contract claims only that it lies
/// in the inclusive range, which the crate's `RangeInclusive` sampler
/// guarantees for a non-empty range (it panics on an empty one).
#[verifier::external_body]
pub(crate) fn random_between(lo: u64, hi: u64) -> (r: u64)
    requires
        lo <= hi,
    ensures
        lo <= r <= hi,
{
    rand::rng().random_range(lo..=hi)
}

/// The messages that send `msg` to each of `addrs` that is an observer, in
/// the order of `addrs`.
pub fn broadcast_message(observers: &Vec<u64>, addrs: &Vec<u64>, msg: &String) -> (r: Vec<crate::server::Action>)
    ensures
        r@.len() == addrs@.filter(|a: u64| observers@.contains(a)).len(),
        forall|i: int|
            0 <= i < r@.len() ==> crate::server::sends(
                #[trigger] r@[i],
                addrs@.filter(|a: u64| observers@.contains(a))[i],
                msg@,
            ),
{
    let ghost pred = |a: u64| observers@.contains(a);
    let mut r: Vec<crate::server::Action> = Vec::new();
    let mut i: usize = 0;
    assert(addrs@.take(0).filter(pred) =~= Seq::<u64>::empty()) by {
        reveal(Seq::filter);
    }
    while i < addrs.len()
        invariant
            i <= addrs@.len(),
            pred == (|a: u64| observers@.contains(a)),
            r@.len() == addrs@.take(i as int).filter(pred).len(),
            forall|k: int|
                0 <= k < r@.len() ==> crate::server::sends(#[trigger] r@[k], addrs@.take(i as int).filter(pred)[k], msg@),
        decreases addrs@.len() - i,
    {
        let a = addrs[i];
        assert(addrs@.take(i + 1) =~= addrs@.take(i as int).push(a));
        assert(addrs@.take(i + 1).filter(pred) == if pred(a) {
            addrs@.take(i as int).filter(pred).push(a)
        } else {
            addrs@.take(i as int).filter(pred)
        }) by {
            reveal(Seq::filter);
            assert(addrs@.take(i + 1).drop_last() =~= addrs@.take(i as int));
        }
        let mut listening = false;
        let mut k: usize = 0;
        while k < observers.len()
            invariant
                k <= observers@.len(),
                listening == (exists|j: int| 0 <= j < k && observers@[j] == a),
            decreases observers@.len() - k,
        {
            if observers[k] == a {
                listening = true;
            }
            k = k + 1;
        }
        proof {
            if listening {
                let j = choose|j: int| 0 <= j < k && observers@[j] == a;
                assert(observers@.contains(a));
            } else {
                assert(!observers@.contains(a));
            }
        }
        if listening {
            r.push(crate::server::Action::Send { to: a, text: msg.clone() });
        }
        i = i + 1;
    }
    assert(addrs@.take(addrs@.len() as int) =~= addrs@);
    r
}

/// Name under which the server itself plays in demo games.
pub const SERVER_PLAYER_USERNAME: &'static str = "demo";

/// Smallest match id.
pub const MIN_MATCH_ID: u32 = 100000;

/// Largest match id.
pub const MAX_MATCH_ID: u32 = 999999;

/// Some match of `matches` has id `id`.
pub open spec fn id_in_use(matches: Seq<Match>, id: u32) -> bool {
    exists|i: int| 0 <= i < matches.len() && #[trigger] matches[i].id == id
}

/// Some id of the match id range is free.
pub open spec fn free_id_exists(matches: Seq<Match>) -> bool {
    exists|id: u32| MIN_MATCH_ID <= id <= MAX_MATCH_ID && !id_in_use(matches, id)
}

/// Whether a match with id `id` is in `matches`.
pub fn id_in_use_exec(matches: &Vec<Match>, id: u32) -> (r: bool)
    ensures
        r == id_in_use(matches@, id),
{
    let mut i: usize = 0;
    while i < matches.len()
        invariant
            i <= matches@.len(),
            forall|j: int| 0 <= j < i ==> matches@[j].id != id,
        decreases matches@.len() - i,
    {
        if matches[i].id == id {
            return true;
        }
        i = i + 1;
    }
    false
}

/// A new match id: a six-digit number that no match in `matches` uses, drawn
/// at random; `None` only when every six-digit id is taken.
pub fn try_gen_match_id(matches: &Vec<Match>) -> (r: Option<u32>)
    ensures
        r matches Some(id) ==> MIN_MATCH_ID <= id <= MAX_MATCH_ID && !id_in_use(matches@, id),
        r is None ==> !free_id_exists(matches@),
{
    let mut attempts: u32 = 0;
    while attempts < 64
        invariant
            attempts <= 64,
        decreases 64 - attempts,
    {
        let drawn = random_between(MIN_MATCH_ID as u64, MAX_MATCH_ID as u64);
        let candidate = drawn as u32;
        if !id_in_use_exec(matches, candidate) {
            return Some(candidate);
        }
        attempts = attempts + 1;
    }
    let mut candidate: u32 = MIN_MATCH_ID;
    while candidate <= MAX_MATCH_ID
        invariant
            MIN_MATCH_ID <= candidate <= MAX_MATCH_ID + 1,
            forall|id: u32| MIN_MATCH_ID <= id < candidate ==> id_in_use(matches@, id),
        decreases MAX_MATCH_ID + 1 - candidate,
    {
        if !id_in_use_exec(matches, candidate) {
            return Some(candidate);
        }
        candidate = candidate + 1;
    }
    None
}

/// A new match id: a six-digit number, drawn at random, that no match in
/// `matches` uses. Some such number must be free (else no id can be found).
pub fn gen_match_id(matches: &Vec<Match>) -> (id: u32)
    requires
        free_id_exists(matches@),
    ensures
        MIN_MATCH_ID <= id <= MAX_MATCH_ID,
        !id_in_use(matches@, id),
{
    match try_gen_match_id(matches) {
        Some(id) => id,
        None => {
            proof {
                assert(false);
            }
            MIN_MATCH_ID
        },
    }
}

/// Some column of the board can still take a token.
pub open spec fn has_open_column(b: Seq<Seq<Color>>) -> bool {
    exists|c: int| 0 <= c < 7 && !column_full(b, c)
}

/// The columns that can still take a token, from left to right.
pub open spec fn open_columns(b: Seq<Seq<Color>>) -> Seq<int>
    decreases 7int,
{
    open_columns_below(b, 7)
}

/// The open columns among the first `n`, from left to right.
pub open spec fn open_columns_below(b: Seq<Seq<Color>>, n: int) -> Seq<int>
    decreases n,
{
    if n <= 0 {
        Seq::empty()
    } else if !column_full(b, n - 1) {
        open_columns_below(b, n - 1).push(n - 1)
    } else {
        open_columns_below(b, n - 1)
    }
}

proof fn lemma_open_columns_below(b: Seq<Seq<Color>>, n: int)
    requires
        0 <= n <= 7,
    ensures
        forall|k: int| 0 <= k < open_columns_below(b, n).len() ==> 0 <= #[trigger] open_columns_below(b, n)[k] < n
            && !column_full(b, open_columns_below(b, n)[k]),
        forall|c: int| 0 <= c < n && !column_full(b, c) ==> open_columns_below(b, n).contains(c),
    decreases n,
{
    if n > 0 {
        lemma_open_columns_below(b, n - 1);
        let prev = open_columns_below(b, n - 1);
        if !column_full(b, n - 1) {
            assert forall|c: int| 0 <= c < n && !column_full(b, c) implies open_columns_below(b, n).contains(c) by {
                if c < n - 1 {
                    let k = choose|k: int| 0 <= k < prev.len() && prev[k] == c;
                    assert(open_columns_below(b, n)[k] == c);
                } else {
                    assert(open_columns_below(b, n)[prev.len() as int] == c);
                }
            }
        }
    }
}

/// The column at position `draw` among the open columns of the board.
pub fn pick_open_column(board: &Vec<Vec<Color>>, draw: usize) -> (c: usize)
    requires
        board_wf(board_view(board)),
        draw < open_columns(board_view(board)).len(),
    ensures
        c == open_columns(board_view(board))[draw as int],
        c < 7,
        !column_full(board_view(board), c as int),
{
    let ghost b = board_view(board);
    proof {
        crate::types::lemma_board_view(board);
        lemma_open_columns_below(b, 7);
    }
    let mut open: Vec<usize> = Vec::new();
    let mut x: usize = 0;
    while x < 7
        invariant
            x <= 7,
            b == board_view(board),
            board_wf(b),
            forall|i: int| 0 <= i < 7 ==> #[trigger] board@[i]@.len() == 6,
            forall|i: int| 0 <= i < board@.len() ==> #[trigger] b[i] == board@[i]@,
            open@.len() == open_columns_below(b, x as int).len(),
            forall|k: int| 0 <= k < open@.len() ==> open@[k] as int == open_columns_below(b, x as int)[k],
        decreases 7 - x,
    {
        if board[x][5] != Color::Empty {
        } else {
            open.push(x);
        }
        x = x + 1;
    }
    open[draw]
}

/// Number of columns that can still take a token.
fn count_open_columns(board: &Vec<Vec<Color>>) -> (n: usize)
    requires
        board_wf(board_view(board)),
    ensures
        n == open_columns(board_view(board)).len(),
        n <= 7,
{
    let ghost b = board_view(board);
    proof {
        crate::types::lemma_board_view(board);
    }
    let mut n: usize = 0;
    let mut x: usize = 0;
    while x < 7
        invariant
            x <= 7,
            n <= x,
            b == board_view(board),
            board_wf(b),
            forall|i: int| 0 <= i < 7 ==> #[trigger] board@[i]@.len() == 6,
            forall|i: int| 0 <= i < board@.len() ==> #[trigger] b[i] == board@[i]@,
            n == open_columns_below(b, x as int).len(),
        decreases 7 - x,
    {
        if board[x][5] == Color::Empty {
            n = n + 1;
        }
        x = x + 1;
    }
    n
}

/// A column, drawn at random among those that can still take a token.
pub fn random_move(board: &Vec<Vec<Color>>) -> (c: usize)
    requires
        board_wf(board_view(board)),
        has_open_column(board_view(board)),
    ensures
        c < 7,
        !column_full(board_view(board), c as int),
{
    proof {
        lemma_open_columns_below(board_view(board), 7);
    }
    let n = count_open_columns(board);
    let draw = random_between(0, (n - 1) as u64);
    pick_open_column(board, draw as usize)
}

} // verus!
