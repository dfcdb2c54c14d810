//! A knockout bracket. The players are seeded by a quick round robin (or
//! taken in the order of a bracket file that lists exactly the entrants);
//! neighbours in the bracket play each other, the loser's place is cleared,
//! and the survivors close up for the next round until one is left.
use vstd::prelude::*;
use vstd::string::*;
use crate::lists::{copy_names, contains_name, remove_id, without};
use crate::tournaments::round_robin::{round_events, rr_recorded};
use crate::text::{lemma_split_on_len, lemma_views, pop_char, pop_last, split_on, split_text, views};
use crate::tournaments::round_robin::{pair_views, RoundRobin};
use crate::tournaments::standings::{entries_view, sort_by_score, sorted_by_score};
use crate::tournaments::TournamentEvent;

verus! {

/// Neighbours in the bracket: places 0 and 1, 2 and 3, and so on; an odd last
/// place has no opponent.
pub open spec fn bracket_pairs(p: Seq<Seq<char>>) -> Seq<(Seq<char>, Seq<char>)>
    decreases p.len(),
{
    if p.len() < 2 {
        Seq::empty()
    } else {
        seq![(p[0], p[1])] + bracket_pairs(p.subrange(2, p.len() as int))
    }
}

/// The lines of a bracket file.
pub open spec fn bracket_lines(file: Seq<char>) -> Seq<Seq<char>> {
    split_on(file, '\n')
}

/// The bracket file lists exactly the entrants: as many lines as entrants,
/// each of them an entrant's name.
pub open spec fn file_matches_entrants(file: Seq<char>, entrants: Seq<Seq<char>>) -> bool {
    let lines = bracket_lines(file);
    &&& lines.len() == entrants.len()
    &&& forall|i: int| 0 <= i < lines.len() ==> entrants.contains(#[trigger] lines[i])
}

/// A new bracket skips its seeding round exactly when its file has one line
/// per entrant and every line is the name of an entrant; a line naming
/// anybody else means the bracket is seeded by a round robin.
pub proof fn law_bracket_skips_seeding_only_for_its_entrants(
    kb: KnockoutBracket,
    names: Seq<Seq<char>>,
    wait: u64,
    file: Seq<char>,
)
    requires
        kb.fresh(names, wait, file),
    ensures
        kb.skip_round_robin ==> forall|i: int| 0 <= i < bracket_lines(file).len() ==> names.contains(
            #[trigger] bracket_lines(file)[i],
        ),
        kb.skip_round_robin ==> bracket_lines(file).len() == names.len(),
        (exists|i: int| 0 <= i < bracket_lines(file).len() && !names.contains(#[trigger] bracket_lines(file)[i]))
            ==> !kb.skip_round_robin,
        bracket_lines(file).len() == names.len() && (forall|i: int|
            0 <= i < bracket_lines(file).len() ==> names.contains(#[trigger] bracket_lines(file)[i]))
            ==> kb.skip_round_robin,
{
}

/// Each name followed by a comma.
pub open spec fn names_with_commas(r: Seq<Seq<char>>) -> Seq<char>
    decreases r.len(),
{
    if r.len() == 0 {
        Seq::empty()
    } else {
        names_with_commas(r.drop_last()) + r.last() + seq![',']
    }
}

/// The rounds written one after another: each round's names, separated by
/// commas, then a bar (an empty round takes back the bar before it).
pub open spec fn rounds_text(rounds: Seq<Seq<Seq<char>>>) -> Seq<char>
    decreases rounds.len(),
{
    if rounds.len() == 0 {
        Seq::empty()
    } else {
        pop_last(rounds_text(rounds.drop_last()) + names_with_commas(rounds.last())).push('|')
    }
}

/// The bracket as published: the rounds' text without the last bar.
pub open spec fn bracket_text(rounds: Seq<Seq<Seq<char>>>) -> Seq<char> {
    pop_last(rounds_text(rounds))
}

/// The views of the rounds of a bracket.
pub open spec fn rounds_view(d: Seq<Vec<String>>) -> Seq<Seq<Seq<char>>> {
    d.map_values(|r: Vec<String>| views(r@))
}

/// The names of seeded players.
pub open spec fn seed_names(p: Seq<(String, u32, bool)>) -> Seq<Seq<char>> {
    p.map_values(|e: (String, u32, bool)| e.0@)
}

/// Seeded players by name and seed.
pub open spec fn seeds_view(p: Seq<(String, u32, bool)>) -> Seq<(Seq<char>, u32)> {
    p.map_values(|e: (String, u32, bool)| (e.0@, e.1))
}

/// The places still occupied, in order.
pub open spec fn occupied(p: Seq<Seq<char>>) -> Seq<Seq<char>>
    decreases p.len(),
{
    if p.len() == 0 {
        p
    } else if p.last().len() == 0 {
        occupied(p.drop_last())
    } else {
        occupied(p.drop_last()).push(p.last())
    }
}

/// What a tie-break looks up: scanning the seeds in order, the last seed
/// named `player1` and the last one named `player2` (not `player1`) seen
/// before both have been found. Unfound seeds are empty with seed 0.
pub open spec fn tie_tracks(
    p: Seq<(Seq<char>, u32, bool)>,
    player1: Seq<char>,
    player2: Seq<char>,
    k: int,
) -> ((Seq<char>, u32, bool), (Seq<char>, u32, bool))
    decreases k,
{
    if k <= 0 {
        ((Seq::empty(), 0, false), (Seq::empty(), 0, false))
    } else {
        let prev = tie_tracks(p, player1, player2, k - 1);
        if prev.0.0.len() != 0 && prev.1.0.len() != 0 {
            prev
        } else {
            let e = p[k - 1];
            if e.0 == player1 {
                (e, prev.1)
            } else if e.0 == player2 {
                (prev.0, e)
            } else {
                prev
            }
        }
    }
}

/// The seeds by name, seed and tie flag.
pub open spec fn seeds_full(p: Seq<(String, u32, bool)>) -> Seq<(Seq<char>, u32, bool)> {
    p.map_values(|e: (String, u32, bool)| (e.0@, e.1, e.2))
}

/// Once both players have been found, the scan is over.
pub proof fn lemma_tracks_stay(p: Seq<(Seq<char>, u32, bool)>, player1: Seq<char>, player2: Seq<char>, k: int, n: int)
    requires
        0 <= k <= n,
        tie_tracks(p, player1, player2, k).0.0.len() != 0,
        tie_tracks(p, player1, player2, k).1.0.len() != 0,
    ensures
        tie_tracks(p, player1, player2, n) == tie_tracks(p, player1, player2, k),
    decreases n - k,
{
    if k < n {
        lemma_tracks_stay(p, player1, player2, k, n - 1);
    }
}

/// Where the winner stands in the bracket, and who their opponent was.
pub open spec fn first_place_of(p: Seq<Seq<char>>, name: Seq<char>, i: int) -> bool {
    &&& 0 <= i < p.len()
    &&& p[i] == name
    &&& forall|j: int| 0 <= j < i ==> p[j] != name
}

/// The opponent's place of the player at place `i`.
pub open spec fn opponent_place(i: int) -> int {
    if i % 2 == 0 {
        i + 1
    } else {
        i - 1
    }
}

/// What recording a result led to.
pub enum Recorded {
    /// The result was taken into account.
    Done,
    /// A first tie in the bracket: the two play again, `first` moving first.
    Rematch { first: String, second: String },
    /// The winner sits at the last place with no opponent, so there is no
    /// partner place to clear and nothing was recorded.
    Halted,
}

pub open spec fn kb_started(old: KnockoutBracket, new: KnockoutBracket, bracket_file: Seq<char>, ev: Seq<TournamentEvent>) -> bool {
    &&& (old.skip_round_robin ==> {
        let lines = bracket_lines(bracket_file);
        &&& new.started
        &&& new.blitz_round_robin == (RoundRobin { completed: true, ..old.blitz_round_robin })
        &&& seeds_full(new.players@) == seeds_full(old.players@) + Seq::new(
            lines.len(),
            |i: int| (lines[i], i as u32, false),
        )
        &&& views(new.pairings@) == views(old.pairings@) + lines
        &&& rounds_view(new.data@) == rounds_view(old.data@).push(views(new.pairings@))
        &&& new.completed == old.completed
        &&& new.current_matches == old.current_matches
        &&& new.usernames == old.usernames
        &&& ev.len() == 2
        &&& ev[0] matches TournamentEvent::Pairings(p) && pair_views(p@) == bracket_pairs(
            views(new.pairings@),
        )
        &&& ev[1] is BracketData
    })
    &&& (!old.skip_round_robin ==> {
        &&& ev.len() >= 1
        &&& ev[0] == TournamentEvent::SetWaitingTimeout(5)
        &&& old.blitz_round_robin.completed ==> ev.len() == 1
            && new.blitz_round_robin == old.blitz_round_robin
        &&& !old.blitz_round_robin.completed ==> {
            &&& new.blitz_round_robin == (RoundRobin {
                rounds_played: 1,
                ..old.blitz_round_robin
            })
            &&& ev.len() == 2
            &&& ev[1] matches TournamentEvent::Pairings(p) && pair_views(p@)
                == old.blitz_round_robin.round_pairs()
        }
        &&& new == (KnockoutBracket {
            blitz_round_robin: new.blitz_round_robin,
            ..old
        })
    })
}

pub open spec fn kb_moved_on(old: KnockoutBracket, new: KnockoutBracket, ev: Seq<TournamentEvent>) -> bool {
    &&& (old.completed ==> ev.len() == 0 && new == old)
    &&& (!old.completed && !old.started ==> {
        let rr_events = if old.blitz_round_robin.completed { 0int } else { ev.len() - (if new.started { 3int } else { 0int }) };
        &&& 0 <= rr_events <= ev.len()
        &&& old.blitz_round_robin.completed ==> rr_events == 0
            && new.blitz_round_robin == old.blitz_round_robin
        &&& !old.blitz_round_robin.completed ==> round_events(
            old.blitz_round_robin,
            new.blitz_round_robin,
            ev.take(rr_events),
        )
        &&& new.started == new.blitz_round_robin.completed
        &&& !new.completed
        &&& new.started ==> {
            &&& ev.len() == rr_events + 3
            &&& ev[rr_events] == TournamentEvent::SetWaitingTimeout(old.previous_wait)
            &&& ev[rr_events + 1] matches TournamentEvent::Pairings(p) && pair_views(p@)
                == bracket_pairs(views(new.pairings@))
            &&& ev[rr_events + 2] is BracketData
            &&& seeds_view(new.players@).to_multiset() == entries_view(
                new.blitz_round_robin.players@,
            ).to_multiset()
            &&& sorted_by_score(seeds_view(new.players@), false)
            &&& forall|i: int| 0 <= i < new.players@.len() ==> !(#[trigger] new.players@[i]).2
            &&& views(new.pairings@) == views(old.pairings@) + seed_names(new.players@)
            &&& rounds_view(new.data@) == rounds_view(old.data@).push(
                views(new.pairings@),
            )
        }
        &&& !new.started ==> {
            &&& new.players == old.players
            &&& new.pairings == old.pairings
            &&& new.data == old.data
        }
        &&& new.current_matches == old.current_matches
        &&& new.usernames == old.usernames
    })
    &&& (!old.completed && old.started ==> {
        &&& views(new.pairings@) == occupied(views(old.pairings@))
        &&& new.completed == (new.pairings@.len() == 1)
        &&& new.completed ==> ev.len() == 0 && new.data == old.data
        &&& !new.completed ==> {
            &&& rounds_view(new.data@) == rounds_view(old.data@).push(
                views(new.pairings@),
            )
            &&& ev.len() == 2
            &&& ev[0] matches TournamentEvent::Pairings(p) && pair_views(p@) == bracket_pairs(
                views(new.pairings@),
            )
            &&& ev[1] is BracketData
        }
        &&& new.started
        &&& new.players == old.players
        &&& new.blitz_round_robin == old.blitz_round_robin
        &&& new.current_matches == old.current_matches
        &&& new.usernames == old.usernames
    })
}

pub open spec fn kb_recorded(old: KnockoutBracket, new: KnockoutBracket, winner: Seq<char>, match_id: u32, player1: Seq<char>, player2: Seq<char>, r: Recorded) -> bool {
    &&& (!old.started ==> {
        &&& r is Done
        &&& rr_recorded(old.blitz_round_robin, new.blitz_round_robin, winner, match_id)
        &&& new == (KnockoutBracket {
            blitz_round_robin: new.blitz_round_robin,
            ..old
        })
    })
    &&& (old.started ==> {
        let tracks = tie_tracks(
            seeds_full(old.players@),
            player1,
            player2,
            old.players@.len() as int,
        );
        let rematch = winner.len() == 0 && !tracks.0.2 && !tracks.1.2;
        let w = KnockoutBracket::effective_winner(winner, tracks);
        let places = views(old.pairings@);
        &&& rematch ==> {
            &&& r matches Recorded::Rematch { first, second } && first@ == player2 && second@ == player1
            &&& new.players@.len() == old.players@.len()
            &&& forall|i: int| 0 <= i < old.players@.len() ==> {
                &&& (#[trigger] new.players@[i]).0 == old.players@[i].0
                &&& new.players@[i].1 == old.players@[i].1
                &&& new.players@[i].2 == (old.players@[i].2 || old.players@[i].0@
                    == player1 || old.players@[i].0@ == player2)
            }
            &&& new == (KnockoutBracket { players: new.players, ..old })
        }
        &&& !rematch ==> {
            &&& (exists|i: int| #[trigger] first_place_of(places, w, i) && opponent_place(i) >= places.len())
                ==> r is Halted && new == old
            &&& !(exists|i: int| #[trigger] first_place_of(places, w, i) && opponent_place(i) >= places.len())
                ==> {
                let loser = if exists|i: int| first_place_of(places, w, i) {
                    places[opponent_place(choose|i: int| first_place_of(places, w, i))]
                } else {
                    Seq::<char>::empty()
                };
                &&& r is Done
                &&& views(new.pairings@) == if exists|i: int| first_place_of(places, w, i) {
                    places.update(
                        opponent_place(choose|i: int| first_place_of(places, w, i)),
                        Seq::<char>::empty(),
                    )
                } else {
                    places
                }
                &&& new.players@.len() == old.players@.len()
                &&& forall|i: int| 0 <= i < old.players@.len() ==> {
                    &&& (#[trigger] new.players@[i]).0 == old.players@[i].0
                    &&& new.players@[i].1 == old.players@[i].1
                    &&& new.players@[i].2 == (old.players@[i].2 && old.players@[i].0@
                        != w && old.players@[i].0@ != loser)
                }
                &&& new.current_matches@ == without(old.current_matches@, match_id)
                &&& new.blitz_round_robin == old.blitz_round_robin
                &&& new.data == old.data
                &&& new.started == old.started
                &&& new.completed == old.completed
                &&& new.usernames == old.usernames
                &&& new.skip_round_robin == old.skip_round_robin
                &&& new.previous_wait == old.previous_wait
            }
        }
    })
}

/// The tracked seed for a name is empty or carries that name, and it is
/// found when some seed before `k` carries the (non-empty) name.
pub proof fn lemma_tracks_found(p: Seq<(Seq<char>, u32, bool)>, player1: Seq<char>, player2: Seq<char>, k: int)
    requires
        0 <= k <= p.len(),
        player1 != player2,
    ensures
        tie_tracks(p, player1, player2, k).0.0.len() == 0 || tie_tracks(p, player1, player2, k).0.0 == player1,
        tie_tracks(p, player1, player2, k).1.0.len() == 0 || tie_tracks(p, player1, player2, k).1.0 == player2,
        player1.len() > 0 && (exists|i: int| 0 <= i < k && #[trigger] p[i].0 == player1) ==> tie_tracks(
            p,
            player1,
            player2,
            k,
        ).0.0.len() > 0,
        player2.len() > 0 && (exists|i: int| 0 <= i < k && #[trigger] p[i].0 == player2) ==> tie_tracks(
            p,
            player1,
            player2,
            k,
        ).1.0.len() > 0,
    decreases k,
{
    if k > 0 {
        lemma_tracks_found(p, player1, player2, k - 1);
        if player1.len() > 0 && (exists|i: int| 0 <= i < k && #[trigger] p[i].0 == player1) {
            let i = choose|i: int| 0 <= i < k && #[trigger] p[i].0 == player1;
            if i < k - 1 {
                assert(exists|j: int| 0 <= j < k - 1 && #[trigger] p[j].0 == player1);
            }
        }
        if player2.len() > 0 && (exists|i: int| 0 <= i < k && #[trigger] p[i].0 == player2) {
            let i = choose|i: int| 0 <= i < k && #[trigger] p[i].0 == player2;
            if i < k - 1 {
                assert(exists|j: int| 0 <= j < k - 1 && #[trigger] p[j].0 == player2);
            }
        }
    }
}

/// A second draw is a win for the better seed: in a started bracket, when
/// the tie-break finds that one of the two players has tied before,
/// recording a draw (an empty winner) is exactly recording a win for the
/// player with the higher seed number (`player1` on equal seeds).
pub proof fn law_second_draw_goes_to_better_seed(
    old: KnockoutBracket,
    new: KnockoutBracket,
    match_id: u32,
    player1: Seq<char>,
    player2: Seq<char>,
    r: Recorded,
)
    requires
        old.started,
        player1.len() > 0,
        player2.len() > 0,
        player1 != player2,
        exists|i: int| 0 <= i < old.players@.len() && #[trigger] old.players@[i].0@ == player1,
        exists|i: int| 0 <= i < old.players@.len() && #[trigger] old.players@[i].0@ == player2,
        ({
            let t = tie_tracks(seeds_full(old.players@), player1, player2, old.players@.len() as int);
            t.0.2 || t.1.2
        }),
    ensures
        ({
            let t = tie_tracks(seeds_full(old.players@), player1, player2, old.players@.len() as int);
            let w = if t.0.1 < t.1.1 { player2 } else { player1 };
            kb_recorded(old, new, Seq::<char>::empty(), match_id, player1, player2, r) == kb_recorded(
                old,
                new,
                w,
                match_id,
                player1,
                player2,
                r,
            )
        }),
{
    let p = seeds_full(old.players@);
    let n = old.players@.len() as int;
    let i1 = choose|i: int| 0 <= i < old.players@.len() && #[trigger] old.players@[i].0@ == player1;
    let i2 = choose|i: int| 0 <= i < old.players@.len() && #[trigger] old.players@[i].0@ == player2;
    assert(p[i1].0 == player1);
    assert(p[i2].0 == player2);
    lemma_tracks_found(p, player1, player2, n);
    let t = tie_tracks(p, player1, player2, n);
    assert(t.0.0 == player1);
    assert(t.1.0 == player2);
    let w = if t.0.1 < t.1.1 { player2 } else { player1 };
    assert(KnockoutBracket::effective_winner(Seq::<char>::empty(), t) == w);
    assert(KnockoutBracket::effective_winner(w, t) == w);
}

/// A knockout bracket, seeded by a round robin unless the bracket file lists
/// exactly the entrants.
pub struct KnockoutBracket {
    pub blitz_round_robin: RoundRobin,
    pub players: Vec<(String, u32, bool)>,
    pub pairings: Vec<String>,
    pub current_matches: Vec<u32>,
    pub previous_wait: u64,
    pub completed: bool,
    pub started: bool,
    pub skip_round_robin: bool,
    pub usernames: Vec<String>,
    pub data: Vec<Vec<String>>,
}

/// Neighbours in the bracket, as pairings.
pub fn pair_neighbours(p: &Vec<String>) -> (r: Vec<(String, String)>)
    ensures
        pair_views(r@) == bracket_pairs(views(p@)),
{
    let mut r: Vec<(String, String)> = Vec::new();
    let mut i: usize = 0;
    proof {
        lemma_views(p@);
        assert(views(p@).subrange(0, views(p@).len() as int) =~= views(p@));
        assert(pair_views(r@) =~= Seq::<(Seq<char>, Seq<char>)>::empty());
    }
    while i < p.len() && p.len() - i > 1
        invariant
            i <= p@.len(),
            views(p@).len() == p@.len(),
            forall|k: int| 0 <= k < p@.len() ==> #[trigger] views(p@)[k] == p@[k]@,
            pair_views(r@) + bracket_pairs(views(p@).subrange(i as int, p@.len() as int)) == bracket_pairs(
                views(p@),
            ),
        decreases p@.len() - i,
    {
        let ghost rest = views(p@).subrange(i as int, p@.len() as int);
        assert(rest.subrange(2, rest.len() as int) =~= views(p@).subrange(i + 2, p@.len() as int));
        let pair = (p[i].clone(), p[i + 1].clone());
        let ghost old_r = r@;
        r.push(pair);
        assert(pair_views(r@) =~= pair_views(old_r).push((pair.0@, pair.1@)));
        assert(pair_views(r@) + bracket_pairs(views(p@).subrange(i + 2, p@.len() as int)) =~= pair_views(old_r) + bracket_pairs(rest));
        i = i + 2;
    }
    assert(bracket_pairs(views(p@).subrange(i as int, p@.len() as int)) =~= Seq::<(Seq<char>, Seq<char>)>::empty());
    assert(pair_views(r@) =~= pair_views(r@) + Seq::<(Seq<char>, Seq<char>)>::empty());
    r
}

/// The bracket as published.
pub fn bracket_text_exec(data: &Vec<Vec<String>>) -> (r: String)
    ensures
        r@ == bracket_text(rounds_view(data@)),
{
    let mut message = String::new();
    let mut k: usize = 0;
    assert(rounds_view(data@).take(0) =~= Seq::<Seq<Seq<char>>>::empty());
    while k < data.len()
        invariant
            k <= data@.len(),
            message@ == rounds_text(rounds_view(data@).take(k as int)),
        decreases data@.len() - k,
    {
        let round = &data[k];
        let ghost start = message@;
        let mut j: usize = 0;
        assert(views(round@).take(0) =~= Seq::<Seq<char>>::empty());
        assert(start + names_with_commas(views(round@).take(0)) =~= start);
        while j < round.len()
            invariant
                j <= round@.len(),
                message@ == start + names_with_commas(views(round@).take(j as int)),
            decreases round@.len() - j,
        {
            message.append(round[j].as_str());
            proof {
                reveal_strlit(",");
                lemma_views(round@);
            }
            message.append(",");
            assert(views(round@).take(j + 1).drop_last() =~= views(round@).take(j as int));
            assert(views(round@).take(j + 1).last() == round@[j as int]@);
            assert(message@ =~= start + names_with_commas(views(round@).take(j + 1)));
            j = j + 1;
        }
        assert(views(round@).take(round@.len() as int) =~= views(round@));
        message = pop_char(message);
        proof {
            reveal_strlit("|");
        }
        message.append("|");
        assert(rounds_view(data@).take(k + 1).drop_last() =~= rounds_view(data@).take(k as int));
        assert(rounds_view(data@).take(k + 1).last() == views(round@));
        assert(message@ =~= rounds_text(rounds_view(data@).take(k + 1)));
        k = k + 1;
    }
    assert(rounds_view(data@).take(data@.len() as int) =~= rounds_view(data@));
    pop_char(message)
}

impl KnockoutBracket {
    /// The bracket is well formed: its seeding round robin is, and once over
    /// a bracket holds its winner's place.
    pub open spec fn wf(&self) -> bool {
        &&& self.blitz_round_robin.wf()
        &&& self.completed ==> self.pairings@.len() >= 1
    }

    /// A bracket for the given players, not started, seeded by a fresh
    /// round robin unless the bracket file lists exactly the entrants.
    pub open spec fn fresh(&self, names: Seq<Seq<char>>, previous_wait: u64, bracket_file: Seq<char>) -> bool {
        &&& self.wf()
        &&& self.skip_round_robin == file_matches_entrants(bracket_file, names)
        &&& self.previous_wait == previous_wait
        &&& views(self.usernames@) == names
        &&& self.blitz_round_robin.fresh(names)
        &&& self.players@.len() == 0
        &&& self.pairings@.len() == 0
        &&& self.current_matches@.len() == 0
        &&& self.data@.len() == 0
        &&& !self.completed
        &&& !self.started
    }

    /// Well formed and started: `next` may be called.
    pub open spec fn running(&self) -> bool {
        self.wf() && (self.started || self.blitz_round_robin.running())
    }

    /// A bracket for the given players, not started. `previous_wait` is the
    /// move delay to restore once the seeding round is over; `bracket_file`
    /// is the content of the bracket file (empty if it cannot be read).
    pub fn new(ready_players: &Vec<String>, previous_wait: u64, bracket_file: &str) -> (r: KnockoutBracket)
        requires
            ready_players@.len() < u32::MAX,
        ensures
            r.fresh(views(ready_players@), previous_wait, bracket_file@),
    {
        let lines = split_text(bracket_file, '\n');
        proof {
            lemma_views(lines@);
            lemma_views(ready_players@);
        }
        let mut all_listed = true;
        let mut i: usize = 0;
        while i < lines.len()
            invariant
                i <= lines@.len(),
                views(lines@) == bracket_lines(bracket_file@),
                views(lines@).len() == lines@.len(),
                forall|k: int| 0 <= k < lines@.len() ==> #[trigger] views(lines@)[k] == lines@[k]@,
                all_listed == forall|k: int|
                    0 <= k < i ==> views(ready_players@).contains(#[trigger] bracket_lines(bracket_file@)[k]),
            decreases lines@.len() - i,
        {
            let listed = contains_name(ready_players, &lines[i]);
            assert(bracket_lines(bracket_file@)[i as int] == lines@[i as int]@);
            if !listed {
                all_listed = false;
            }
            i = i + 1;
            assert(all_listed == forall|k: int|
                0 <= k < i ==> views(ready_players@).contains(#[trigger] bracket_lines(bracket_file@)[k])) by {
                if all_listed {
                    assert forall|k: int| 0 <= k < i implies views(ready_players@).contains(
                        #[trigger] bracket_lines(bracket_file@)[k],
                    ) by {
                        if k == i - 1 {
                        } else {
                        }
                    }
                }
            }
        }
        let skip_round_robin = lines.len() == ready_players.len() && all_listed;
        KnockoutBracket {
            blitz_round_robin: RoundRobin::new(ready_players),
            players: Vec::new(),
            pairings: Vec::new(),
            current_matches: Vec::new(),
            previous_wait,
            completed: false,
            started: false,
            skip_round_robin,
            usernames: copy_names(ready_players),
            data: Vec::new(),
        }
    }

    /// Starts the tournament. With a bracket file listing exactly the
    /// entrants, the seeding round is skipped: the file's lines (as read now)
    /// are seeded in order, form the first round, and the bracket is
    /// published. Otherwise moves are passed on after 5 ms and the seeding
    /// round robin starts.
    pub fn start(&mut self, bracket_file: &str) -> (r: Vec<TournamentEvent>)
        requires
            old(self).wf(),
            bracket_file@.len() < u32::MAX,
        ensures
            final(self).wf(),
            kb_started(*old(self), *final(self), bracket_file@, r@),
    {
        let mut events: Vec<TournamentEvent> = Vec::new();
        if self.skip_round_robin {
            self.blitz_round_robin.completed = true;
            self.started = true;
            let lines = split_text(bracket_file, '\n');
            proof {
                lemma_split_on_len(bracket_file@, '\n');
                lemma_views(lines@);
            }
            let ghost old_players = seeds_full(self.players@);
            let ghost old_pairings = views(self.pairings@);
            let mut i: usize = 0;
            while i < lines.len()
                invariant
                    i <= lines@.len(),
                    lines@.len() <= u32::MAX,
                    views(lines@) == bracket_lines(bracket_file@),
                    forall|k: int| 0 <= k < lines@.len() ==> #[trigger] views(lines@)[k] == lines@[k]@,
                    seeds_full(self.players@) == old_players + Seq::new(
                        i as nat,
                        |k: int| (bracket_lines(bracket_file@)[k], k as u32, false),
                    ),
                    views(self.pairings@) == old_pairings + bracket_lines(bracket_file@).take(i as int),
                    self.blitz_round_robin == (RoundRobin { completed: true, ..old(self).blitz_round_robin }),
                    self.started,
                    self.completed == old(self).completed,
                    self.current_matches == old(self).current_matches,
                    self.usernames == old(self).usernames,
                    self.data == old(self).data,
                    old(self).completed ==> old(self).pairings@.len() >= 1,
                    self.pairings@.len() >= old(self).pairings@.len(),
                decreases lines@.len() - i,
            {
                let line = lines[i].clone();
                let ghost before_players = seeds_full(self.players@);
                let ghost before_pairings = views(self.pairings@);
                self.players.push((line.clone(), i as u32, false));
                self.pairings.push(line);
                assert(seeds_full(self.players@) =~= before_players.push((line@, i as u32, false)));
                assert(views(self.pairings@) =~= before_pairings.push(line@));
                i = i + 1;
                assert(seeds_full(self.players@) =~= old_players + Seq::new(
                    i as nat,
                    |k: int| (bracket_lines(bracket_file@)[k], k as u32, false),
                ));
                assert(bracket_lines(bracket_file@).take(i as int) =~= bracket_lines(bracket_file@).take(
                    i - 1,
                ).push(line@));
                assert(views(self.pairings@) =~= old_pairings + bracket_lines(bracket_file@).take(i as int));
            }
            assert(bracket_lines(bracket_file@).take(lines@.len() as int) =~= bracket_lines(bracket_file@));
            let round = copy_names(&self.pairings);
            let ghost before_data = rounds_view(self.data@);
            self.data.push(round);
            assert(rounds_view(self.data@) =~= before_data.push(views(self.pairings@)));
            events.push(TournamentEvent::Pairings(pair_neighbours(&self.pairings)));
            events.push(TournamentEvent::BracketData);
        } else {
            events.push(TournamentEvent::SetWaitingTimeout(5));
            match self.blitz_round_robin.start() {
                Some(pairs) => {
                    events.push(TournamentEvent::Pairings(pairs));
                },
                None => {},
            }
        }
        events
    }

    /// Seeds the bracket from the finished round robin: lowest score first
    /// (equal scores keep their order), no tie flagged; the seeds are added
    /// to the bracket, which is recorded as a round.
    fn seed_from_round_robin(&mut self)
        requires
            old(self).wf(),
        ensures
            final(self).wf(),
            seeds_view(final(self).players@).to_multiset() == entries_view(
                old(self).blitz_round_robin.players@,
            ).to_multiset(),
            sorted_by_score(seeds_view(final(self).players@), false),
            forall|i: int| 0 <= i < final(self).players@.len() ==> !(#[trigger] final(self).players@[i]).2,
            views(final(self).pairings@) == views(old(self).pairings@) + seed_names(final(self).players@),
            rounds_view(final(self).data@) == rounds_view(old(self).data@).push(views(final(self).pairings@)),
            final(self).blitz_round_robin == old(self).blitz_round_robin,
            final(self).started == old(self).started,
            final(self).completed == old(self).completed,
            final(self).skip_round_robin == old(self).skip_round_robin,
            final(self).previous_wait == old(self).previous_wait,
            final(self).current_matches == old(self).current_matches,
            final(self).usernames == old(self).usernames,
    {
        let sorted = sort_by_score(&self.blitz_round_robin.players, false);
        let mut players: Vec<(String, u32, bool)> = Vec::new();
        let mut i: usize = 0;
        while i < sorted.len()
            invariant
                i <= sorted@.len(),
                players@.len() == i,
                forall|k: int| 0 <= k < i ==> (#[trigger] players@[k]).0@ == sorted@[k].0@ && players@[k].1
                    == sorted@[k].1 && !players@[k].2,
            decreases sorted@.len() - i,
        {
            players.push((sorted[i].0.clone(), sorted[i].1, false));
            i = i + 1;
        }
        assert(seeds_view(players@) =~= entries_view(sorted@));
        self.players = players;
        let ghost old_pairings = views(self.pairings@);
        let mut k: usize = 0;
        while k < self.players.len()
            invariant
                k <= self.players@.len(),
                views(self.pairings@) == old_pairings + seed_names(self.players@).take(k as int),
                self.pairings@.len() >= old(self).pairings@.len(),
                self.blitz_round_robin == old(self).blitz_round_robin,
                self.started == old(self).started,
                self.completed == old(self).completed,
                self.skip_round_robin == old(self).skip_round_robin,
                self.previous_wait == old(self).previous_wait,
                self.current_matches == old(self).current_matches,
                self.usernames == old(self).usernames,
                self.data == old(self).data,
                self.players == players,
            decreases self.players@.len() - k,
        {
            let name = self.players[k].0.clone();
            let ghost before = views(self.pairings@);
            self.pairings.push(name);
            assert(views(self.pairings@) =~= before.push(name@));
            k = k + 1;
            assert(seed_names(self.players@).take(k as int) =~= seed_names(self.players@).take(k - 1).push(name@));
            assert(views(self.pairings@) =~= old_pairings + seed_names(self.players@).take(k as int));
        }
        assert(seed_names(self.players@).take(self.players@.len() as int) =~= seed_names(self.players@));
        let round = copy_names(&self.pairings);
        let ghost before_data = rounds_view(self.data@);
        self.data.push(round);
        assert(rounds_view(self.data@) =~= before_data.push(views(self.pairings@)));
    }

    /// Drops the cleared places of the bracket.
    fn close_up(&mut self)
        ensures
            views(final(self).pairings@) == occupied(views(old(self).pairings@)),
            *final(self) == (KnockoutBracket { pairings: final(self).pairings, ..*old(self) }),
    {
        let ghost orig = views(self.pairings@);
        let mut kept: Vec<String> = Vec::new();
        let mut i: usize = 0;
        proof {
            lemma_views(self.pairings@);
        }
        assert(orig.take(0) =~= Seq::<Seq<char>>::empty());
        assert(views(kept@) =~= Seq::<Seq<char>>::empty());
        while i < self.pairings.len()
            invariant
                i <= self.pairings@.len(),
                orig == views(self.pairings@),
                self.pairings == old(self).pairings,
                forall|k: int| 0 <= k < self.pairings@.len() ==> #[trigger] orig[k] == self.pairings@[k]@,
                orig.len() == self.pairings@.len(),
                views(kept@) == occupied(orig.take(i as int)),
            decreases self.pairings@.len() - i,
        {
            assert(orig.take(i + 1).drop_last() =~= orig.take(i as int));
            assert(orig.take(i + 1).last() == self.pairings@[i as int]@);
            if self.pairings[i].as_str().unicode_len() != 0 {
                let ghost before = views(kept@);
                kept.push(self.pairings[i].clone());
                assert(views(kept@) =~= before.push(self.pairings@[i as int]@));
            }
            i = i + 1;
        }
        assert(orig.take(orig.len() as int) =~= orig);
        self.pairings = kept;
    }

    /// Moves on after a round. A finished bracket does nothing. During
    /// seeding the round robin moves on; once it is over the move delay is
    /// restored, the bracket is seeded and its first round starts. During
    /// the bracket the cleared places are dropped: one survivor ends the
    /// tournament, otherwise the next round starts and the bracket is
    /// published.
    pub fn next(&mut self) -> (r: Vec<TournamentEvent>)
        requires
            old(self).running(),
        ensures
            final(self).running(),
            kb_moved_on(*old(self), *final(self), r@),
    {
        if self.completed {
            return Vec::new();
        }
        if !self.started {
            let mut events = self.blitz_round_robin.next();
            let ghost rr_count = events@.len();
            if self.blitz_round_robin.completed {
                self.started = true;
                events.push(TournamentEvent::SetWaitingTimeout(self.previous_wait));
                self.seed_from_round_robin();
                events.push(TournamentEvent::Pairings(pair_neighbours(&self.pairings)));
                events.push(TournamentEvent::BracketData);
                assert(events@.take(rr_count as int) =~= events@.take(rr_count as int));
            }
            proof {
                if !old(self).blitz_round_robin.completed {
                    assert(events@.take(rr_count as int).len() == rr_count);
                }
            }
            return events;
        }
        self.close_up();
        let mut events: Vec<TournamentEvent> = Vec::new();
        if self.pairings.len() == 1 {
            self.completed = true;
        } else {
            let round = copy_names(&self.pairings);
            let ghost before_data = rounds_view(self.data@);
            self.data.push(round);
            assert(rounds_view(self.data@) =~= before_data.push(views(self.pairings@)));
            events.push(TournamentEvent::Pairings(pair_neighbours(&self.pairings)));
            events.push(TournamentEvent::BracketData);
        }
        events
    }

    /// The winner after a tie in the bracket, when one of the two has already
    /// tied once: the better seed (the first player on equal seeds).
    pub open spec fn tie_winner(t: ((Seq<char>, u32, bool), (Seq<char>, u32, bool))) -> Seq<char> {
        if t.0.1 < t.1.1 {
            t.1.0
        } else {
            t.0.0
        }
    }

    /// Whose result is recorded: the winner, or after a repeated tie the
    /// better seed.
    pub open spec fn effective_winner(
        winner: Seq<char>,
        t: ((Seq<char>, u32, bool), (Seq<char>, u32, bool)),
    ) -> Seq<char> {
        if winner.len() == 0 {
            Self::tie_winner(t)
        } else {
            winner
        }
    }

    /// Finds, scanning the seeds, the two players of a tied match.
    fn track_tie(&self, player1: &String, player2: &String) -> (r: ((String, u32, bool), (String, u32, bool)))
        ensures
            ((r.0.0@, r.0.1, r.0.2), (r.1.0@, r.1.1, r.1.2)) == tie_tracks(
                seeds_full(self.players@),
                player1@,
                player2@,
                self.players@.len() as int,
            ),
    {
        let mut t1: (String, u32, bool) = (String::new(), 0, false);
        let mut t2: (String, u32, bool) = (String::new(), 0, false);
        let mut i: usize = 0;
        while i < self.players.len()
            invariant
                i <= self.players@.len(),
                ((t1.0@, t1.1, t1.2), (t2.0@, t2.1, t2.2)) == tie_tracks(
                    seeds_full(self.players@),
                    player1@,
                    player2@,
                    i as int,
                ),
            decreases self.players@.len() - i,
        {
            if t1.0.as_str().unicode_len() != 0 && t2.0.as_str().unicode_len() != 0 {
                proof {
                    lemma_tracks_stay(seeds_full(self.players@), player1@, player2@, i as int, self.players@.len() as int);
                }
                return (t1, t2);
            }
            if self.players[i].0 == *player1 {
                t1 = (self.players[i].0.clone(), self.players[i].1, self.players[i].2);
            } else if self.players[i].0 == *player2 {
                t2 = (self.players[i].0.clone(), self.players[i].1, self.players[i].2);
            }
            i = i + 1;
        }
        (t1, t2)
    }

    /// Sets the tie flag of every seed named `a` or `b` to `value`.
    fn set_flags(&mut self, a: &String, b: &String, value: bool)
        ensures
            final(self).players@.len() == old(self).players@.len(),
            forall|i: int| 0 <= i < old(self).players@.len() ==> {
                &&& (#[trigger] final(self).players@[i]).0 == old(self).players@[i].0
                &&& final(self).players@[i].1 == old(self).players@[i].1
                &&& final(self).players@[i].2 == if old(self).players@[i].0@ == a@ || old(self).players@[i].0@ == b@ {
                    value
                } else {
                    old(self).players@[i].2
                }
            },
            *final(self) == (KnockoutBracket { players: final(self).players, ..*old(self) }),
    {
        let mut i: usize = 0;
        while i < self.players.len()
            invariant
                i <= self.players@.len(),
                self.players@.len() == old(self).players@.len(),
                *self == (KnockoutBracket { players: self.players, ..*old(self) }),
                forall|k: int| 0 <= k < old(self).players@.len() ==> {
                    &&& (#[trigger] self.players@[k]).0 == old(self).players@[k].0
                    &&& self.players@[k].1 == old(self).players@[k].1
                    &&& self.players@[k].2 == if k < i && (old(self).players@[k].0@ == a@ || old(self).players@[k].0@
                        == b@) {
                        value
                    } else {
                        old(self).players@[k].2
                    }
                },
            decreases self.players@.len() - i,
        {
            if self.players[i].0 == *a || self.players[i].0 == *b {
                let name = self.players[i].0.clone();
                let seed = self.players[i].1;
                self.players.set(i, (name, seed, value));
            }
            i = i + 1;
        }
    }

    /// Records the result of a match. During seeding it goes to the round
    /// robin. In the bracket, a draw (empty winner) between two players that
    /// have not tied yet flags both and asks for a rematch, the second player
    /// moving first; after an earlier tie the better seed wins. The winner's
    /// opponent in the bracket has their place cleared, both have their tie
    /// flags reset, and the match leaves the current ones.
    pub fn inform_winner(&mut self, winner: &String, match_id: u32, player1: &String, player2: &String) -> (r:
        Recorded)
        requires
            old(self).wf(),
        ensures
            final(self).wf(),
            kb_recorded(*old(self), *final(self), winner@, match_id, player1@, player2@, r),
    {
        if !self.started {
            self.blitz_round_robin.inform_winner(winner, match_id);
            return Recorded::Done;
        }
        let ghost places = views(self.pairings@);
        let ghost tracks = tie_tracks(seeds_full(self.players@), player1@, player2@, self.players@.len() as int);
        let mut effective = winner.clone();
        if winner.as_str().unicode_len() == 0 {
            let (t1, t2) = self.track_tie(player1, player2);
            assert(t1.0@ == tracks.0.0 && t1.1 == tracks.0.1 && t1.2 == tracks.0.2);
            assert(t2.0@ == tracks.1.0 && t2.1 == tracks.1.1 && t2.2 == tracks.1.2);
            if t1.2 || t2.2 {
                if t1.1 < t2.1 {
                    effective = t2.0;
                } else {
                    effective = t1.0;
                }
            } else {
                self.set_flags(player1, player2, true);
                return Recorded::Rematch { first: player2.clone(), second: player1.clone() };
            }
        }
        let ghost w = effective@;
        assert(w == Self::effective_winner(winner@, tracks));
        proof {
            lemma_views(self.pairings@);
        }
        let mut pos: Option<usize> = None;
        let mut i: usize = 0;
        while i < self.pairings.len() && pos.is_none()
            invariant
                i <= self.pairings@.len(),
                places == views(self.pairings@),
                places.len() == self.pairings@.len(),
                forall|k: int| 0 <= k < self.pairings@.len() ==> #[trigger] places[k] == self.pairings@[k]@,
                pos is None ==> forall|k: int| 0 <= k < i ==> places[k] != w,
                pos matches Some(p) ==> first_place_of(places, w, p as int),
                effective@ == w,
            decreases self.pairings@.len() - i + (if pos is None { 1int } else { 0int }),
        {
            if self.pairings[i] == effective {
                pos = Some(i);
            } else {
                i = i + 1;
            }
        }
        let mut loser = String::new();
        match pos {
            Some(p) => {
                proof {
                    assert forall|k: int| #[trigger] first_place_of(places, w, k) implies k == p by {
                        if k < p {
                        } else if k > p {
                            assert(places[p as int] == w);
                        }
                    }
                }
                if p % 2 == 0 {
                    if p + 1 >= self.pairings.len() {
                        assert(first_place_of(places, w, p as int) && opponent_place(p as int) >= places.len());
                        return Recorded::Halted;
                    }
                    loser = self.pairings[p + 1].clone();
                    self.pairings.set(p + 1, String::new());
                } else {
                    loser = self.pairings[p - 1].clone();
                    self.pairings.set(p - 1, String::new());
                }
                assert(views(self.pairings@) =~= places.update(opponent_place(p as int), Seq::<char>::empty()));
                assert(loser@ == places[opponent_place(p as int)]);
                assert((choose|i: int| first_place_of(places, w, i)) == p);
            },
            None => {
                assert(forall|k: int| !first_place_of(places, w, k));
            },
        }
        self.set_flags(&effective, &loser, false);
        remove_id(&mut self.current_matches, match_id);
        Recorded::Done
    }

    /// Completes a rematch: its id joins the current matches, then the tied
    /// match leaves them.
    pub fn finish_rematch(&mut self, new_id: u32, old_id: u32)
        ensures
            final(self).current_matches@ == without(old(self).current_matches@.push(new_id), old_id),
            *final(self) == (KnockoutBracket { current_matches: final(self).current_matches, ..*old(self) }),
    {
        self.current_matches.push(new_id);
        remove_id(&mut self.current_matches, old_id);
    }

    /// Adds the matches of a new round to the current ones: the seeding
    /// round robin's before the bracket starts, the bracket's after.
    pub fn record_matches(&mut self, ids: &Vec<u32>)
        ensures
            !old(self).started ==> {
                &&& final(self).blitz_round_robin.current_matches@ == old(self).blitz_round_robin.current_matches@ + ids@
                &&& final(self).blitz_round_robin == (RoundRobin {
                    current_matches: final(self).blitz_round_robin.current_matches,
                    ..old(self).blitz_round_robin
                })
                &&& *final(self) == (KnockoutBracket {
                    blitz_round_robin: final(self).blitz_round_robin,
                    ..*old(self)
                })
            },
            old(self).started ==> {
                &&& final(self).current_matches@ == old(self).current_matches@ + ids@
                &&& *final(self) == (KnockoutBracket { current_matches: final(self).current_matches, ..*old(self) })
            },
    {
        if !self.started {
            self.blitz_round_robin.record_matches(ids);
            return;
        }
        let ghost start = self.current_matches@;
        let mut i: usize = 0;
        while i < ids.len()
            invariant
                i <= ids@.len(),
                self.current_matches@ == start + ids@.take(i as int),
                start == old(self).current_matches@,
                *self == (KnockoutBracket { current_matches: self.current_matches, ..*old(self) }),
            decreases ids@.len() - i,
        {
            self.current_matches.push(ids[i]);
            i = i + 1;
            assert(self.current_matches@ =~= start + ids@.take(i as int));
        }
        assert(ids@.take(ids@.len() as int) =~= ids@);
    }

    /// What cancelling involves: before the bracket starts, the round robin's
    /// matches and players; after, the bracket's matches and seeds.
    pub fn cancel(&self) -> (r: (Vec<u32>, Vec<String>))
        ensures
            !self.started ==> r.0@ == self.blitz_round_robin.current_matches@ && r.1@.len()
                == self.blitz_round_robin.players@.len() && forall|i: int|
                0 <= i < self.blitz_round_robin.players@.len() ==> #[trigger] r.1@[i]@
                    == self.blitz_round_robin.players@[i].0@,
            self.started ==> r.0@ == self.current_matches@ && views(r.1@) == seed_names(self.players@),
    {
        if !self.started {
            return self.blitz_round_robin.cancel();
        }
        let mut names: Vec<String> = Vec::new();
        let mut i: usize = 0;
        while i < self.players.len()
            invariant
                i <= self.players@.len(),
                names@.len() == i,
                forall|j: int| 0 <= j < i ==> #[trigger] names@[j]@ == self.players@[j].0@,
            decreases self.players@.len() - i,
        {
            names.push(self.players[i].0.clone());
            i = i + 1;
        }
        assert(views(names@) =~= seed_names(self.players@));
        (self.current_matches.clone(), names)
    }

    /// Whether the player takes part.
    pub fn contains_player(&self, username: &String) -> (r: bool)
        ensures
            r == views(self.usernames@).contains(username@),
    {
        contains_name(&self.usernames, username)
    }

    /// Whether the tournament is over.
    pub fn is_completed(&self) -> (r: bool)
        ensures
            r == self.completed,
    {
        self.completed
    }

    /// The entrants, in the order they were given.
    pub fn get_players(&self) -> (r: Vec<String>)
        ensures
            views(r@) == views(self.usernames@),
    {
        copy_names(&self.usernames)
    }

    /// The name of the format.
    pub fn get_type(&self) -> (r: String)
        ensures
            r@ == "KnockoutBracket"@,
    {
        String::from_str("KnockoutBracket")
    }

    /// The winner, once the bracket is over: the one place left.
    pub fn get_winner(&self) -> (r: Option<String>)
        requires
            self.wf(),
        ensures
            !self.completed ==> r is None,
            self.completed ==> (r matches Some(w) && w@ == self.pairings@[0]@),
    {
        if self.completed {
            return Some(self.pairings[0].clone());
        }
        None
    }

    /// The bracket as published, once it has started: each round's places
    /// separated by commas, rounds separated by bars.
    pub fn get_data(&self) -> (r: Option<String>)
        ensures
            !self.started ==> r is None,
            self.started ==> (r matches Some(t) && t@ == bracket_text(rounds_view(self.data@))),
    {
        if !self.started {
            return None;
        }
        Some(bracket_text_exec(&self.data))
    }
}

} // verus!
