use connect4_moderator_server::server::{Action, Server, Step};
use connect4_moderator_server::tournaments::knockout_bracket::{KnockoutBracket, Recorded};
use connect4_moderator_server::tournaments::round_robin::RoundRobin;
use connect4_moderator_server::tournaments::standings::sort_by_score;
use connect4_moderator_server::tournaments::{Tournament, TournamentEvent};

fn show_step(s: &Step) -> String {
    match s {
        Step::Sleep(ms) => format!("sleep {}", ms),
        Step::ToPlayer { name, text } => format!("to {} {}", name, text),
        Step::ToConnection { to, text } => format!("send {} {}", to, text),
        Step::ToObservers { text } => format!("all {}", text),
    }
}

fn show(a: &Action) -> String {
    match a {
        Action::Send { to, text } => format!("send {} {}", to, text),
        Action::Broadcast { text } => format!("all {}", text),
        Action::Close { to } => format!("close {}", to),
        Action::AbortWait { match_id } => format!("abort-wait {}", match_id),
        Action::AbortTimeout { match_id } => format!("abort-timeout {}", match_id),
        Action::Deliver { match_id, steps } => {
            let inner: Vec<String> = steps.iter().map(show_step).collect();
            format!("deliver {} [{}]", match_id, inner.join("; "))
        }
        Action::StartTimeout { match_id, delay, ledger_size, mover, mover_addr, player1, player2 } => format!(
            "timeout {} {} {} {} {} {} {}",
            match_id, delay, ledger_size, mover, mover_addr, player1, player2
        ),
        Action::SendSeconds { to, prefix, millis } => format!("seconds {} {}{}", to, prefix, millis),
        Action::WriteBracketFile { contents, to, ack } => format!("write {:?} {} {}", contents, to, ack),
        Action::Halt => "halt".to_string(),
    }
}

fn shows(v: &[Action]) -> Vec<String> {
    v.iter().map(show).collect()
}

fn names(v: &[&str]) -> Vec<String> {
    v.iter().map(|s| s.to_string()).collect()
}

fn ready_trio(s: &mut Server) {
    for (addr, name) in [(1u64, "alice"), (2, "bob"), (3, "carol")] {
        s.handle_open(addr);
        s.handle_connect_cmd(addr, &name.to_string()).unwrap();
        s.handle_ready(addr, 0).unwrap();
    }
    s.handle_open(9);
    s.handle_admin_auth(7, &"pw".to_string()).unwrap();
}

fn pairs(events: &[TournamentEvent]) -> Vec<(String, String)> {
    for e in events {
        if let TournamentEvent::Pairings(p) = e {
            return p.clone();
        }
    }
    Vec::new()
}

#[test]
fn a_round_robin_fills_its_slots() {
    let rr = RoundRobin::new(&names(&["a", "b", "c"]));
    assert_eq!(rr.players, vec![("a".to_string(), 0), ("b".to_string(), 0), ("c".to_string(), 0)]);
    assert_eq!(rr.top_half, vec![0, 1]);
    assert_eq!(rr.bottom_half, vec![2, 3]);
    assert_eq!(rr.total_rounds, 3);
    assert!(!rr.completed);
    assert_eq!(rr.pairings(), vec![("a".to_string(), "c".to_string())]);
    let solo = RoundRobin::new(&names(&["a"]));
    assert!(solo.completed);
    assert_eq!(solo.total_rounds, 0);
}

#[test]
fn a_round_robin_pairs_everyone_once() {
    let mut rr = RoundRobin::new(&names(&["a", "b", "c", "d"]));
    let mut seen: Vec<(String, String)> = rr.start().unwrap();
    loop {
        let ev = rr.next();
        if rr.completed {
            assert_eq!(ev.len(), 1);
            break;
        }
        seen.extend(pairs(&ev));
    }
    assert_eq!(rr.rounds_played, 3);
    let mut keys: Vec<(String, String)> =
        seen.iter().map(|(x, y)| if x < y { (x.clone(), y.clone()) } else { (y.clone(), x.clone()) }).collect();
    keys.sort();
    keys.dedup();
    assert_eq!(keys.len(), 6);
    assert_eq!(seen.len(), 6);
}

#[test]
fn round_robin_wins_are_counted_and_standings_sorted() {
    let mut rr = RoundRobin::new(&names(&["a", "b", "c"]));
    rr.start().unwrap();
    rr.record_matches(&vec![111111]);
    rr.inform_winner(&"c".to_string(), 111111);
    assert_eq!(rr.players[2].1, 1);
    assert!(rr.current_matches.is_empty());
    rr.inform_winner(&"".to_string(), 1);
    assert_eq!(rr.players[2].1, 1);
    let ev = rr.next();
    match &ev[0] {
        TournamentEvent::Scores(s) => assert_eq!(s[0], ("c".to_string(), 1)),
        _ => panic!("standings first"),
    }
    let sorted = sort_by_score(&vec![("x".to_string(), 1), ("y".to_string(), 3), ("z".to_string(), 1)], false);
    assert_eq!(sorted, vec![("x".to_string(), 1), ("z".to_string(), 1), ("y".to_string(), 3)]);
}

#[test]
fn a_finished_round_robin_names_its_leader() {
    let mut rr = RoundRobin::new(&names(&["a", "b", "c"]));
    rr.start().unwrap();
    assert!(rr.get_winner().is_none());
    rr.inform_winner(&"b".to_string(), 1);
    rr.inform_winner(&"c".to_string(), 2);
    rr.inform_winner(&"c".to_string(), 3);
    rr.completed = true;
    assert_eq!(rr.get_winner(), Some("c".to_string()));
    assert_eq!(rr.get_type(), "RoundRobin");
    assert!(rr.get_data().is_none());
    assert!(rr.contains_player(&"a".to_string()));
    assert!(!rr.contains_player(&"z".to_string()));
}

#[test]
fn a_bracket_from_a_matching_file_skips_the_seeding_round() {
    let kb = KnockoutBracket::new(&names(&["a", "b", "c"]), 5000, "c\na\nb");
    assert!(kb.skip_round_robin);
    let kb2 = KnockoutBracket::new(&names(&["a", "b", "c"]), 5000, "a\nb");
    assert!(!kb2.skip_round_robin);
    let mut t = Tournament::KnockoutBracket(kb);
    let ev = t.start("c\na\nb");
    assert_eq!(pairs(&ev), vec![("c".to_string(), "a".to_string())]);
    assert!(matches!(ev[1], TournamentEvent::BracketData));
    assert_eq!(t.get_data(), Some("c,a,b".to_string()));
    assert_eq!(t.get_type(), "KnockoutBracket");
}

#[test]
fn a_bracket_without_a_file_seeds_with_a_quick_round_robin() {
    let mut t = Tournament::KnockoutBracket(KnockoutBracket::new(&names(&["a", "b", "c"]), 4000, ""));
    let ev = t.start("");
    assert!(matches!(ev[0], TournamentEvent::SetWaitingTimeout(5)));
    assert_eq!(pairs(&ev), vec![("a".to_string(), "c".to_string())]);
    assert!(t.get_data().is_none());
}

#[test]
fn a_first_tie_in_the_bracket_asks_for_a_rematch() {
    let mut kb = KnockoutBracket::new(&names(&["a", "b"]), 5000, "a\nb");
    kb.start("a\nb");
    kb.record_matches(&vec![200000]);
    let r = kb.inform_winner(&"".to_string(), 200000, &"a".to_string(), &"b".to_string());
    match r {
        Recorded::Rematch { first, second } => {
            assert_eq!(first, "b");
            assert_eq!(second, "a");
        }
        _ => panic!("a rematch"),
    }
    assert!(kb.players.iter().all(|p| p.2));
    kb.finish_rematch(200001, 200000);
    assert_eq!(kb.current_matches, vec![200001]);
    // a second tie goes to the player seeded with the higher score
    let r = kb.inform_winner(&"".to_string(), 200001, &"b".to_string(), &"a".to_string());
    assert!(matches!(r, Recorded::Done));
    assert_eq!(kb.pairings, vec!["".to_string(), "b".to_string()]);
    assert!(kb.current_matches.is_empty());
}

#[test]
fn starting_a_tournament_needs_three_ready_players() {
    let mut s = Server::new("pw".to_string(), false);
    s.handle_admin_auth(7, &"pw".to_string()).unwrap();
    assert_eq!(s.handle_tournament_start(8, &"RoundRobin".to_string(), "").unwrap_err(), "ERROR:INVALID:AUTH");
    assert_eq!(s.handle_tournament_start(7, &"RoundRobin".to_string(), "").unwrap_err(), "ERROR:INVALID:TOURNAMENT");
    let mut s = Server::new("pw".to_string(), false);
    ready_trio(&mut s);
    assert_eq!(s.handle_tournament_start(7, &"Swiss".to_string(), "").unwrap_err(), "ERROR:INVALID:TOURNAMENT");
    assert_eq!(s.handle_tournament_cancel(7).unwrap_err(), "ERROR:INVALID:TOURNAMENT");
}

#[test]
fn a_round_robin_tournament_runs_to_its_winner() {
    let mut s = Server::new("pw".to_string(), false);
    ready_trio(&mut s);
    let acts = shows(&s.handle_tournament_start(7, &"RoundRobin".to_string(), "").unwrap());
    assert_eq!(acts.last().unwrap(), "all TOURNAMENT:START:RoundRobin");
    assert_eq!(s.matches.len(), 1);
    assert!(acts.contains(&"all READY:alice:false".to_string()));
    assert!(acts.contains(&"all READY:carol:false".to_string()));
    let mut all: Vec<String> = Vec::new();
    let mut rounds = 0;
    while s.tournament.is_some() && rounds < 10 {
        let id = s.matches[0].id;
        let winner = s.matches[0].player1.clone();
        all.extend(shows(&s.handle_game_award_winner(7, id, &winner).unwrap()));
        rounds += 1;
    }
    assert_eq!(rounds, 3);
    assert!(s.matches.is_empty());
    assert!(all.iter().any(|a| a.starts_with("all TOURNAMENT:SCORES:")));
    assert!(all.contains(&"send 1 TOURNAMENT:END".to_string()));
    assert!(all.contains(&"send 2 TOURNAMENT:END".to_string()));
    assert!(all.contains(&"send 3 TOURNAMENT:END".to_string()));
    assert!(all.contains(&"all TOURNAMENT:END".to_string()));
    assert!(all.last().unwrap().starts_with("all TOURNAMENT:WINNER:"));
}

#[test]
fn a_knockout_tournament_from_the_bracket_file() {
    let mut s = Server::new("pw".to_string(), false);
    ready_trio(&mut s);
    let file = "alice\nbob\ncarol";
    let acts = shows(&s.handle_tournament_start(7, &"KnockoutBracket".to_string(), file).unwrap());
    assert!(acts.contains(&"all GET:TOURNAMENT_DATA:alice,bob,carol".to_string()));
    assert_eq!(acts.last().unwrap(), "all TOURNAMENT:START:KnockoutBracket");
    let get = shows(&s.handle_get_data(4, &"TOURNAMENT_STATUS".to_string(), "").unwrap());
    assert_eq!(get, vec!["send 4 GET:TOURNAMENT_STATUS:KnockoutBracket"]);
    let id = s.matches[0].id;
    let acts = shows(&s.handle_game_award_winner(7, id, &"alice".to_string()).unwrap());
    assert!(acts.contains(&"all GET:TOURNAMENT_DATA:alice,bob,carol|alice,carol".to_string()));
    let id = s.matches[0].id;
    let acts = shows(&s.handle_game_award_winner(7, id, &"carol".to_string()).unwrap());
    assert_eq!(acts.last().unwrap(), "all TOURNAMENT:WINNER:carol");
    assert!(s.tournament.is_none());
}

#[test]
fn cancelling_a_tournament_ends_its_matches() {
    let mut s = Server::new("pw".to_string(), false);
    ready_trio(&mut s);
    s.handle_tournament_start(7, &"RoundRobin".to_string(), "").unwrap();
    let id = s.matches[0].id;
    let acts = shows(&s.handle_tournament_cancel(7).unwrap());
    assert_eq!(acts[0], format!("abort-wait {}", id));
    assert_eq!(acts[2], format!("all GAME:{}:TERMINATED", id));
    assert!(acts.contains(&"send 1 TOURNAMENT:END".to_string()));
    assert!(acts.contains(&"send 2 TOURNAMENT:END".to_string()));
    assert_eq!(acts.last().unwrap(), "all TOURNAMENT:CANCEL");
    assert!(s.tournament.is_none());
    assert!(s.matches.is_empty());
}

#[test]
fn a_tied_bracket_match_is_replayed_with_the_second_player_first() {
    let mut s = Server::new("pw".to_string(), false);
    ready_trio(&mut s);
    s.handle_tournament_start(7, &"KnockoutBracket".to_string(), "alice\nbob\ncarol").unwrap();
    let id = s.matches[0].id;
    let p1 = s.matches[0].player1.clone();
    let p2 = s.matches[0].player2.clone();
    s.remove_match(0);
    let mut acts: Vec<Action> = Vec::new();
    let halted = s.record_result(&"".to_string(), id, &p1, &p2, &mut acts);
    assert!(!halted);
    let acts = shows(&acts);
    let m = &s.matches[0];
    assert_eq!(m.player1, p2);
    assert_eq!(m.player2, p1);
    assert_eq!(acts.len(), 5);
    assert_eq!(acts[4], format!("all GAME:START:{},{},{}", m.id, p2, p1));
    match &s.tournament {
        Some(Tournament::KnockoutBracket(kb)) => assert_eq!(kb.current_matches, vec![m.id]),
        _ => panic!("a bracket"),
    }
}
