use connect4_moderator_server::server::{Action, Server, Step};
use connect4_moderator_server::types::Color;

fn show_step(s: &Step) -> String {
    match s {
        Step::Sleep(ms) => format!("sleep {}", ms),
        Step::ToPlayer { name, text } => format!("to {} {}", name, text),
        Step::ToConnection { to, text } => format!("send {} {}", to, text),
        Step::ToObservers { text } => format!("all {}", text),
    }
}

fn show(a: &Action) -> String {
    match a {
        Action::Send { to, text } => format!("send {} {}", to, text),
        Action::Broadcast { text } => format!("all {}", text),
        Action::Close { to } => format!("close {}", to),
        Action::AbortWait { match_id } => format!("abort-wait {}", match_id),
        Action::AbortTimeout { match_id } => format!("abort-timeout {}", match_id),
        Action::Deliver { match_id, steps } => {
            let inner: Vec<String> = steps.iter().map(show_step).collect();
            format!("deliver {} [{}]", match_id, inner.join("; "))
        }
        Action::StartTimeout { match_id, delay, ledger_size, mover, mover_addr, player1, player2 } => format!(
            "timeout {} {} {} {} {} {} {}",
            match_id, delay, ledger_size, mover, mover_addr, player1, player2
        ),
        Action::SendSeconds { to, prefix, millis } => format!("seconds {} {}{}", to, prefix, millis),
        Action::WriteBracketFile { contents, to, ack } => format!("write {:?} {} {}", contents, to, ack),
        Action::Halt => "halt".to_string(),
    }
}

fn shows(v: &[Action]) -> Vec<String> {
    v.iter().map(show).collect()
}

fn join(s: &mut Server, addr: u64, name: &str) {
    s.handle_open(addr);
    s.handle_connect_cmd(addr, &name.to_string()).unwrap();
}

/// alice (1, red, first) against bob (2, yellow); returns the match id.
fn alice_against_bob(s: &mut Server) -> u32 {
    join(s, 1, "alice");
    join(s, 2, "bob");
    let id = s.add_match(&"alice".to_string(), &"bob".to_string(), false, true).unwrap();
    s.join_client(0, id, Color::Red);
    s.join_client(1, id, Color::Yellow);
    id
}

fn play(s: &mut Server, addr: u64, col: usize, now: u64) -> Vec<String> {
    shows(&s.handle_play(addr, col, now).unwrap())
}

#[test]
fn the_first_move_is_passed_on_at_once_and_timed() {
    let mut s = Server::new("pw".to_string(), false);
    let id = alice_against_bob(&mut s);
    assert_eq!(
        play(&mut s, 1, 3, 1000),
        vec![
            format!("abort-timeout {}", id),
            format!("deliver {} [sleep 0; to bob OPPONENT:3; all GAME:{}:MOVE:alice:3]", id, id),
            format!("timeout {} 30000 1 alice 1 alice bob", id),
        ]
    );
    assert_eq!(s.matches[0].ledger, vec![(Color::Red, 3, 1000)]);
    assert_eq!(s.matches[0].board[3][0], Color::Red);
}

#[test]
fn later_moves_wait_the_move_delay_less_the_time_taken() {
    let mut s = Server::new("pw".to_string(), false);
    let id = alice_against_bob(&mut s);
    play(&mut s, 1, 3, 1000);
    let acts = play(&mut s, 2, 4, 1500);
    assert_eq!(acts.len(), 3);
    let prefix = format!("deliver {} [sleep ", id);
    assert!(acts[1].starts_with(&prefix));
    let rest = &acts[1][prefix.len()..];
    let delay: u64 = rest[..rest.find(';').unwrap()].parse().unwrap();
    // 5000 ms, varied by at most 25 ms either way, less the 500 ms taken
    assert!((4475..=4525).contains(&delay));
    assert!(acts[1].ends_with(&format!("to alice OPPONENT:4; all GAME:{}:MOVE:bob:4]", id)));
    assert_eq!(acts[2], format!("timeout {} {} 2 bob 2 alice bob", id, delay + 30000));
}

#[test]
fn moving_out_of_turn_loses_the_match() {
    let mut s = Server::new("pw".to_string(), false);
    let id = alice_against_bob(&mut s);
    assert_eq!(
        play(&mut s, 2, 3, 1000),
        vec![
            "send 2 ERROR:INVALID:MOVE".to_string(),
            "send 2 GAME:LOSS".to_string(),
            "send 1 GAME:WINS".to_string(),
            format!("all GAME:{}:WIN:alice", id),
            "halt".to_string(),
        ]
    );
    assert!(s.matches.is_empty());
    assert!(s.clients.iter().all(|c| c.current_match.is_none() && c.color == Color::Empty));
}

#[test]
fn a_full_column_is_an_invalid_move() {
    let mut s = Server::new("pw".to_string(), false);
    let id = alice_against_bob(&mut s);
    for i in 0..6u64 {
        let addr = if i % 2 == 0 { 1 } else { 2 };
        play(&mut s, addr, 0, i);
    }
    let acts = play(&mut s, 1, 0, 10);
    assert_eq!(acts[0], "send 1 ERROR:INVALID:MOVE");
    assert_eq!(acts[1], "send 1 GAME:LOSS");
    assert_eq!(acts[2], "send 2 GAME:WINS");
    assert_eq!(acts[3], format!("all GAME:{}:WIN:bob", id));
}

#[test]
fn a_column_past_the_board_is_an_invalid_move() {
    let mut s = Server::new("pw".to_string(), false);
    let id = alice_against_bob(&mut s);
    assert_eq!(
        play(&mut s, 1, 7, 0),
        vec![
            "send 1 ERROR:INVALID:MOVE".to_string(),
            "send 1 GAME:LOSS".to_string(),
            "send 2 GAME:WINS".to_string(),
            format!("all GAME:{}:WIN:bob", id),
            "halt".to_string(),
        ]
    );
    assert!(s.matches.is_empty());
}

#[test]
fn a_column_past_the_board_in_a_demo_match_ends_it() {
    let mut s = Server::new("pw".to_string(), true);
    join(&mut s, 1, "alice");
    let id = s.add_match(&"alice".to_string(), &"demo".to_string(), true, true).unwrap();
    s.join_client(0, id, Color::Red);
    assert_eq!(
        play(&mut s, 1, 7, 0),
        vec![
            "send 1 ERROR:INVALID:MOVE".to_string(),
            format!("abort-wait {}", id),
            format!("abort-timeout {}", id),
            format!("all GAME:{}:TERMINATED", id),
            "send 1 GAME:TERMINATED".to_string(),
            "close 1".to_string(),
        ]
    );
    assert!(s.matches.is_empty());
    assert!(s.clients[0].current_match.is_none());
    assert_eq!(s.clients[0].color, Color::Empty);
}

#[test]
fn four_in_a_row_wins_the_match() {
    let mut s = Server::new("pw".to_string(), false);
    let id = alice_against_bob(&mut s);
    for (i, (addr, col)) in [(1u64, 0usize), (2, 1), (1, 0), (2, 1), (1, 0), (2, 1)].iter().enumerate() {
        play(&mut s, *addr, *col, i as u64);
    }
    assert_eq!(
        play(&mut s, 1, 0, 10),
        vec![
            format!("abort-timeout {}", id),
            "send 1 GAME:WINS".to_string(),
            "send 2 GAME:LOSS".to_string(),
            format!("all GAME:{}:MOVE:alice:0", id),
            format!("all GAME:{}:WIN:alice", id),
        ]
    );
    assert!(s.matches.is_empty());
}

#[test]
fn requests_outside_a_match_are_refused() {
    let mut s = Server::new("pw".to_string(), false);
    assert_eq!(s.handle_play(1, 0, 0).unwrap_err(), "ERROR:INVALID:MOVE");
    join(&mut s, 1, "alice");
    assert_eq!(s.handle_play(1, 0, 0).unwrap_err(), "ERROR:INVALID:MOVE");
}

#[test]
fn the_move_timer_forfeits_a_silent_opponent() {
    let mut s = Server::new("pw".to_string(), false);
    let id = alice_against_bob(&mut s);
    play(&mut s, 1, 3, 0);
    let a = "alice".to_string();
    let b = "bob".to_string();
    assert!(s.handle_move_timeout(id, 0, &a, 1, &a, &b).is_empty());
    assert_eq!(
        shows(&s.handle_move_timeout(id, 1, &a, 1, &a, &b)),
        vec![
            "send 1 GAME:WINS".to_string(),
            "send 2 GAME:LOSS".to_string(),
            format!("all GAME:{}:WIN:alice", id),
            "halt".to_string(),
        ]
    );
    assert!(s.matches.is_empty());
    assert!(s.handle_move_timeout(id, 1, &a, 1, &a, &b).is_empty());
}

#[test]
fn the_administrator_terminates_a_match() {
    let mut s = Server::new("pw".to_string(), false);
    let id = alice_against_bob(&mut s);
    assert_eq!(s.handle_game_terminate(7, id).unwrap_err(), "ERROR:INVALID:AUTH");
    s.handle_admin_auth(7, &"pw".to_string()).unwrap();
    assert_eq!(shows(&s.handle_game_terminate(7, id + 1).unwrap()), vec!["halt"]);
    assert_eq!(
        shows(&s.handle_game_terminate(7, id).unwrap()),
        vec![
            format!("abort-wait {}", id),
            format!("abort-timeout {}", id),
            format!("all GAME:{}:TERMINATED", id),
            "send 1 GAME:TERMINATED".to_string(),
            "send 2 GAME:TERMINATED".to_string(),
        ]
    );
    assert!(s.matches.is_empty());
}

#[test]
fn the_administrator_awards_a_match() {
    let mut s = Server::new("pw".to_string(), false);
    let id = alice_against_bob(&mut s);
    s.handle_admin_auth(7, &"pw".to_string()).unwrap();
    assert_eq!(s.handle_game_award_winner(7, id + 1, &"bob".to_string()).unwrap_err(), "ERROR:INVALID:AWARD");
    assert_eq!(s.handle_game_award_winner(7, id, &"carol".to_string()).unwrap_err(), "ERROR:INVALID:AWARD");
    assert_eq!(
        shows(&s.handle_game_award_winner(7, id, &"bob".to_string()).unwrap()),
        vec![
            format!("abort-wait {}", id),
            format!("abort-timeout {}", id),
            format!("all GAME:{}:WIN:bob", id),
            "send 2 GAME:WINS".to_string(),
            "send 1 GAME:LOSS".to_string(),
            "send 2 TOURNAMENT:END".to_string(),
            "send 1 TOURNAMENT:END".to_string(),
        ]
    );
    assert!(s.matches.is_empty());
}

#[test]
fn reserved_players_are_matched_once_both_are_ready() {
    let mut s = Server::new("pw".to_string(), false);
    join(&mut s, 1, "alice");
    join(&mut s, 2, "bob");
    s.handle_admin_auth(7, &"pw".to_string()).unwrap();
    assert_eq!(
        shows(&s.handle_reservation_add(7, &"alice".to_string(), &"bob".to_string()).unwrap()),
        vec!["send 7 RESERVATION:ADD:alice,bob"]
    );
    assert_eq!(shows(&s.handle_ready(1, 0).unwrap()), vec!["send 1 READY:ACK", "all READY:alice:true"]);
    assert_eq!(s.find_reservation_opponent(&"bob".to_string()), Some("alice".to_string()));
    let acts = shows(&s.handle_ready(2, 0).unwrap());
    assert_eq!(s.matches.len(), 1);
    let m = &s.matches[0];
    let bob_first = m.player1 == "bob";
    assert_eq!(acts.len(), 7);
    assert_eq!(acts[0], "send 2 READY:ACK");
    assert_eq!(acts[1], "all READY:bob:true");
    assert_eq!(acts[2], format!("all GAME:START:{},{},{}", m.id, m.player1, m.player2));
    assert_eq!(acts[3], format!("send 2 GAME:START:{}", if bob_first { 1 } else { 0 }));
    assert_eq!(acts[4], format!("send 1 GAME:START:{}", if bob_first { 0 } else { 1 }));
    assert_eq!(acts[5], "all READY:bob:false");
    assert_eq!(acts[6], "all READY:alice:false");
    // only the pair in the order (player who got ready, opponent) is dropped
    assert_eq!(s.reservations, vec![("alice".to_string(), "bob".to_string())]);
    assert!(s.clients.iter().all(|c| !c.ready && c.current_match == Some(m.id)));
}

#[test]
fn a_reservation_of_two_ready_players_starts_their_match() {
    let mut s = Server::new("pw".to_string(), false);
    join(&mut s, 1, "alice");
    join(&mut s, 2, "bob");
    s.handle_ready(1, 0).unwrap();
    s.handle_ready(2, 0).unwrap();
    s.handle_admin_auth(7, &"pw".to_string()).unwrap();
    let acts = shows(&s.handle_reservation_add(7, &"alice".to_string(), &"bob".to_string()).unwrap());
    assert_eq!(acts.len(), 6);
    assert_eq!(acts[0], "send 7 RESERVATION:ADD:alice,bob");
    let m = &s.matches[0];
    assert_eq!(acts[1], format!("all GAME:START:{},{},{}", m.id, m.player1, m.player2));
    // the first player's colour goes to the administrator's connection
    assert!(acts[2].starts_with("send 7 GAME:START:"));
    assert!(acts[3].starts_with("send 2 GAME:START:"));
    assert!(s.reservations.is_empty());
}

#[test]
fn a_demo_match_is_played_against_the_server() {
    let mut s = Server::new("pw".to_string(), true);
    join(&mut s, 1, "alice");
    let acts = shows(&s.handle_ready(1, 100).unwrap());
    let m = &s.matches[0];
    assert!(m.demo_mode);
    let id = m.id;
    assert_eq!(acts[2], format!("all GAME:START:{},{},{}", id, m.player1, m.player2));
    if m.player1 == "alice" {
        assert_eq!(acts.len(), 5);
        assert_eq!(acts[3], "send 1 GAME:START:1");
        assert!(m.ledger.is_empty());
    } else {
        assert_eq!(m.player1, "demo");
        assert_eq!(acts.len(), 6);
        assert_eq!(acts[3], "send 1 GAME:START:0");
        let (c, col, t) = m.ledger[0];
        assert_eq!((c, t), (Color::Red, 100));
        assert_eq!(
            acts[4],
            format!("deliver {} [sleep 5000; send 1 OPPONENT:{}; all GAME:{}:MOVE:demo:{}]", id, col, id, col)
        );
    }
    assert_eq!(acts.last().unwrap(), "all READY:alice:false");
}

#[test]
fn an_invalid_move_in_a_demo_match_ends_it_and_closes_the_connection() {
    let mut s = Server::new("pw".to_string(), true);
    join(&mut s, 1, "alice");
    let id = s.add_match(&"demo".to_string(), &"alice".to_string(), true, true).unwrap();
    s.join_client(0, id, Color::Yellow);
    assert_eq!(
        play(&mut s, 1, 0, 0),
        vec![
            "send 1 ERROR:INVALID:MOVE".to_string(),
            format!("abort-wait {}", id),
            format!("abort-timeout {}", id),
            format!("all GAME:{}:TERMINATED", id),
            "send 1 GAME:TERMINATED".to_string(),
            "close 1".to_string(),
        ]
    );
    assert!(s.matches.is_empty());
    assert!(s.clients[0].current_match.is_none());
}

#[test]
fn a_demo_reply_is_recorded_with_the_move() {
    let mut s = Server::new("pw".to_string(), true);
    join(&mut s, 1, "alice");
    s.handle_ready(1, 0).unwrap();
    let id = s.matches[0].id;
    let before = s.matches[0].ledger.len();
    let acts = play(&mut s, 1, 3, 50);
    if s.matches.is_empty() {
        return;
    }
    assert_eq!(acts.len(), 2);
    assert_eq!(acts[0], format!("abort-timeout {}", id));
    assert!(acts[1].contains(&format!("all GAME:{}:MOVE:alice:3; sleep 5000; send 1 OPPONENT:", id)));
    let m = &s.matches[0];
    assert_eq!(m.ledger.len(), before + 2);
    let (c1, col1, _) = m.ledger[before];
    let (c2, _, _) = m.ledger[before + 1];
    assert_eq!(col1, 3);
    assert_eq!(c2, c1.opponent());
}

#[test]
fn the_moves_of_a_match_alternate_from_red_and_build_its_board() {
    let mut s = Server::new("pw".to_string(), false);
    alice_against_bob(&mut s);
    for (i, (addr, col)) in [(1u64, 3usize), (2, 3), (1, 4), (2, 0), (1, 3)].iter().enumerate() {
        play(&mut s, *addr, *col, i as u64);
    }
    let m = &s.matches[0];
    let colours: Vec<Color> = m.ledger.iter().map(|e| e.0).collect();
    assert_eq!(colours, vec![Color::Red, Color::Yellow, Color::Red, Color::Yellow, Color::Red]);
    let mut board = vec![vec![Color::Empty; 6]; 7];
    for (c, col, _) in m.ledger.iter() {
        let y = board[*col].iter().position(|x| *x == Color::Empty).unwrap();
        board[*col][y] = *c;
    }
    assert_eq!(m.board, board);
    assert_eq!(m.board[3][0..3].to_vec(), vec![Color::Red, Color::Yellow, Color::Red]);
    assert_eq!(s.clients[0].color, Color::Red);
    assert_eq!(s.clients[1].color, Color::Yellow);
}
