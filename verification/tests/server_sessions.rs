use connect4_moderator_server::server::{Action, Server, Step};
use connect4_moderator_server::types::Color;

fn show_step(s: &Step) -> String {
    match s {
        Step::Sleep(ms) => format!("sleep {}", ms),
        Step::ToPlayer { name, text } => format!("to {} {}", name, text),
        Step::ToConnection { to, text } => format!("send {} {}", to, text),
        Step::ToObservers { text } => format!("all {}", text),
    }
}

fn show(a: &Action) -> String {
    match a {
        Action::Send { to, text } => format!("send {} {}", to, text),
        Action::Broadcast { text } => format!("all {}", text),
        Action::Close { to } => format!("close {}", to),
        Action::AbortWait { match_id } => format!("abort-wait {}", match_id),
        Action::AbortTimeout { match_id } => format!("abort-timeout {}", match_id),
        Action::Deliver { match_id, steps } => {
            let inner: Vec<String> = steps.iter().map(show_step).collect();
            format!("deliver {} [{}]", match_id, inner.join("; "))
        }
        Action::StartTimeout { match_id, delay, ledger_size, mover, mover_addr, player1, player2 } => format!(
            "timeout {} {} {} {} {} {} {}",
            match_id, delay, ledger_size, mover, mover_addr, player1, player2
        ),
        Action::SendSeconds { to, prefix, millis } => format!("seconds {} {}{}", to, prefix, millis),
        Action::WriteBracketFile { contents, to, ack } => format!("write {:?} {} {}", contents, to, ack),
        Action::Halt => "halt".to_string(),
    }
}

fn shows(v: &[Action]) -> Vec<String> {
    v.iter().map(show).collect()
}

fn join(s: &mut Server, addr: u64, name: &str) -> Vec<String> {
    s.handle_open(addr);
    shows(&s.handle_connect_cmd(addr, &name.to_string()).unwrap())
}

#[test]
fn a_new_server_has_the_default_delays() {
    let s = Server::new("pw".to_string(), false);
    assert_eq!(s.waiting_timeout, 5000);
    assert_eq!(s.max_timeout, 30000);
    assert!(!s.demo_mode);
    assert!(s.clients.is_empty() && s.matches.is_empty() && s.observers.is_empty());
    assert!(s.admin.is_none() && s.tournament.is_none());
}

#[test]
fn a_connection_starts_out_observing() {
    let mut s = Server::new("pw".to_string(), false);
    s.handle_open(4);
    s.handle_open(4);
    assert_eq!(s.observers, vec![4]);
}

#[test]
fn connecting_acknowledges_and_announces() {
    let mut s = Server::new("pw".to_string(), false);
    s.handle_open(9);
    assert_eq!(join(&mut s, 1, "alice"), vec!["send 1 CONNECT:ACK", "all CONNECT:alice"]);
    assert_eq!(s.observers, vec![9]);
    assert_eq!(s.clients.len(), 1);
    assert_eq!(s.clients[0].username, "alice");
    assert_eq!(s.username_of(1), Some("alice".to_string()));
}

#[test]
fn names_that_break_the_protocol_are_refused() {
    let mut s = Server::new("pw".to_string(), false);
    for bad in ["", "a:b", "a,b", "a|b", "demo", "tab\there"] {
        let r = s.handle_connect_cmd(1, &bad.to_string());
        assert_eq!(r.unwrap_err(), format!("ERROR:INVALID:CONNECT:{}", bad));
    }
    join(&mut s, 1, "alice");
    let r = s.handle_connect_cmd(2, &"alice".to_string());
    assert_eq!(r.unwrap_err(), "ERROR:INVALID:CONNECT:alice");
    assert_eq!(s.clients.len(), 1);
}

#[test]
fn observing_toggles() {
    let mut s = Server::new("pw".to_string(), false);
    s.handle_open(9);
    assert_eq!(shows(&s.handle_observe(9).unwrap()), vec!["send 9 OBSERVE:ACK:0"]);
    assert!(s.observers.is_empty());
    assert_eq!(shows(&s.handle_observe(9).unwrap()), vec!["send 9 OBSERVE:ACK:1"]);
    assert_eq!(s.observers, vec![9]);
    join(&mut s, 1, "alice");
    assert_eq!(s.handle_observe(1).unwrap_err(), "ERROR:INVALID:OBSERVE");
}

#[test]
fn getting_ready_is_acknowledged_once() {
    let mut s = Server::new("pw".to_string(), false);
    assert_eq!(s.handle_ready(1, 0).unwrap_err(), "ERROR:INVALID");
    join(&mut s, 1, "alice");
    assert_eq!(shows(&s.handle_ready(1, 0).unwrap()), vec!["send 1 READY:ACK", "all READY:alice:true"]);
    assert!(s.clients[0].ready);
    assert_eq!(shows(&s.handle_ready(1, 0).unwrap()), vec!["send 1 READY:ACK"]);
}

#[test]
fn disconnecting_removes_the_player() {
    let mut s = Server::new("pw".to_string(), false);
    assert_eq!(s.handle_disconnect_cmd(1).unwrap_err(), "ERROR:INVALID:DISCONNECT");
    join(&mut s, 1, "alice");
    assert_eq!(shows(&s.handle_disconnect_cmd(1).unwrap()), vec!["send 1 DISCONNECT:ACK", "all DISCONNECT:alice"]);
    assert!(s.clients.is_empty());
    assert_eq!(s.username_of(1), None);
}

#[test]
fn closing_forgets_the_player_and_marks_one_in_a_match_as_dropped() {
    let mut s = Server::new("pw".to_string(), false);
    join(&mut s, 1, "alice");
    s.handle_close(1);
    assert!(s.clients.is_empty());
    assert!(s.disconnected_clients.is_empty());

    join(&mut s, 1, "alice");
    join(&mut s, 2, "bob");
    s.add_match(&"alice".to_string(), &"bob".to_string(), false, true).unwrap();
    let id = s.matches[0].id;
    s.join_client(0, id, Color::Red);
    s.handle_close(1);
    assert_eq!(s.clients.len(), 1);
    assert_eq!(s.clients[0].username, "bob");
    assert_eq!(s.disconnected_clients, vec!["alice".to_string()]);
    assert_eq!(s.username_of(1), None);
    assert_eq!(s.matches.len(), 1);

    // coming back under the same name finds no player to take back
    s.handle_open(5);
    let acts = shows(&s.handle_connect_cmd(5, &"alice".to_string()).unwrap());
    assert_eq!(acts, vec!["send 5 CONNECT:ACK", "halt"]);
    assert!(s.disconnected_clients.is_empty());
}

#[test]
fn a_dropped_player_still_known_takes_its_place_back_and_its_match_restarts() {
    let mut s = Server::new("pw".to_string(), false);
    join(&mut s, 1, "alice");
    join(&mut s, 2, "bob");
    s.add_match(&"alice".to_string(), &"bob".to_string(), false, true).unwrap();
    let id = s.matches[0].id;
    s.join_client(0, id, Color::Red);
    s.join_client(1, id, Color::Yellow);
    s.disconnected_clients.push("alice".to_string());
    s.handle_open(5);
    let acts = shows(&s.handle_connect_cmd(5, &"alice".to_string()).unwrap());
    assert_eq!(acts[0], "send 5 CONNECT:ACK");
    assert_eq!(acts[1], "send 2 GAME:TERMINATED");
    assert_eq!(acts[2], "send 5 GAME:START:1");
    assert!(s.disconnected_clients.is_empty());
    assert_eq!(s.clients[0].addr, 5);
}

#[test]
fn the_administrator_authenticates_once() {
    let mut s = Server::new("pw".to_string(), false);
    assert_eq!(s.handle_admin_auth(7, &"nope".to_string()).unwrap_err(), "ERROR:INVALID:AUTH");
    assert_eq!(shows(&s.handle_admin_auth(7, &"pw".to_string()).unwrap()), vec!["send 7 ADMIN:AUTH:ACK"]);
    assert!(s.auth_check(7));
    assert!(!s.auth_check(8));
    assert_eq!(s.handle_admin_auth(8, &"pw".to_string()).unwrap_err(), "ERROR:INVALID:AUTH");
    s.handle_close(7);
    assert!(s.admin.is_none());
}

#[test]
fn kicking_closes_the_player_connection() {
    let mut s = Server::new("pw".to_string(), false);
    join(&mut s, 1, "alice");
    assert_eq!(s.handle_admin_kick(7, &"alice".to_string()).unwrap_err(), "ERROR:INVALID:AUTH");
    s.handle_admin_auth(7, &"pw".to_string()).unwrap();
    assert_eq!(s.handle_admin_kick(7, &"bob".to_string()).unwrap_err(), "ERROR:INVALID:KICK");
    assert_eq!(shows(&s.handle_admin_kick(7, &"alice".to_string()).unwrap()), vec!["close 1"]);
}

#[test]
fn lists_describe_players_and_games() {
    let mut s = Server::new("pw".to_string(), false);
    assert_eq!(shows(&s.handle_player_list(3).unwrap()), vec!["send 3 PLAYER:LIST:"]);
    assert_eq!(shows(&s.handle_game_list(3).unwrap()), vec!["send 3 GAME:LIST:"]);
    join(&mut s, 1, "alice");
    join(&mut s, 2, "bob");
    s.handle_ready(2, 0).unwrap();
    assert_eq!(
        shows(&s.handle_player_list(3).unwrap()),
        vec!["send 3 PLAYER:LIST:alice,false,false|bob,true,false"]
    );
    s.add_match(&"alice".to_string(), &"bob".to_string(), false, true).unwrap();
    let id = s.matches[0].id;
    assert_eq!(shows(&s.handle_game_list(3).unwrap()), vec![format!("send 3 GAME:LIST:{},alice,bob", id)]);
    assert_eq!(shows(&s.handle_game_watch(3, id).unwrap()), vec![format!("send 3 GAME:WATCH:ACK:{},alice,bob", id)]);
}

#[test]
fn settings_are_read_and_changed_by_the_administrator() {
    let mut s = Server::new("pw".to_string(), false);
    let get = |s: &Server, id: &str| shows(&s.handle_get_data(3, &id.to_string(), "a\nb").unwrap());
    assert_eq!(get(&s, "DEMO_MODE"), vec!["send 3 GET:DEMO_MODE:false"]);
    assert_eq!(get(&s, "TOURNAMENT_STATUS"), vec!["send 3 GET:TOURNAMENT_STATUS:false"]);
    assert_eq!(get(&s, "TOURNAMENT_DATA"), vec!["send 3 GET:TOURNAMENT_DATA:"]);
    assert_eq!(get(&s, "BRACKET_PAIRINGS"), vec!["send 3 GET:BRACKET_PAIRINGS:a,b"]);
    assert_eq!(get(&s, "MOVE_WAIT"), vec!["seconds 3 GET:MOVE_WAIT:5000"]);
    assert_eq!(get(&s, "MAX_TIMEOUT"), vec!["seconds 3 GET:MAX_TIMEOUT:30000"]);
    assert_eq!(s.handle_get_data(3, &"COLOUR".to_string(), "").unwrap_err(), "ERROR:INVALID:GET");

    let set = |s: &mut Server, id: &str, v: &str, m: Option<u64>| s.handle_set_data(7, &id.to_string(), &v.to_string(), m);
    assert_eq!(set(&mut s, "DEMO_MODE", "true", None).unwrap_err(), "ERROR:INVALID:AUTH");
    s.handle_admin_auth(7, &"pw".to_string()).unwrap();
    assert_eq!(shows(&set(&mut s, "DEMO_MODE", "true", None).unwrap()), vec!["send 7 SET:DEMO_MODE:ACK"]);
    assert!(s.demo_mode);
    assert_eq!(set(&mut s, "DEMO_MODE", "yes", None).unwrap_err(), "ERROR:INVALID:SET");
    assert_eq!(shows(&set(&mut s, "MOVE_WAIT", "2.5", Some(2500)).unwrap()), vec!["send 7 SET:MOVE_WAIT:ACK"]);
    assert_eq!(s.waiting_timeout, 2500);
    assert_eq!(set(&mut s, "MAX_TIMEOUT", "x", None).unwrap_err(), "ERROR:INVALID:SET");
    assert_eq!(
        shows(&set(&mut s, "BRACKET_PAIRINGS", "a,b,c", None).unwrap()),
        vec!["write \"a\\nb\\nc\" 7 SET:BRACKET_PAIRINGS:ACK"]
    );
    assert_eq!(set(&mut s, "COLOUR", "red", None).unwrap_err(), "ERROR:INVALID:SET");
}

#[test]
fn reservations_are_listed_and_deleted() {
    let mut s = Server::new("pw".to_string(), false);
    s.handle_admin_auth(7, &"pw".to_string()).unwrap();
    assert_eq!(shows(&s.handle_reservation_get(7).unwrap()), vec!["send 7 RESERVATION:LIST:"]);
    s.handle_reservation_add(7, &"a".to_string(), &"b".to_string()).unwrap();
    s.handle_reservation_add(7, &"c".to_string(), &"d".to_string()).unwrap();
    assert_eq!(shows(&s.handle_reservation_get(7).unwrap()), vec!["send 7 RESERVATION:LIST:a,b|c,d"]);
    assert_eq!(
        shows(&s.handle_reservation_delete(7, &"a".to_string(), &"b".to_string()).unwrap()),
        vec!["send 7 RESERVATION:DELETE:a,b"]
    );
    assert_eq!(shows(&s.handle_reservation_get(7).unwrap()), vec!["send 7 RESERVATION:LIST:c,d"]);
    assert_eq!(s.handle_reservation_get(8).unwrap_err(), "ERROR:INVALID:AUTH");
}

#[test]
fn broadcasts_reach_every_observer() {
    let mut s = Server::new("pw".to_string(), false);
    s.handle_open(4);
    s.handle_open(5);
    assert_eq!(shows(&s.broadcast(&"hello".to_string())), vec!["send 4 hello", "send 5 hello"]);
    let sends = connect4_moderator_server::broadcast_message(&vec![4, 5], &vec![5, 6, 4], &"x".to_string());
    assert_eq!(shows(&sends), vec!["send 5 x", "send 4 x"]);
}
