use connect4_moderator_server::lists::{remove_addr, remove_pair};
use connect4_moderator_server::server::{Action, Server};
use connect4_moderator_server::text::{decimal_string, parse_bool_text, parse_unsigned_text};
use connect4_moderator_server::tournaments::round_robin::RoundRobin;
use connect4_moderator_server::types::{Color, Match};

#[test]
fn observing_twice_restores_the_observers() {
    let mut s = Server::new("pw".to_string(), false);
    s.handle_open(3);
    s.handle_open(5);
    s.handle_observe(5).unwrap();
    let before = s.observers.clone();
    s.handle_observe(5).unwrap();
    s.handle_observe(5).unwrap();
    assert_eq!(s.observers, before);
    let mut v = vec![1u64, 2];
    v.push(9);
    remove_addr(&mut v, 9);
    assert_eq!(v, vec![1, 2]);
}

#[test]
fn deleting_a_reservation_just_added_is_a_plain_delete() {
    let mut a = vec![("x".to_string(), "y".to_string()), ("p".to_string(), "q".to_string())];
    let mut b = a.clone();
    a.push(("p".to_string(), "q".to_string()));
    remove_pair(&mut a, &"p".to_string(), &"q".to_string());
    remove_pair(&mut b, &"p".to_string(), &"q".to_string());
    assert_eq!(a, b);
    assert_eq!(a, vec![("x".to_string(), "y".to_string())]);
}

#[test]
fn numbers_and_flags_read_back_as_written() {
    for n in [0u64, 9, 10, 123456, 999999, u32::MAX as u64] {
        assert_eq!(parse_unsigned_text(&decimal_string(n), u32::MAX as u64), Some(n));
    }
    for b in [true, false] {
        assert_eq!(parse_bool_text(&b.to_string()), Some(b));
    }
}

#[test]
fn the_demo_flag_reads_back_as_set() {
    let mut s = Server::new("pw".to_string(), false);
    s.handle_admin_auth(7, &"pw".to_string()).unwrap();
    for b in [true, false, true] {
        s.handle_set_data(7, &"DEMO_MODE".to_string(), &b.to_string(), None).unwrap();
        let r = s.handle_get_data(1, &"DEMO_MODE".to_string(), "").unwrap();
        match &r[0] {
            Action::Send { to, text } => {
                assert_eq!(*to, 1);
                assert_eq!(text, &format!("GET:DEMO_MODE:{}", b));
            }
            _ => panic!("a message"),
        }
    }
    s.handle_set_data(7, &"MOVE_WAIT".to_string(), &"1.5".to_string(), Some(1500)).unwrap();
    match &s.handle_get_data(1, &"MOVE_WAIT".to_string(), "").unwrap()[0] {
        Action::SendSeconds { millis, .. } => assert_eq!(*millis, 1500),
        _ => panic!("a time"),
    }
}

#[test]
fn the_opponent_of_the_opponent_is_the_colour() {
    for c in [Color::Red, Color::Yellow, Color::Empty] {
        assert_eq!(c.opponent().opponent(), c);
    }
}

#[test]
fn a_token_lands_on_top_and_nothing_else_moves() {
    let mut m = Match::new_with_order(100000, "a".to_string(), "b".to_string(), false);
    m.place_token(Color::Red, 2);
    m.place_token(Color::Yellow, 4);
    let before = m.board.clone();
    m.place_token(Color::Yellow, 2);
    for x in 0..7 {
        for y in 0..6 {
            if (x, y) == (2, 1) {
                assert_eq!(m.board[x][y], Color::Yellow);
            } else {
                assert_eq!(m.board[x][y], before[x][y]);
            }
        }
    }
}

#[test]
fn turning_the_circle_keeps_every_slot() {
    let mut rr = RoundRobin::new(&(0..6).map(|i| format!("p{}", i)).collect());
    rr.start().unwrap();
    for _ in 0..4 {
        let first = rr.top_half[0];
        let mut slots: Vec<u32> = rr.top_half.iter().chain(rr.bottom_half.iter()).cloned().collect();
        slots.sort();
        rr.next();
        let mut after: Vec<u32> = rr.top_half.iter().chain(rr.bottom_half.iter()).cloned().collect();
        after.sort();
        assert_eq!(slots, after);
        assert_eq!(rr.top_half[0], first);
        assert_eq!(rr.top_half.len(), 3);
    }
}

#[test]
fn moves_alternate_in_a_match() {
    let mut s = Server::new("pw".to_string(), false);
    for (addr, name) in [(1u64, "alice"), (2, "bob")] {
        s.handle_open(addr);
        s.handle_connect_cmd(addr, &name.to_string()).unwrap();
    }
    let id = s.add_match(&"alice".to_string(), &"bob".to_string(), false, true).unwrap();
    s.join_client(0, id, Color::Red);
    s.join_client(1, id, Color::Yellow);
    for (i, addr) in [1u64, 2, 1, 2, 1].iter().enumerate() {
        s.handle_play(*addr, i % 7, i as u64).unwrap();
    }
    let ledger = &s.matches[0].ledger;
    assert_eq!(ledger.len(), 5);
    for k in 0..ledger.len() - 1 {
        assert_ne!(ledger[k].0, ledger[k + 1].0);
    }
}
