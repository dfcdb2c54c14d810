use connect4_moderator_server::types::{board_outcome, new_board, Client, Color, Match};
use connect4_moderator_server::{gen_match_id, id_in_use_exec, pick_open_column, random_move, try_gen_match_id};

fn drop_all(m: &mut Match, moves: &[(Color, usize)]) {
    for (c, x) in moves {
        m.place_token(*c, *x);
    }
}

fn fresh(id: u32) -> Match {
    Match::new_with_order(id, "alice".to_string(), "bob".to_string(), false)
}

#[test]
fn new_board_is_seven_empty_columns_of_six() {
    let b = new_board();
    assert_eq!(b.len(), 7);
    for col in &b {
        assert_eq!(col.len(), 6);
        assert!(col.iter().all(|c| *c == Color::Empty));
    }
    assert_eq!(board_outcome(&b), (Color::Empty, false));
}

#[test]
fn tokens_stack_from_the_bottom() {
    let mut m = fresh(100000);
    drop_all(&mut m, &[(Color::Red, 3), (Color::Yellow, 3), (Color::Red, 3)]);
    assert_eq!(m.board[3][0], Color::Red);
    assert_eq!(m.board[3][1], Color::Yellow);
    assert_eq!(m.board[3][2], Color::Red);
    assert_eq!(m.board[3][3], Color::Empty);
    assert_eq!(m.board[2][0], Color::Empty);
}

#[test]
fn a_full_column_takes_no_more_tokens() {
    let mut m = fresh(100001);
    for i in 0..6 {
        let c = if i % 2 == 0 { Color::Red } else { Color::Yellow };
        m.place_token(c, 0);
    }
    let before = m.board.clone();
    m.place_token(Color::Red, 0);
    assert_eq!(m.board, before);
}

#[test]
fn four_in_a_row_horizontally_wins() {
    let mut m = fresh(100002);
    drop_all(&mut m, &[(Color::Red, 0), (Color::Red, 1), (Color::Red, 2)]);
    assert_eq!(m.end_game_check(), (Color::Empty, false));
    m.place_token(Color::Red, 3);
    assert_eq!(m.end_game_check(), (Color::Red, false));
}

#[test]
fn four_in_a_column_wins() {
    let mut m = fresh(100003);
    drop_all(&mut m, &[(Color::Yellow, 6), (Color::Yellow, 6), (Color::Yellow, 6), (Color::Yellow, 6)]);
    assert_eq!(m.end_game_check(), (Color::Yellow, false));
}

#[test]
fn rising_and_falling_diagonals_win() {
    let mut m = fresh(100004);
    drop_all(
        &mut m,
        &[
            (Color::Red, 0),
            (Color::Yellow, 1),
            (Color::Red, 1),
            (Color::Yellow, 2),
            (Color::Yellow, 2),
            (Color::Red, 2),
            (Color::Yellow, 3),
            (Color::Yellow, 3),
            (Color::Yellow, 3),
        ],
    );
    assert_eq!(m.end_game_check(), (Color::Empty, false));
    m.place_token(Color::Red, 3);
    assert_eq!(m.end_game_check(), (Color::Red, false));

    let mut f = fresh(100005);
    drop_all(
        &mut f,
        &[
            (Color::Red, 6),
            (Color::Yellow, 5),
            (Color::Red, 5),
            (Color::Yellow, 4),
            (Color::Yellow, 4),
            (Color::Red, 4),
            (Color::Yellow, 3),
            (Color::Yellow, 3),
            (Color::Yellow, 3),
            (Color::Red, 3),
        ],
    );
    assert_eq!(f.end_game_check(), (Color::Red, false));
}

#[test]
fn a_known_drawn_board_is_a_draw() {
    let mut m = fresh(100007);
    let rows = [
        "RRYYRRY", "YYRRYYR", "RRYYRRY", "YYRRYYR", "RRYYRRY", "YYRRYYR",
    ];
    for row in rows.iter() {
        for (x, ch) in row.chars().enumerate() {
            let c = if ch == 'R' { Color::Red } else { Color::Yellow };
            m.place_token(c, x);
        }
    }
    assert_eq!(m.end_game_check(), (Color::Empty, true));
}

#[test]
fn colours_have_opponents_and_flags() {
    assert_eq!(Color::Red.opponent(), Color::Yellow);
    assert_eq!(Color::Yellow.opponent(), Color::Red);
    assert_eq!(Color::Empty.opponent(), Color::Empty);
    assert_eq!(!Color::Red, Color::Yellow);
    assert!(Color::Red.into_bool());
    assert!(!Color::Yellow.into_bool());
}

#[test]
fn a_new_client_is_idle() {
    let c = Client::new("alice".to_string(), 7);
    assert_eq!(c.username, "alice");
    assert_eq!(c.addr, 7);
    assert!(!c.ready);
    assert_eq!(c.color, Color::Empty);
    assert!(c.current_match.is_none());
}

#[test]
fn a_drawn_match_order_follows_the_coin() {
    let m = Match::new_after_draw(123456, "a".to_string(), "b".to_string(), false, 0);
    assert_eq!((m.player1.as_str(), m.player2.as_str()), ("a", "b"));
    let m = Match::new_after_draw(123456, "a".to_string(), "b".to_string(), true, 1);
    assert_eq!((m.player1.as_str(), m.player2.as_str()), ("b", "a"));
    assert!(m.demo_mode);
    let r = Match::new(5, "a".to_string(), "b".to_string(), false);
    assert!(
        (r.player1 == "a" && r.player2 == "b") || (r.player1 == "b" && r.player2 == "a")
    );
    assert!(r.ledger.is_empty());
}

#[test]
fn match_ids_are_six_digits_and_unused() {
    let mut matches: Vec<Match> = Vec::new();
    for _ in 0..50 {
        let id = gen_match_id(&matches);
        assert!((100000..=999999).contains(&id));
        assert!(!id_in_use_exec(&matches, id));
        matches.push(fresh(id));
    }
    assert!(try_gen_match_id(&matches).is_some());
}

#[test]
fn random_moves_go_to_open_columns() {
    let mut m = fresh(100008);
    for x in [0usize, 1, 2, 4, 5, 6] {
        for i in 0..6 {
            let c = if i % 2 == 0 { Color::Red } else { Color::Yellow };
            m.place_token(c, x);
        }
    }
    for _ in 0..20 {
        assert_eq!(random_move(&m.board), 3);
    }
    assert_eq!(pick_open_column(&m.board, 0), 3);
    let b = new_board();
    assert_eq!(pick_open_column(&b, 4), 4);
}
