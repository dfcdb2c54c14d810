use connect4_moderator_server::commands::{parse_command, Command};
use connect4_moderator_server::text::{
    decimal_string, parse_bool_text, parse_unsigned_text, replace_char_text, split_text,
};

#[test]
fn numbers_are_written_in_decimal() {
    assert_eq!(decimal_string(0), "0");
    assert_eq!(decimal_string(7), "7");
    assert_eq!(decimal_string(123456), "123456");
    assert_eq!(decimal_string(u64::MAX), u64::MAX.to_string());
}

#[test]
fn splitting_keeps_empty_pieces() {
    assert_eq!(split_text("GAME:WATCH:123", ':'), vec!["GAME", "WATCH", "123"]);
    assert_eq!(split_text("", ':'), vec![""]);
    assert_eq!(split_text("a::b:", ':'), vec!["a", "", "b", ""]);
    assert_eq!(split_text("alice,bob", ','), vec!["alice", "bob"]);
}

#[test]
fn unsigned_numbers_are_read_as_parse_does() {
    assert_eq!(parse_unsigned_text("42", 100), Some(42));
    assert_eq!(parse_unsigned_text("+42", 100), Some(42));
    assert_eq!(parse_unsigned_text("007", 100), Some(7));
    assert_eq!(parse_unsigned_text("101", 100), None);
    assert_eq!(parse_unsigned_text("", 100), None);
    assert_eq!(parse_unsigned_text("+", 100), None);
    assert_eq!(parse_unsigned_text("-1", 100), None);
    assert_eq!(parse_unsigned_text("4a", 100), None);
    assert_eq!(parse_unsigned_text("4294967295", u32::MAX as u64), Some(4294967295));
    assert_eq!(parse_unsigned_text("4294967296", u32::MAX as u64), None);
    assert_eq!(parse_unsigned_text("18446744073709551615", u64::MAX), Some(u64::MAX));
    assert_eq!(parse_unsigned_text("18446744073709551616", u64::MAX), None);
}

#[test]
fn flags_are_read_exactly() {
    assert_eq!(parse_bool_text("true"), Some(true));
    assert_eq!(parse_bool_text("false"), Some(false));
    assert_eq!(parse_bool_text("True"), None);
    assert_eq!(parse_bool_text(""), None);
}

#[test]
fn characters_are_replaced_by_text() {
    assert_eq!(replace_char_text("a\nb\nc", '\n', ","), "a,b,c");
    assert_eq!(replace_char_text("a,b", ',', "\n"), "a\nb");
    assert_eq!(replace_char_text("", ',', "\n"), "");
}

fn invalid_text(c: &Command) -> Option<String> {
    match c {
        Command::Invalid(e) => Some(e.clone()),
        _ => None,
    }
}

#[test]
fn connection_commands_are_read() {
    assert!(matches!(parse_command("CONNECT:alice"), Command::Connect(n) if n == "alice"));
    assert!(matches!(parse_command("CONNECT:"), Command::Connect(n) if n.is_empty()));
    assert_eq!(invalid_text(&parse_command("CONNECT")).unwrap(), "ERROR:INVALID:ID:");
    assert!(matches!(parse_command("RECONNECT:bob:x"), Command::Reconnect(n) if n == "bob"));
    assert_eq!(invalid_text(&parse_command("RECONNECT")).unwrap(), "ERROR:INVALID:RECONNECT:");
    assert!(matches!(parse_command("DISCONNECT"), Command::Disconnect));
    assert!(matches!(parse_command("DISCONNECT:whatever"), Command::Disconnect));
    assert!(matches!(parse_command("READY"), Command::Ready));
}

#[test]
fn play_commands_are_read() {
    assert!(matches!(parse_command("PLAY:3"), Command::Play(3)));
    assert!(matches!(parse_command("PLAY:9"), Command::Play(9)));
    assert_eq!(invalid_text(&parse_command("PLAY:x")).unwrap(), "ERROR:INVALID:MOVE");
    assert_eq!(invalid_text(&parse_command("PLAY:-1")).unwrap(), "ERROR:INVALID:MOVE");
    assert_eq!(invalid_text(&parse_command("PLAY")).unwrap(), "ERROR:INVALID:MOVE");
}

#[test]
fn listing_and_game_commands_are_read() {
    assert!(matches!(parse_command("PLAYER:LIST"), Command::PlayerList));
    assert_eq!(invalid_text(&parse_command("PLAYER:ALL")).unwrap(), "ERROR:INVALID:PLAYER");
    assert!(matches!(parse_command("GAME:LIST"), Command::GameList));
    assert!(matches!(parse_command("GAME:WATCH:123456"), Command::GameWatch(123456)));
    assert_eq!(invalid_text(&parse_command("GAME:WATCH:abc")).unwrap(), "ERROR:INVALID:WATCH");
    assert!(matches!(parse_command("GAME:TERMINATE:42"), Command::GameTerminate(42)));
    assert_eq!(invalid_text(&parse_command("GAME:TERMINATE:")).unwrap(), "ERROR:INVALID:TERMINATE");
    assert_eq!(invalid_text(&parse_command("GAME:WATCH")).unwrap(), "ERROR:INVALID:GAME");
    assert_eq!(invalid_text(&parse_command("GAME")).unwrap(), "ERROR:INVALID:GAME");
}

#[test]
fn admin_and_tournament_commands_are_read() {
    assert!(matches!(parse_command("ADMIN:AUTH:secret"), Command::AdminAuth(p) if p == "secret"));
    assert!(matches!(parse_command("ADMIN:KICK:bob"), Command::AdminKick(n) if n == "bob"));
    assert_eq!(invalid_text(&parse_command("ADMIN:AUTH")).unwrap(), "ERROR:INVALID:ADMIN");
    assert!(matches!(parse_command("TOURNAMENT:START:RoundRobin"), Command::TournamentStart(t) if t == "RoundRobin"));
    assert!(matches!(parse_command("TOURNAMENT:CANCEL"), Command::TournamentCancel));
    assert_eq!(invalid_text(&parse_command("TOURNAMENT:START")).unwrap(), "ERROR:INVALID:TOURNAMENT");
}

#[test]
fn settings_and_reservation_commands_are_read() {
    assert!(matches!(parse_command("GET:DEMO_MODE"), Command::GetData(d) if d == "DEMO_MODE"));
    assert_eq!(invalid_text(&parse_command("GET")).unwrap(), "ERROR:INVALID:GET");
    assert!(matches!(parse_command("SET:MOVE_WAIT:2.5"), Command::SetData(d, v) if d == "MOVE_WAIT" && v == "2.5"));
    assert_eq!(invalid_text(&parse_command("SET:MOVE_WAIT")).unwrap(), "ERROR:INVALID:SET");
    assert!(matches!(parse_command("RESERVATION:ADD:a,b"), Command::ReservationAdd(a, b) if a == "a" && b == "b"));
    assert!(matches!(parse_command("RESERVATION:DELETE:a,b"), Command::ReservationDelete(a, b) if a == "a" && b == "b"));
    assert_eq!(invalid_text(&parse_command("RESERVATION:ADD:a")).unwrap(), "ERROR:INVALID:RESERVATION");
    assert_eq!(invalid_text(&parse_command("RESERVATION:ADD:a,b:c")).unwrap(), "ERROR:INVALID:RESERVATION");
    assert!(matches!(parse_command("RESERVATION:GET"), Command::ReservationGet));
    assert_eq!(invalid_text(&parse_command("RESERVATION")).unwrap(), "ERROR:INVALID:RESERVATION");
    assert_eq!(invalid_text(&parse_command("HELLO")).unwrap(), "ERROR:UNKNOWN");
    assert_eq!(invalid_text(&parse_command("")).unwrap(), "ERROR:UNKNOWN");
}
