//! The requests of the protocol: `COMMAND:arg:arg...` texts.
use vstd::prelude::*;
use crate::text::{parse_unsigned, parse_unsigned_text, split_on, split_text, views};

verus! {

/// A request, as read from a text message.
#[derive(Debug)]
pub enum Command {
    Connect(String),
    Reconnect(String),
    Disconnect,
    Ready,
    Play(usize),
    PlayerList,
    GameList,
    GameWatch(u32),
    GameTerminate(u32),
    AdminAuth(String),
    AdminKick(String),
    TournamentStart(String),
    TournamentCancel,
    GetData(String),
    SetData(String, String),
    ReservationAdd(String, String),
    ReservationDelete(String, String),
    ReservationGet,
    /// A malformed request, answered with this error text.
    Invalid(String),
}

/// The command is `Invalid` with the given error text.
pub open spec fn invalid(c: Command, e: Seq<char>) -> bool {
    c matches Command::Invalid(t) && t@ == e
}

/// How a `RESERVATION:ADD` or `DELETE` argument is read: exactly two names
/// separated by a comma.
pub open spec fn name_pair(arg: Seq<char>) -> Option<(Seq<char>, Seq<char>)> {
    let names = split_on(arg, ',');
    if names.len() == 2 {
        Some((names[0], names[1]))
    } else {
        None
    }
}

/// The command read from a text: its pieces between colons are `p`.
pub open spec fn parsed(text: Seq<char>, c: Command) -> bool {
    let p = split_on(text, ':');
    let cmd = p[0];
    if cmd == "CONNECT"@ {
        if p.len() > 1 {
            c matches Command::Connect(n) && n@ == p[1]
        } else {
            invalid(c, "ERROR:INVALID:ID:"@)
        }
    } else if cmd == "RECONNECT"@ {
        if p.len() > 1 {
            c matches Command::Reconnect(n) && n@ == p[1]
        } else {
            invalid(c, "ERROR:INVALID:RECONNECT:"@)
        }
    } else if cmd == "DISCONNECT"@ {
        c is Disconnect
    } else if cmd == "READY"@ {
        c is Ready
    } else if cmd == "PLAY"@ {
        if p.len() > 1 && parse_unsigned(p[1], usize::MAX as nat) is Some {
            c matches Command::Play(col) && col as nat == parse_unsigned(p[1], usize::MAX as nat)->0
        } else {
            invalid(c, "ERROR:INVALID:MOVE"@)
        }
    } else if cmd == "PLAYER"@ {
        if p.len() > 1 && p[1] == "LIST"@ {
            c is PlayerList
        } else {
            invalid(c, "ERROR:INVALID:PLAYER"@)
        }
    } else if cmd == "GAME"@ {
        if p.len() > 1 && p[1] == "LIST"@ {
            c is GameList
        } else if p.len() > 2 && p[1] == "WATCH"@ {
            if parse_unsigned(p[2], u32::MAX as nat) is Some {
                c matches Command::GameWatch(id) && id as nat == parse_unsigned(p[2], u32::MAX as nat)->0
            } else {
                invalid(c, "ERROR:INVALID:WATCH"@)
            }
        } else if p.len() > 2 && p[1] == "TERMINATE"@ {
            if parse_unsigned(p[2], u32::MAX as nat) is Some {
                c matches Command::GameTerminate(id) && id as nat == parse_unsigned(p[2], u32::MAX as nat)->0
            } else {
                invalid(c, "ERROR:INVALID:TERMINATE"@)
            }
        } else {
            invalid(c, "ERROR:INVALID:GAME"@)
        }
    } else if cmd == "ADMIN"@ {
        if p.len() > 2 && p[1] == "AUTH"@ {
            c matches Command::AdminAuth(w) && w@ == p[2]
        } else if p.len() > 2 && p[1] == "KICK"@ {
            c matches Command::AdminKick(n) && n@ == p[2]
        } else {
            invalid(c, "ERROR:INVALID:ADMIN"@)
        }
    } else if cmd == "TOURNAMENT"@ {
        if p.len() > 2 && p[1] == "START"@ {
            c matches Command::TournamentStart(f) && f@ == p[2]
        } else if p.len() > 1 && p[1] == "CANCEL"@ {
            c is TournamentCancel
        } else {
            invalid(c, "ERROR:INVALID:TOURNAMENT"@)
        }
    } else if cmd == "GET"@ {
        if p.len() > 1 {
            c matches Command::GetData(d) && d@ == p[1]
        } else {
            invalid(c, "ERROR:INVALID:GET"@)
        }
    } else if cmd == "SET"@ {
        if p.len() > 2 {
            c matches Command::SetData(d, v) && d@ == p[1] && v@ == p[2]
        } else {
            invalid(c, "ERROR:INVALID:SET"@)
        }
    } else if cmd == "RESERVATION"@ {
        if p.len() == 3 && p[1] == "ADD"@ && name_pair(p[2]) is Some {
            c matches Command::ReservationAdd(a, b) && (a@, b@) == name_pair(p[2])->0
        } else if p.len() == 3 && p[1] == "DELETE"@ && name_pair(p[2]) is Some {
            c matches Command::ReservationDelete(a, b) && (a@, b@) == name_pair(p[2])->0
        } else if p.len() > 1 && p[1] == "GET"@ && !(p.len() == 3 && (p[1] == "ADD"@ || p[1] == "DELETE"@)) {
            c is ReservationGet
        } else {
            invalid(c, "ERROR:INVALID:RESERVATION"@)
        }
    } else {
        invalid(c, "ERROR:UNKNOWN"@)
    }
}

/// Whether the text is `t`.
fn text_is(s: &String, t: &str) -> (r: bool)
    ensures
        r == (s@ == t@),
{
    *s == String::from_str(t)
}

/// Reads a request from a text message.
pub fn parse_command(text: &str) -> (c: Command)
    ensures
        parsed(text@, c),
{
    let parts = split_text(text, ':');
    proof {
        crate::text::lemma_views(parts@);
        crate::text::lemma_split_on_len(text@, ':');
        reveal_strlit("LIST");
        reveal_strlit("WATCH");
        reveal_strlit("TERMINATE");
        reveal_strlit("AUTH");
        reveal_strlit("KICK");
        reveal_strlit("START");
        reveal_strlit("CANCEL");
        reveal_strlit("ADD");
        reveal_strlit("DELETE");
        reveal_strlit("GET");
        reveal_strlit("CONNECT");
        reveal_strlit("RECONNECT");
        reveal_strlit("DISCONNECT");
        reveal_strlit("READY");
        reveal_strlit("PLAY");
        reveal_strlit("PLAYER");
        reveal_strlit("GAME");
        reveal_strlit("ADMIN");
        reveal_strlit("TOURNAMENT");
        reveal_strlit("SET");
        reveal_strlit("RESERVATION");
    }
    let n = parts.len();
    let cmd = &parts[0];
    if text_is(cmd, "CONNECT") {
        if n > 1 {
            Command::Connect(parts[1].clone())
        } else {
            Command::Invalid(String::from_str("ERROR:INVALID:ID:"))
        }
    } else if text_is(cmd, "RECONNECT") {
        if n > 1 {
            Command::Reconnect(parts[1].clone())
        } else {
            Command::Invalid(String::from_str("ERROR:INVALID:RECONNECT:"))
        }
    } else if text_is(cmd, "DISCONNECT") {
        Command::Disconnect
    } else if text_is(cmd, "READY") {
        Command::Ready
    } else if text_is(cmd, "PLAY") {
        if n > 1 {
            match parse_unsigned_text(parts[1].as_str(), usize::MAX as u64) {
                Some(v) => Command::Play(v as usize),
                None => Command::Invalid(String::from_str("ERROR:INVALID:MOVE")),
            }
        } else {
            Command::Invalid(String::from_str("ERROR:INVALID:MOVE"))
        }
    } else if text_is(cmd, "PLAYER") {
        if n > 1 && text_is(&parts[1], "LIST") {
            Command::PlayerList
        } else {
            Command::Invalid(String::from_str("ERROR:INVALID:PLAYER"))
        }
    } else if text_is(cmd, "GAME") {
        if n > 1 && text_is(&parts[1], "LIST") {
            Command::GameList
        } else if n > 2 && text_is(&parts[1], "WATCH") {
            match parse_unsigned_text(parts[2].as_str(), u32::MAX as u64) {
                Some(v) => Command::GameWatch(v as u32),
                None => Command::Invalid(String::from_str("ERROR:INVALID:WATCH")),
            }
        } else if n > 2 && text_is(&parts[1], "TERMINATE") {
            match parse_unsigned_text(parts[2].as_str(), u32::MAX as u64) {
                Some(v) => Command::GameTerminate(v as u32),
                None => Command::Invalid(String::from_str("ERROR:INVALID:TERMINATE")),
            }
        } else {
            Command::Invalid(String::from_str("ERROR:INVALID:GAME"))
        }
    } else if text_is(cmd, "ADMIN") {
        if n > 2 && text_is(&parts[1], "AUTH") {
            Command::AdminAuth(parts[2].clone())
        } else if n > 2 && text_is(&parts[1], "KICK") {
            Command::AdminKick(parts[2].clone())
        } else {
            Command::Invalid(String::from_str("ERROR:INVALID:ADMIN"))
        }
    } else if text_is(cmd, "TOURNAMENT") {
        if n > 2 && text_is(&parts[1], "START") {
            Command::TournamentStart(parts[2].clone())
        } else if n > 1 && text_is(&parts[1], "CANCEL") {
            Command::TournamentCancel
        } else {
            Command::Invalid(String::from_str("ERROR:INVALID:TOURNAMENT"))
        }
    } else if text_is(cmd, "GET") {
        if n > 1 {
            Command::GetData(parts[1].clone())
        } else {
            Command::Invalid(String::from_str("ERROR:INVALID:GET"))
        }
    } else if text_is(cmd, "SET") {
        if n > 2 {
            Command::SetData(parts[1].clone(), parts[2].clone())
        } else {
            Command::Invalid(String::from_str("ERROR:INVALID:SET"))
        }
    } else if text_is(cmd, "RESERVATION") {
        let is_add = n == 3 && text_is(&parts[1], "ADD");
        let is_delete = n == 3 && text_is(&parts[1], "DELETE");
        if is_add || is_delete {
            let names = split_text(parts[2].as_str(), ',');
            proof {
                crate::text::lemma_views(names@);
            }
            if names.len() != 2 {
                return Command::Invalid(String::from_str("ERROR:INVALID:RESERVATION"));
            }
            if is_add {
                Command::ReservationAdd(names[0].clone(), names[1].clone())
            } else {
                Command::ReservationDelete(names[0].clone(), names[1].clone())
            }
        } else if n > 1 && text_is(&parts[1], "GET") {
            Command::ReservationGet
        } else {
            Command::Invalid(String::from_str("ERROR:INVALID:RESERVATION"))
        }
    } else {
        Command::Invalid(String::from_str("ERROR:UNKNOWN"))
    }
}

} // verus!
