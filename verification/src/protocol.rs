//! The text messages of the protocol.
use vstd::prelude::*;
use crate::text::{bool_text, decimal, decimal_string};

verus! {

/// `GAME:START:1` for the player who moves first, `GAME:START:0` otherwise.
pub open spec fn game_start_text(first: bool) -> Seq<char> {
    if first {
        "GAME:START:1"@
    } else {
        "GAME:START:0"@
    }
}

/// `GAME:START:<id>,<player1>,<player2>`, for observers.
pub open spec fn game_started_text(id: u32, player1: Seq<char>, player2: Seq<char>) -> Seq<char> {
    "GAME:START:"@ + decimal(id as nat) + ","@ + player1 + ","@ + player2
}

/// `READY:<name>:<true|false>`.
pub open spec fn ready_text(name: Seq<char>, ready: bool) -> Seq<char> {
    "READY:"@ + name + ":"@ + bool_text(ready)
}

/// `CONNECT:<name>`.
pub open spec fn connected_text(name: Seq<char>) -> Seq<char> {
    "CONNECT:"@ + name
}

/// `DISCONNECT:<name>`.
pub open spec fn disconnected_text(name: Seq<char>) -> Seq<char> {
    "DISCONNECT:"@ + name
}

/// `ERROR:INVALID:CONNECT:<name>`.
pub open spec fn invalid_connect_text(name: Seq<char>) -> Seq<char> {
    "ERROR:INVALID:CONNECT:"@ + name
}

/// `GAME:<id>:MOVE:<name>:<column>`.
pub open spec fn move_text(id: u32, name: Seq<char>, column: nat) -> Seq<char> {
    "GAME:"@ + decimal(id as nat) + ":MOVE:"@ + name + ":"@ + decimal(column)
}

/// `GAME:<id>:WIN:<name>`.
pub open spec fn win_text(id: u32, name: Seq<char>) -> Seq<char> {
    "GAME:"@ + decimal(id as nat) + ":WIN:"@ + name
}

/// `GAME:<id>:DRAW`.
pub open spec fn draw_text(id: u32) -> Seq<char> {
    "GAME:"@ + decimal(id as nat) + ":DRAW"@
}

/// `GAME:<id>:TERMINATED`.
pub open spec fn terminated_text(id: u32) -> Seq<char> {
    "GAME:"@ + decimal(id as nat) + ":TERMINATED"@
}

/// `OPPONENT:<column>`.
pub open spec fn opponent_text(column: nat) -> Seq<char> {
    "OPPONENT:"@ + decimal(column)
}

/// `TOURNAMENT:WINNER:<name>`.
pub open spec fn tournament_winner_text(name: Seq<char>) -> Seq<char> {
    "TOURNAMENT:WINNER:"@ + name
}

/// `TOURNAMENT:START:<format>`.
pub open spec fn tournament_start_text(format: Seq<char>) -> Seq<char> {
    "TOURNAMENT:START:"@ + format
}

/// `SET:<id>:ACK`.
pub open spec fn set_ack_text(id: Seq<char>) -> Seq<char> {
    "SET:"@ + id + ":ACK"@
}

/// `RESERVATION:ADD:<player1>,<player2>`.
pub open spec fn reservation_added_text(p1: Seq<char>, p2: Seq<char>) -> Seq<char> {
    "RESERVATION:ADD:"@ + p1 + ","@ + p2
}

/// `RESERVATION:DELETE:<player1>,<player2>`.
pub open spec fn reservation_deleted_text(p1: Seq<char>, p2: Seq<char>) -> Seq<char> {
    "RESERVATION:DELETE:"@ + p1 + ","@ + p2
}

/// `GET:<id>:`, the start of a reply to `GET`.
pub open spec fn get_prefix_text(id: Seq<char>) -> Seq<char> {
    "GET:"@ + id + ":"@
}

/// `GET:TOURNAMENT_DATA:<bracket>`, the bracket as published to observers.
pub open spec fn bracket_published_text(bracket: Seq<char>) -> Seq<char> {
    "GET:TOURNAMENT_DATA:"@ + bracket
}

/// Joins two texts.
pub fn join2(a: &str, b: &str) -> (r: String)
    ensures
        r@ == a@ + b@,
{
    let mut r = String::from_str(a);
    r.append(b);
    r
}

pub fn game_start_message(first: bool) -> (r: String)
    ensures
        r@ == game_start_text(first),
{
    if first {
        String::from_str("GAME:START:1")
    } else {
        String::from_str("GAME:START:0")
    }
}

pub fn game_started_message(id: u32, player1: &String, player2: &String) -> (r: String)
    ensures
        r@ == game_started_text(id, player1@, player2@),
{
    let mut r = String::from_str("GAME:START:");
    let n = decimal_string(id as u64);
    r.append(n.as_str());
    r.append(",");
    r.append(player1.as_str());
    r.append(",");
    r.append(player2.as_str());
    r
}

pub fn ready_message(name: &String, ready: bool) -> (r: String)
    ensures
        r@ == ready_text(name@, ready),
{
    let mut r = String::from_str("READY:");
    r.append(name.as_str());
    r.append(":");
    if ready {
        r.append("true");
    } else {
        r.append("false");
    }
    r
}

pub fn connected_message(name: &String) -> (r: String)
    ensures
        r@ == connected_text(name@),
{
    join2("CONNECT:", name.as_str())
}

pub fn disconnected_message(name: &String) -> (r: String)
    ensures
        r@ == disconnected_text(name@),
{
    join2("DISCONNECT:", name.as_str())
}

pub fn invalid_connect_message(name: &String) -> (r: String)
    ensures
        r@ == invalid_connect_text(name@),
{
    join2("ERROR:INVALID:CONNECT:", name.as_str())
}

pub fn move_message(id: u32, name: &String, column: usize) -> (r: String)
    ensures
        r@ == move_text(id, name@, column as nat),
{
    let mut r = String::from_str("GAME:");
    let n = decimal_string(id as u64);
    r.append(n.as_str());
    r.append(":MOVE:");
    r.append(name.as_str());
    r.append(":");
    let c = decimal_string(column as u64);
    r.append(c.as_str());
    r
}

pub fn win_message(id: u32, name: &String) -> (r: String)
    ensures
        r@ == win_text(id, name@),
{
    let mut r = String::from_str("GAME:");
    let n = decimal_string(id as u64);
    r.append(n.as_str());
    r.append(":WIN:");
    r.append(name.as_str());
    r
}

pub fn draw_message(id: u32) -> (r: String)
    ensures
        r@ == draw_text(id),
{
    let mut r = String::from_str("GAME:");
    let n = decimal_string(id as u64);
    r.append(n.as_str());
    r.append(":DRAW");
    r
}

pub fn terminated_message(id: u32) -> (r: String)
    ensures
        r@ == terminated_text(id),
{
    let mut r = String::from_str("GAME:");
    let n = decimal_string(id as u64);
    r.append(n.as_str());
    r.append(":TERMINATED");
    r
}

pub fn opponent_message(column: usize) -> (r: String)
    ensures
        r@ == opponent_text(column as nat),
{
    let c = decimal_string(column as u64);
    join2("OPPONENT:", c.as_str())
}

pub fn tournament_winner_message(name: &String) -> (r: String)
    ensures
        r@ == tournament_winner_text(name@),
{
    join2("TOURNAMENT:WINNER:", name.as_str())
}

pub fn tournament_start_message(format: &String) -> (r: String)
    ensures
        r@ == tournament_start_text(format@),
{
    join2("TOURNAMENT:START:", format.as_str())
}

pub fn set_ack_message(id: &String) -> (r: String)
    ensures
        r@ == set_ack_text(id@),
{
    let mut r = String::from_str("SET:");
    r.append(id.as_str());
    r.append(":ACK");
    r
}

pub fn reservation_added_message(p1: &String, p2: &String) -> (r: String)
    ensures
        r@ == reservation_added_text(p1@, p2@),
{
    let mut r = String::from_str("RESERVATION:ADD:");
    r.append(p1.as_str());
    r.append(",");
    r.append(p2.as_str());
    r
}

pub fn reservation_deleted_message(p1: &String, p2: &String) -> (r: String)
    ensures
        r@ == reservation_deleted_text(p1@, p2@),
{
    let mut r = String::from_str("RESERVATION:DELETE:");
    r.append(p1.as_str());
    r.append(",");
    r.append(p2.as_str());
    r
}

pub fn get_prefix_message(id: &String) -> (r: String)
    ensures
        r@ == get_prefix_text(id@),
{
    let mut r = String::from_str("GET:");
    r.append(id.as_str());
    r.append(":");
    r
}

pub fn bracket_published_message(bracket: &String) -> (r: String)
    ensures
        r@ == bracket_published_text(bracket@),
{
    join2("GET:TOURNAMENT_DATA:", bracket.as_str())
}

} // verus!
