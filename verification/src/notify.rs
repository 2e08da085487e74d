//! Encoders for the out-of-band notification queue: every event the
//! session reports is turned into one `;`-delimited line that the host
//! fetches and tokenizes. Free text is base64-escaped; a missing value is
//! the sentinel `!` or `!!`, as each line's format has it.
//!
//! The session client produces the events; the library models each event
//! as plain values — a timestamp as its number, a version or request tag
//! that travels as a floating-point number as its decimal text — and pins
//! down the exact line the host receives.

use vstd::prelude::*;

use crate::codec::{encode_vari};
use crate::encoding::{b64_encode, spec_b64};
use crate::numtext::{int_text, nat_text, i64_to_string, u64_to_string};
use crate::report::{spec_encode_administrator, encode_administrator, Administrator};
use crate::value::{items_wf, spec_encode, vari_wf, view_of, views_of_items, Value, ValueView};
use vstd::utf8::encode_utf8;

verus! {

/// A moderation action taken against this player.
pub enum AdminAction {
    Unban,
    /// A ban: the reason, and the unban time as the session displays it.
    Ban(String, String),
    /// A kick: the reason.
    Kick(String),
}

/// An event the session reports out of band.
pub enum DataUpdate {
    AdminAction(AdminAction),
    /// The reason, and the unban time as a timestamp.
    Banned(String, i64),
    ChangeFriendStatus(u64),
    Disconnected,
    /// A named remote blob: its name, and its bytes when it exists.
    FetchBdb(String, Option<Vec<u8>>),
    Kicked(String),
    Login(u64),
    LoginOk(u64, String),
    /// The refusal code, the reason, and the unban timestamp.
    LoginBan(u64, String, i64),
    /// A message from another player or the server: the sender if any, the
    /// message kind, and the payload values.
    P2P(Option<u64>, i16, Vec<Value>),
    Registration(u64),
    PlayerLoggedIn(u64, String, String),
    PlayerLoggedOut(u64),
    Reconnecting,
    ServerMessage(String),
    UpdateVariable(u64, String, Option<Value>),
    UpdateSyncVariable(u64, u64, String, Option<Value>),
    UpdateSyncRemoval(u64, u64),
    UpdateGameIni(Option<String>, String, String, Option<Value>),
    UpdatePlayerIni(Option<String>, String, String, Option<Value>),
    /// The game version, as its decimal text.
    UpdateGameVersion(String),
    UpdateAdministrator(u64, Option<Administrator>),
    ServerNotification(String),
    LoginToken(String),
}

/// Whether every value an event carries can be encoded.
pub open spec fn update_wf(u: DataUpdate) -> bool {
    match u {
        DataUpdate::P2P(_, _, payload) => items_wf(views_of_items(payload@)),
        DataUpdate::UpdateVariable(_, _, v) => (v matches Some(x) ==> vari_wf(view_of(x))),
        DataUpdate::UpdateSyncVariable(_, _, _, v) => (v matches Some(x) ==> vari_wf(view_of(x))),
        DataUpdate::UpdateGameIni(_, _, _, v) => (v matches Some(x) ==> vari_wf(view_of(x))),
        DataUpdate::UpdatePlayerIni(_, _, _, v) => (v matches Some(x) ==> vari_wf(view_of(x))),
        _ => true,
    }
}

/// A base64-escaped text field.
pub open spec fn text_field(s: Seq<char>) -> Seq<char> {
    spec_b64(encode_utf8(s))
}

/// A value field: the value's record, or `!!` when there is none.
pub open spec fn value_field(v: Option<Value>) -> Seq<char> {
    match v {
        Some(x) => spec_encode(view_of(x)),
        None => "!!"@,
    }
}

/// A file field: the name base64-escaped, or `!!` when the whole file is
/// meant.
pub open spec fn file_field(f: Option<String>) -> Seq<char> {
    match f {
        Some(name) => text_field(name@),
        None => "!!"@,
    }
}

/// The notification line of an event.
#[verifier::opaque]
pub open spec fn spec_notification(u: DataUpdate) -> Seq<char> {
    match u {
        DataUpdate::AdminAction(aa) => match aa {
            AdminAction::Unban => "admin_action;0"@,
            AdminAction::Ban(reason, when) => "admin_action;1;"@ + text_field(reason@) + ";"@
                + when@,
            AdminAction::Kick(reason) => "admin_action;2;"@ + text_field(reason@),
        },
        DataUpdate::Banned(reason, ts) => "banned;"@ + text_field(reason@) + ";"@ + int_text(
            ts as int,
        ),
        DataUpdate::ChangeFriendStatus(st) => "friend_status;"@ + nat_text(st as nat),
        DataUpdate::Disconnected => "disconnected"@,
        DataUpdate::FetchBdb(name, v) => match v {
            Some(bytes) => "fetch_bdb;1;"@ + text_field(name@) + ";"@ + spec_b64(bytes@),
            None => "fetch_bdb;0;"@ + text_field(name@),
        },
        DataUpdate::Kicked(reason) => "kicked;"@ + text_field(reason@),
        DataUpdate::Login(code) => "login;"@ + nat_text(code as nat),
        DataUpdate::LoginOk(pid, name) => "login_ok;"@ + nat_text(pid as nat) + ";"@ + text_field(
            name@,
        ),
        DataUpdate::LoginBan(code, reason, when) => "login_ban;"@ + nat_text(code as nat) + ";"@
            + text_field(reason@) + ";"@ + int_text(when as int),
        DataUpdate::P2P(sender, mid, payload) => "p2p;"@ + (match sender {
            Some(pid) => nat_text(pid as nat),
            None => "!"@,
        }) + ";"@ + int_text(mid as int) + ";"@ + spec_encode(
            ValueView::Array(views_of_items(payload@)),
        ),
        DataUpdate::Registration(code) => "register;"@ + nat_text(code as nat),
        DataUpdate::PlayerLoggedIn(pid, name, room) => "player_logged_in;"@ + nat_text(pid as nat)
            + ";"@ + text_field(name@) + ";"@ + text_field(room@),
        DataUpdate::PlayerLoggedOut(pid) => "player_logged_out;"@ + nat_text(pid as nat),
        DataUpdate::Reconnecting => "reconnecting"@,
        DataUpdate::ServerMessage(m) => "server_message;"@ + text_field(m@),
        DataUpdate::UpdateVariable(pid, name, v) => "update_variable;"@ + nat_text(pid as nat)
            + ";"@ + text_field(name@) + ";"@ + value_field(v),
        DataUpdate::UpdateSyncVariable(pid, slot, name, v) => "update_sync_variable;"@ + nat_text(
            pid as nat,
        ) + ";"@ + nat_text(slot as nat) + ";"@ + text_field(name@) + ";"@ + value_field(v),
        DataUpdate::UpdateSyncRemoval(pid, slot) => "update_sync_removal;"@ + nat_text(pid as nat)
            + ";"@ + nat_text(slot as nat),
        DataUpdate::UpdateGameIni(file, section, key, v) => "update_gameini;"@ + file_field(file)
            + ";"@ + text_field(section@) + ";"@ + text_field(key@) + ";"@ + value_field(v),
        DataUpdate::UpdatePlayerIni(file, section, key, v) => "update_playerini;"@ + file_field(
            file,
        ) + ";"@ + text_field(section@) + ";"@ + text_field(key@) + ";"@ + value_field(v),
        DataUpdate::UpdateGameVersion(ver) => "update_gameversion;"@ + ver@,
        DataUpdate::UpdateAdministrator(pid, admin) => "update_administrator;"@ + nat_text(
            pid as nat,
        ) + ";"@ + (match admin {
            Some(a) => spec_encode_administrator(a),
            None => "!"@,
        }),
        DataUpdate::ServerNotification(n) => "server_notification;"@ + text_field(n@),
        DataUpdate::LoginToken(t) => "login_token;"@ + text_field(t@),
    }
}

/// Appends a base64 text field.
fn push_text_field(s: &mut String, text: &String)
    ensures
        final(s)@ == old(s)@ + text_field(text@),
{
    let f = b64_encode(text.as_str().as_bytes());
    s.append(f.as_str());
}

/// Appends a value field: the value's record, or `!!`.
fn push_value_field(s: &mut String, v: &Option<Value>)
    requires
        (*v) matches Some(x) ==> vari_wf(view_of(x)),
    ensures
        final(s)@ == old(s)@ + value_field(*v),
{
    match v {
        Some(x) => {
            let rec = encode_vari(x);
            s.append(rec.as_str());
        },
        None => {
            s.append("!!");
        },
    }
}

/// Appends a file field: the name base64-escaped, or `!!`.
fn push_file_field(s: &mut String, f: &Option<String>)
    ensures
        final(s)@ == old(s)@ + file_field(*f),
{
    match f {
        Some(name) => {
            push_text_field(s, name);
        },
        None => {
            s.append("!!");
        },
    }
}

/// Encodes an event as its notification line.
#[verifier::rlimit(100)]
pub fn encode_notification(u: &DataUpdate) -> (r: String)
    requires
        update_wf(*u),
    ensures
        r@ == spec_notification(*u),
{
    proof {
        reveal(spec_notification);
    }
    match u {
        DataUpdate::AdminAction(aa) => {
            match aa {
                AdminAction::Unban => "admin_action;0".to_owned(),
                AdminAction::Ban(reason, when) => {
                    let mut s = "admin_action;1;".to_owned();
                    push_text_field(&mut s, reason);
                    s.append(";");
                    s.append(when.as_str());
                    s
                },
                AdminAction::Kick(reason) => {
                    let mut s = "admin_action;2;".to_owned();
                    push_text_field(&mut s, reason);
                    s
                },
            }
        },
        DataUpdate::Banned(reason, ts) => {
            let mut s = "banned;".to_owned();
            push_text_field(&mut s, reason);
            s.append(";");
            let t = i64_to_string(*ts);
            s.append(t.as_str());
            s
        },
        DataUpdate::ChangeFriendStatus(st) => {
            let mut s = "friend_status;".to_owned();
            let t = u64_to_string(*st);
            s.append(t.as_str());
            s
        },
        DataUpdate::Disconnected => "disconnected".to_owned(),
        DataUpdate::FetchBdb(name, v) => {
            match v {
                Some(bytes) => {
                    let mut s = "fetch_bdb;1;".to_owned();
                    push_text_field(&mut s, name);
                    s.append(";");
                    let f = b64_encode(bytes.as_slice());
                    s.append(f.as_str());
                    s
                },
                None => {
                    let mut s = "fetch_bdb;0;".to_owned();
                    push_text_field(&mut s, name);
                    s
                },
            }
        },
        DataUpdate::Kicked(reason) => {
            let mut s = "kicked;".to_owned();
            push_text_field(&mut s, reason);
            s
        },
        DataUpdate::Login(code) => {
            let mut s = "login;".to_owned();
            let t = u64_to_string(*code);
            s.append(t.as_str());
            s
        },
        DataUpdate::LoginOk(pid, name) => {
            let mut s = "login_ok;".to_owned();
            let t = u64_to_string(*pid);
            s.append(t.as_str());
            s.append(";");
            push_text_field(&mut s, name);
            s
        },
        DataUpdate::LoginBan(code, reason, when) => {
            let mut s = "login_ban;".to_owned();
            let t = u64_to_string(*code);
            s.append(t.as_str());
            s.append(";");
            push_text_field(&mut s, reason);
            s.append(";");
            let w = i64_to_string(*when);
            s.append(w.as_str());
            s
        },
        DataUpdate::P2P(sender, mid, payload) => {
            let mut s = "p2p;".to_owned();
            match sender {
                Some(pid) => {
                    let t = u64_to_string(*pid);
                    s.append(t.as_str());
                },
                None => {
                    s.append("!");
                },
            }
            s.append(";");
            let m = i64_to_string(*mid as i64);
            s.append(m.as_str());
            s.append(";");
            let arr = encode_array_record(payload);
            s.append(arr.as_str());
            s
        },
        DataUpdate::Registration(code) => {
            let mut s = "register;".to_owned();
            let t = u64_to_string(*code);
            s.append(t.as_str());
            s
        },
        DataUpdate::PlayerLoggedIn(pid, name, room) => {
            let mut s = "player_logged_in;".to_owned();
            let t = u64_to_string(*pid);
            s.append(t.as_str());
            s.append(";");
            push_text_field(&mut s, name);
            s.append(";");
            push_text_field(&mut s, room);
            s
        },
        DataUpdate::PlayerLoggedOut(pid) => {
            let mut s = "player_logged_out;".to_owned();
            let t = u64_to_string(*pid);
            s.append(t.as_str());
            s
        },
        DataUpdate::Reconnecting => "reconnecting".to_owned(),
        DataUpdate::ServerMessage(m) => {
            let mut s = "server_message;".to_owned();
            push_text_field(&mut s, m);
            s
        },
        DataUpdate::UpdateVariable(pid, name, v) => {
            let mut s = "update_variable;".to_owned();
            let t = u64_to_string(*pid);
            s.append(t.as_str());
            s.append(";");
            push_text_field(&mut s, name);
            s.append(";");
            push_value_field(&mut s, v);
            s
        },
        DataUpdate::UpdateSyncVariable(pid, slot, name, v) => {
            let mut s = "update_sync_variable;".to_owned();
            let t = u64_to_string(*pid);
            s.append(t.as_str());
            s.append(";");
            let sl = u64_to_string(*slot);
            s.append(sl.as_str());
            s.append(";");
            push_text_field(&mut s, name);
            s.append(";");
            push_value_field(&mut s, v);
            s
        },
        DataUpdate::UpdateSyncRemoval(pid, slot) => {
            let mut s = "update_sync_removal;".to_owned();
            let t = u64_to_string(*pid);
            s.append(t.as_str());
            s.append(";");
            let sl = u64_to_string(*slot);
            s.append(sl.as_str());
            s
        },
        DataUpdate::UpdateGameIni(file, section, key, v) => {
            let mut s = "update_gameini;".to_owned();
            push_file_field(&mut s, file);
            s.append(";");
            push_text_field(&mut s, section);
            s.append(";");
            push_text_field(&mut s, key);
            s.append(";");
            push_value_field(&mut s, v);
            s
        },
        DataUpdate::UpdatePlayerIni(file, section, key, v) => {
            let mut s = "update_playerini;".to_owned();
            push_file_field(&mut s, file);
            s.append(";");
            push_text_field(&mut s, section);
            s.append(";");
            push_text_field(&mut s, key);
            s.append(";");
            push_value_field(&mut s, v);
            s
        },
        DataUpdate::UpdateGameVersion(ver) => {
            let mut s = "update_gameversion;".to_owned();
            s.append(ver.as_str());
            s
        },
        DataUpdate::UpdateAdministrator(pid, admin) => {
            let mut s = "update_administrator;".to_owned();
            let t = u64_to_string(*pid);
            s.append(t.as_str());
            s.append(";");
            match admin {
                Some(a) => {
                    let f = encode_administrator(a);
                    s.append(f.as_str());
                },
                None => {
                    s.append("!");
                },
            }
            s
        },
        DataUpdate::ServerNotification(n) => {
            let mut s = "server_notification;".to_owned();
            push_text_field(&mut s, n);
            s
        },
        DataUpdate::LoginToken(t) => {
            let mut s = "login_token;".to_owned();
            push_text_field(&mut s, t);
            s
        },
    }
}

/// Encodes a payload list as one array record.
fn encode_array_record(payload: &Vec<Value>) -> (r: String)
    requires
        items_wf(views_of_items(payload@)),
    ensures
        r@ == spec_encode(ValueView::Array(views_of_items(payload@))),
{
    proof {
        crate::value::lemma_items_wf(views_of_items(payload@));
    }
    crate::codec::encode_array(payload)
}

/// Encodes the line for a requested player variable: the request tag as
/// its number text, the player, the raw variable name, and the value's
/// record or `!`.
pub fn encode_player_variable_request(
    request: &String,
    pid: u64,
    name: &String,
    value: &Option<Value>,
) -> (r: String)
    requires
        (*value) matches Some(x) ==> vari_wf(view_of(x)),
    ensures
        r@ == "player_variable_request;"@ + request@ + ";"@ + nat_text(pid as nat) + ";"@ + name@
            + ";"@ + (match *value {
            Some(x) => spec_encode(view_of(x)),
            None => "!"@,
        }),
{
    let mut s = "player_variable_request;".to_owned();
    s.append(request.as_str());
    s.append(";");
    let t = u64_to_string(pid);
    s.append(t.as_str());
    s.append(";");
    s.append(name.as_str());
    s.append(";");
    match value {
        Some(x) => {
            let rec = encode_vari(x);
            s.append(rec.as_str());
        },
        None => {
            s.append("!");
        },
    }
    s
}

/// Encodes the line for a requested synchronized-object variable.
pub fn encode_sync_variable_request(
    request: &String,
    pid: u64,
    name: &String,
    value: &Option<Value>,
) -> (r: String)
    requires
        (*value) matches Some(x) ==> vari_wf(view_of(x)),
    ensures
        r@ == "sync_variable_request;"@ + request@ + ";"@ + nat_text(pid as nat) + ";"@ + name@
            + ";"@ + (match *value {
            Some(x) => spec_encode(view_of(x)),
            None => "!"@,
        }),
{
    let mut s = "sync_variable_request;".to_owned();
    s.append(request.as_str());
    s.append(";");
    let t = u64_to_string(pid);
    s.append(t.as_str());
    s.append(";");
    s.append(name.as_str());
    s.append(";");
    match value {
        Some(x) => {
            let rec = encode_vari(x);
            s.append(rec.as_str());
        },
        None => {
            s.append("!");
        },
    }
    s
}

} // verus!
