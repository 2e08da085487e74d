//! The session snapshot and notification encoders, on concrete values.

use gm_utils::notify::{
    encode_notification, encode_player_variable_request, encode_sync_variable_request,
    AdminAction, DataUpdate,
};
use gm_utils::report::{
    encode_achievement, encode_administrator, encode_highscore, encode_id_list, encode_player,
    encode_sync, encode_synciter, Achievement, Administrator, Highscore, Player, SyncIter,
    SyncState,
};
use gm_utils::value::Value;

#[test]
fn administrator_record() {
    let a = Administrator { can_ban: true, can_unban: false, can_kick: true };
    assert_eq!(encode_administrator(&a), "true:false:true");
}

#[test]
fn achievement_record() {
    let a = Achievement {
        name: String::from("Winner"),
        description: String::from("Beat the game"),
        unlocked: Some(1700000000),
    };
    assert_eq!(
        encode_achievement(&Some(a)),
        "V2lubmVy:QmVhdCB0aGUgZ2FtZQ==:1700000000"
    );
    let locked = Achievement {
        name: String::from("Winner"),
        description: String::from("Beat the game"),
        unlocked: None,
    };
    assert_eq!(
        encode_achievement(&Some(locked)),
        "V2lubmVy:QmVhdCB0aGUgZ2FtZQ==:!"
    );
    assert_eq!(encode_achievement(&None), "!");
}

#[test]
fn highscore_record() {
    let h = Highscore {
        name: String::from("Top"),
        scores: vec![(7, String::from("10.5")), (9, String::from("3"))],
    };
    assert_eq!(encode_highscore(&Some(h)), "VG9w:2:7:10.5:9:3");
    assert_eq!(encode_highscore(&None), "!");
}

#[test]
fn sync_record() {
    let st = SyncState {
        kind: -2,
        sync_type: 1,
        event: 0,
        is_ending: true,
        variables: vec![(String::from("hp"), Value::Int(40))],
    };
    assert_eq!(encode_sync(3, &Some(st)), "3:-2:1:0:1:1:aHA=:MDo0MA==");
    assert_eq!(encode_sync(0, &None), "0:!");
}

#[test]
fn player_record() {
    let p = Player {
        name: String::from("ann"),
        room: String::from("lobby"),
        syncs: vec![None],
        variables: vec![(String::from("hp"), Value::Int(40))],
    };
    assert_eq!(
        encode_player(7, &p),
        "7:YW5u:bG9iYnk=:1:1:MDoh:aHA=:MDo0MA=="
    );
}

#[test]
fn synciter_record() {
    let si = SyncIter {
        player_id: 7,
        player_name: String::from("ann"),
        slot: 2,
        event: 1,
        kind: -3,
        variables: vec![],
    };
    assert_eq!(encode_synciter(&si), "7:YW5u:2:1:-3:0");
}

#[test]
fn notification_lines() {
    assert_eq!(
        encode_notification(&DataUpdate::AdminAction(AdminAction::Unban)),
        "admin_action;0"
    );
    assert_eq!(
        encode_notification(&DataUpdate::AdminAction(AdminAction::Ban(
            String::from("rude"),
            String::from("2030-01-01 00:00:00 UTC"),
        ))),
        "admin_action;1;cnVkZQ==;2030-01-01 00:00:00 UTC"
    );
    assert_eq!(
        encode_notification(&DataUpdate::Banned(String::from("rude"), 1700000000)),
        "banned;cnVkZQ==;1700000000"
    );
    assert_eq!(encode_notification(&DataUpdate::Disconnected), "disconnected");
    assert_eq!(
        encode_notification(&DataUpdate::Login(3)),
        "login;3"
    );
    assert_eq!(
        encode_notification(&DataUpdate::P2P(None, -4, vec![Value::Int(5)])),
        "p2p;!;-4;5:1:MDo1"
    );
    assert_eq!(
        encode_notification(&DataUpdate::UpdateVariable(
            9,
            String::from("x"),
            Some(Value::Int(5)),
        )),
        "update_variable;9;eA==;0:5"
    );
    assert_eq!(
        encode_notification(&DataUpdate::UpdateVariable(9, String::from("x"), None)),
        "update_variable;9;eA==;!!"
    );
    assert_eq!(
        encode_notification(&DataUpdate::UpdateGameIni(
            None,
            String::from("sec"),
            String::from("key"),
            None,
        )),
        "update_gameini;!!;c2Vj;a2V5;!!"
    );
    assert_eq!(
        encode_notification(&DataUpdate::UpdateGameVersion(String::from("1.25"))),
        "update_gameversion;1.25"
    );
    assert_eq!(
        encode_notification(&DataUpdate::UpdateAdministrator(
            4,
            Some(Administrator { can_ban: false, can_unban: false, can_kick: true }),
        )),
        "update_administrator;4;false:false:true"
    );
    assert_eq!(
        encode_notification(&DataUpdate::UpdateAdministrator(4, None)),
        "update_administrator;4;!"
    );
}

#[test]
fn variable_request_lines() {
    assert_eq!(
        encode_player_variable_request(
            &String::from("2"),
            11,
            &String::from("score"),
            &Some(Value::Bool(true)),
        ),
        "player_variable_request;2;11;score;2:1"
    );
    assert_eq!(
        encode_sync_variable_request(&String::from("2"), 11, &String::from("score"), &None),
        "sync_variable_request;2;11;score;!"
    );
}

#[test]
fn id_list_record() {
    assert_eq!(encode_id_list(&vec![]), "0");
    assert_eq!(encode_id_list(&vec![5, 17, 3]), "3:5:17:3");
}
