use online_squares::chat::{
    first_unfit_record, get_players_from_string, read_server_update, roster_fits,
    server_update_fault, ChatBox, ChatKeys, ChatLog, ServerFault, ServerUpdate, CHAT_LOG_LIMIT,
    MAX_PLAYERS,
};
use online_squares::roster::parse_roster;

#[test]
fn new_log_is_empty() {
    let log = ChatLog::new();
    assert!(log.lines().is_empty());
    assert_eq!(log.player_count(), MAX_PLAYERS);
}

#[test]
fn message_is_logged_once() {
    let mut log = ChatLog::new();
    assert!(log.note_message(2, "ann", "hi"));
    assert!(!log.note_message(2, "ann", "hi"));
    assert_eq!(log.lines(), vec!["[ann]: hi"]);
    assert!(log.note_message(3, "bo", "hi"));
    assert_eq!(log.lines().len(), 2);
}

#[test]
fn log_drops_oldest_line_at_the_limit() {
    let mut log = ChatLog::new();
    for i in 0..25 {
        log.note_message(1, "ann", &format!("m{}", i));
    }
    let lines = log.lines();
    assert_eq!(lines.len(), CHAT_LOG_LIMIT);
    assert_eq!(lines[0], "[ann]: m5");
    assert_eq!(lines[19], "[ann]: m24");
}

#[test]
fn roster_messages_reach_the_log() {
    let mut log = ChatLog::new();
    let records = get_players_from_string("1:ann:1,2:0,0,0:hello;2:bo;7:cy:::yo:extra".to_string(), &mut log);
    assert_eq!(records.len(), 3);
    assert_eq!(log.lines(), vec!["[ann]: hello"]);
}

#[test]
fn message_from_unknown_player_id_does_not_fit() {
    let data = "1:ann:::a;25:zed:::b;3:cy:::c";
    assert!(!roster_fits(data));
    assert_eq!(first_unfit_record(&parse_roster(data)), Some(1));
    // Without a message, or with a sixth field, the id is never used.
    assert!(roster_fits("25:zed:::"));
    assert!(roster_fits("25:zed:::b:x"));
    assert!(roster_fits("19:zed:::b"));
}

#[test]
fn empty_spots_do_not_reach_the_log() {
    let mut log = ChatLog::new();
    let records = get_players_from_string("();();".to_string(), &mut log);
    assert!(records.is_empty());
    assert!(log.lines().is_empty());
}

#[test]
fn same_roster_read_twice_logs_once() {
    let mut log = ChatLog::new();
    let data = "1:ann:::a;2:bo:::b";
    get_players_from_string(data.to_string(), &mut log);
    let once = log.lines();
    get_players_from_string(data.to_string(), &mut log);
    assert_eq!(log.lines(), once);
    assert_eq!(once.len(), 2);
}

#[test]
fn server_update_reads_up_to_tilde() {
    let mut log = ChatLog::new();
    match read_server_update(b"4:dee:5,6:1,2,3:hey;~junk", &mut log) {
        ServerUpdate::Roster(records) => {
            assert_eq!(records.len(), 1);
            assert_eq!(records[0].id, Some(4));
        }
        other => panic!("{:?}", other),
    }
    assert_eq!(log.lines(), vec!["[dee]: hey"]);
    assert!(matches!(read_server_update(&[0xc3, 0x28], &mut log), ServerUpdate::Undecodable));
}

#[test]
fn server_update_faults() {
    assert!(server_update_fault(b"4:dee:5,6:1,2,3:hey;~junk").is_none());
    assert!(server_update_fault(&[0xc3, 0x28]).is_none());
    assert!(matches!(server_update_fault(b"#();();"), Some(ServerFault::Unterminated)));
    match server_update_fault(b"1:a:::m;99:x:::m~") {
        Some(ServerFault::UnknownPlayer { records, at }) => {
            assert_eq!(at, 1);
            assert_eq!(records.len(), 2);
            assert_eq!(records[at].id, Some(99));
        }
        other => panic!("{:?}", other),
    }
}

fn keys() -> ChatKeys {
    ChatKeys::default()
}

#[test]
fn chat_box_types_and_sends() {
    let mut chat = ChatBox::new();
    let mut log = ChatLog::new();
    assert!(!chat.is_open());
    let typed = ChatKeys { text: Some("hi".to_string()), ..keys() };
    assert_eq!(chat.update(&typed, "user", &mut log), None);
    assert_eq!(chat.draft(), "");
    let open = ChatKeys { t_released: true, ..keys() };
    chat.update(&open, "user", &mut log);
    assert!(chat.is_open());
    chat.update(&typed, "user", &mut log);
    assert_eq!(chat.draft(), "hi");
    let erase = ChatKeys { backspace_released: true, ..keys() };
    chat.update(&erase, "user", &mut log);
    assert_eq!(chat.draft(), "h");
    let send = ChatKeys { enter_released: true, ..keys() };
    assert_eq!(chat.update(&send, "user", &mut log), Some("'h'".to_string()));
    assert_eq!(chat.draft(), "");
    assert_eq!(log.lines(), vec!["[user]: h"]);
}

#[test]
fn backspace_undoes_one_typed_character() {
    let mut chat = ChatBox::new();
    let mut log = ChatLog::new();
    chat.update(&ChatKeys { t_released: true, text: Some("ab".to_string()), ..keys() }, "u", &mut log);
    chat.update(&ChatKeys { text: Some("é".to_string()), ..keys() }, "u", &mut log);
    chat.update(&ChatKeys { backspace_released: true, ..keys() }, "u", &mut log);
    assert_eq!(chat.draft(), "ab");
}

#[test]
fn escape_closes_chat_box() {
    let mut chat = ChatBox::new();
    let mut log = ChatLog::new();
    chat.update(&ChatKeys { t_released: true, ..keys() }, "u", &mut log);
    chat.update(&ChatKeys { escape_down: true, text: Some("x".to_string()), ..keys() }, "u", &mut log);
    assert!(!chat.is_open());
    assert_eq!(chat.draft(), "x");
}

#[test]
fn local_lines_are_not_limited() {
    let mut chat = ChatBox::new();
    let mut log = ChatLog::new();
    chat.update(&ChatKeys { t_released: true, ..keys() }, "u", &mut log);
    for i in 0..25 {
        chat.update(&ChatKeys { text: Some(format!("{}", i)), enter_released: true, ..keys() }, "u", &mut log);
    }
    assert_eq!(log.lines().len(), 25);
}
