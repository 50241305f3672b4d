use online_squares::lobby::{stringvec_to_string, Lobby, Received, MAX_USERS};

fn texts(lobby: &Lobby) -> Vec<String> {
    lobby.slot_texts()
}

#[test]
fn joins_every_slot_into_one_transmission() {
    let slots = vec!["7,0;".to_string(), "();".to_string(), "bob:1,2".to_string()];
    assert_eq!(stringvec_to_string(slots), "#7,0;();bob:1,2");
}

#[test]
fn empty_slot_list_is_only_the_marker() {
    assert_eq!(stringvec_to_string(Vec::new()), "#");
}

#[test]
fn new_lobby_has_every_slot_free() {
    let lobby = Lobby::new();
    assert_eq!(lobby.slot_count(), MAX_USERS);
    assert_eq!(lobby.active_count(), 0);
    assert!(texts(&lobby).iter().all(|s| s == "();"));
    assert!(lobby.has_room());
}

#[test]
fn join_takes_the_last_free_slot() {
    let mut lobby = Lobby::new();
    assert_eq!(lobby.join(), 4);
    assert_eq!(lobby.join(), 3);
    assert_eq!(texts(&lobby)[4], "7,0;");
    assert_eq!(texts(&lobby)[3], "7,0;");
    assert_eq!(lobby.active_count(), 2);
}

#[test]
fn full_lobby_refuses() {
    let mut lobby = Lobby::new();
    assert!(lobby.has_free_slot());
    for expected in (0..MAX_USERS).rev() {
        assert_eq!(lobby.free_slot_index(), Some(expected));
        assert_eq!(lobby.join(), expected);
    }
    assert!(!lobby.has_room());
    assert!(!lobby.has_free_slot());
    assert_eq!(lobby.free_slot_index(), None);
    assert_eq!(lobby.active_count(), MAX_USERS);
}

#[test]
fn leaving_after_joining_restores_the_lobby() {
    let mut lobby = Lobby::new();
    let before = texts(&lobby);
    let id = lobby.join();
    lobby.leave(id);
    assert_eq!(texts(&lobby), before);
    assert_eq!(lobby.active_count(), 0);
}

#[test]
fn snapshot_leaves_out_own_slot() {
    let mut lobby = Lobby::new();
    let id = lobby.join();
    assert_eq!(lobby.snapshot_for(id), "#();();();();");
    let other = lobby.join();
    assert_eq!(lobby.snapshot_for(other), "#();();();7,0;");
}

#[test]
fn snapshot_ignores_own_report() {
    let mut lobby = Lobby::new();
    let id = lobby.join();
    let before = lobby.snapshot_for(id);
    assert_eq!(lobby.receive(id, b"ann:1,2:3,4,5:hi~ "), Received::Stored);
    assert_eq!(lobby.snapshot_for(id), before);
}

#[test]
fn report_is_stored_up_to_the_tilde() {
    let mut lobby = Lobby::new();
    let id = lobby.join();
    let mut buf = [0u8; 50];
    let msg = b"bob:10,20:3.4e38,3.4e38,3.4e38:~ ";
    buf[..msg.len()].copy_from_slice(msg);
    assert_eq!(lobby.receive(id, &buf), Received::Stored);
    assert_eq!(texts(&lobby)[id], "bob:10,20:3.4e38,3.4e38,3.4e38:");
    assert_eq!(lobby.active_count(), 1);
}

#[test]
fn disconnect_request_frees_the_slot() {
    let mut lobby = Lobby::new();
    let id = lobby.join();
    assert_eq!(lobby.receive(id, b"(DISCONNECT)\0\0\0"), Received::Left);
    assert_eq!(texts(&lobby)[id], "();");
    assert_eq!(lobby.active_count(), 0);
}

#[test]
fn invalid_utf8_changes_nothing() {
    let mut lobby = Lobby::new();
    let id = lobby.join();
    assert_eq!(lobby.receive(id, &[b'a', 0xff, b'~']), Received::Undecodable);
    assert_eq!(texts(&lobby)[id], "7,0;");
    assert_eq!(lobby.active_count(), 1);
}

#[test]
fn disconnect_requests_are_recognised() {
    assert!(Lobby::is_disconnect_request(b"xx(DISCONNECT)\0\0"));
    assert!(!Lobby::is_disconnect_request(b"(DISCONNEC"));
    assert!(!Lobby::is_disconnect_request(&[0xff, b'(']));
}

#[test]
fn report_without_tilde_cannot_be_handled() {
    assert!(!Lobby::is_terminated_report(b"bob:1,2"));
    assert!(Lobby::is_terminated_report(b"bob:1,2~"));
    assert!(Lobby::is_terminated_report(b"(DISCONNECT)"));
    assert!(Lobby::is_terminated_report(&[0xff]));
}

#[test]
fn count_matches_held_slots_across_a_connection() {
    let mut lobby = Lobby::new();
    let held = |l: &Lobby| l.slot_texts().iter().filter(|s| s.as_str() != "();").count();
    let a = lobby.join();
    let b = lobby.join();
    assert_eq!(lobby.active_count(), held(&lobby));
    lobby.receive(a, b"ann:1,2:0,0,0:~ ");
    assert_eq!(lobby.active_count(), held(&lobby));
    lobby.receive(b, b"(DISCONNECT)");
    assert_eq!(lobby.active_count(), held(&lobby));
    lobby.leave(a);
    assert_eq!(lobby.active_count(), held(&lobby));
    assert_eq!(lobby.active_count(), 0);
}

#[test]
fn multibyte_text_is_decoded_before_storing() {
    let mut lobby = Lobby::new();
    let id = lobby.join();
    assert_eq!(lobby.receive(id, "zoë:é~".as_bytes()), Received::Stored);
    assert_eq!(texts(&lobby)[id], "zoë:é");
}
