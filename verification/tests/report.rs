use online_squares::lobby::{Lobby, Received};
use online_squares::report::{get_string_from_local_details, LocalPlayerDetails};

fn details() -> LocalPlayerDetails {
    LocalPlayerDetails {
        name: "user".to_string(),
        position: ["1.5".to_string(), "-2".to_string()],
        recent_bullet_position_and_direction: ["3".to_string(), "4".to_string(), "5".to_string()],
        message: "'hi'".to_string(),
    }
}

#[test]
fn report_fields_in_order() {
    assert_eq!(get_string_from_local_details(details()), "user:1.5,-2:3,4,5:'hi'~ ");
}

#[test]
fn server_stores_the_report_without_its_end() {
    let report = get_string_from_local_details(details());
    let mut lobby = Lobby::new();
    let id = lobby.join();
    assert_eq!(lobby.receive(id, report.as_bytes()), Received::Stored);
    assert_eq!(lobby.slot_texts()[id], "user:1.5,-2:3,4,5:'hi'");
}
