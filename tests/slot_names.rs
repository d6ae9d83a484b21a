use savewatch::slot::{game_from_names, slot_from_file_name, Game};

fn names(parts: &[&str]) -> Vec<Vec<u8>> {
    parts.iter().map(|p| p.as_bytes().to_vec()).collect()
}

#[test]
fn game_detected_from_components() {
    assert_eq!(game_from_names(&names(&["home", "unity3d", "Team Cherry", "Hollow Knight Silksong"])), Game::Silksong);
    assert_eq!(game_from_names(&names(&["saves", "silksong-backup"])), Game::Silksong);
    assert_eq!(game_from_names(&names(&["home", "unity3d", "Team Cherry", "Hollow Knight"])), Game::HollowKnight);
    assert_eq!(game_from_names(&names(&["SILKSONG"])), Game::HollowKnight);
    assert_eq!(game_from_names(&names(&[])), Game::HollowKnight);
}

#[test]
fn game_names() {
    assert_eq!(Game::HollowKnight.name(), "hollow-knight");
    assert_eq!(Game::Silksong.name(), "silksong");
}

#[test]
fn slot_from_names() {
    assert_eq!(slot_from_file_name(b"user1.dat"), Some(1));
    assert_eq!(slot_from_file_name(b"user4.dat"), Some(4));
    assert_eq!(slot_from_file_name(b"user255.dat"), Some(255));
    assert_eq!(slot_from_file_name(b"user007.dat"), Some(7));
    assert_eq!(slot_from_file_name(b"user+3.dat"), Some(3));
    assert_eq!(slot_from_file_name(b"user256.dat"), None);
    assert_eq!(slot_from_file_name(b"user.dat"), None);
    assert_eq!(slot_from_file_name(b"user+.dat"), None);
    assert_eq!(slot_from_file_name(b"user1a.dat"), None);
    assert_eq!(slot_from_file_name(b"save1.dat"), None);
    assert_eq!(slot_from_file_name(b"user1.json"), None);
}
