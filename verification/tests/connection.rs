use chunk_store::chunk::Heightmaps;
use chunk_store::connection::ConnectionState;

#[test]
fn connection_states_have_their_names() {
    assert_eq!(ConnectionState::Handshaking.as_str(), "handshake");
    assert_eq!(ConnectionState::Status.as_str(), "status");
    assert_eq!(ConnectionState::Login.as_str(), "login");
    assert_eq!(ConnectionState::Play.as_str(), "play");
}

#[test]
fn new_heightmaps_are_empty() {
    let maps = Heightmaps::new();
    assert!(maps.motion_blocking.is_empty());
    assert!(maps.world_surface.is_empty());
    let maps = Heightmaps::default();
    assert!(maps.motion_blocking.is_empty());
    assert!(maps.world_surface.is_empty());
}
