use phone_tile::network::Flag;
use phone_tile::network::Game;
use phone_tile::network::Network;
use phone_tile::network::Packet;
use phone_tile::network::Status;

fn reply(session: u16, room: u16, option: u16) -> Packet {
    Packet { flag: Flag::Init, session, room, data: Vec::new(), option }
}

#[test]
fn game_codes() {
    assert_eq!(u16::from(Game::Racer), 1);
    assert_eq!(u16::from(Game::Snake), 2);
    assert_eq!(u16::from(Game::MazeFight), 3);
    assert_eq!(u16::from(Game::Ping), 4);
    assert_eq!(u16::from(Game::Test), 0x80);
    assert_eq!(u16::from(Game::Unknown), 0xff);
}

#[test]
fn games_of_codes() {
    assert_eq!(Game::from(1u16), Game::Racer);
    assert_eq!(Game::from(2u16), Game::Snake);
    assert_eq!(Game::from(3u16), Game::MazeFight);
    assert_eq!(Game::from(4u16), Game::Ping);
    assert_eq!(Game::from(0x80u16), Game::Test);
    assert_eq!(Game::from(0xffu16), Game::Unknown);
    assert_eq!(Game::from(0u16), Game::Unknown);
    assert_eq!(Game::from(5u16), Game::Unknown);
    assert_eq!(Game::from(0x1234u16), Game::Unknown);
}

#[test]
fn game_code_roundtrip() {
    for g in [Game::Racer, Game::Snake, Game::MazeFight, Game::Ping, Game::Test, Game::Unknown] {
        assert_eq!(Game::from(u16::from(g)), g);
    }
    // a number that stands for no game does not come back
    assert_eq!(u16::from(Game::from(7u16)), 0xff);
}

#[test]
fn game_names() {
    assert_eq!(Game::Racer.to_string(), "Racer");
    assert_eq!(Game::Snake.to_string(), "Snake");
    assert_eq!(Game::MazeFight.to_string(), "Maze-Fight");
    assert_eq!(Game::Ping.to_string(), "Ping");
    assert_eq!(Game::Test.to_string(), "Test");
    assert_eq!(Game::Unknown.to_string(), "Unknown");
}

#[test]
fn handshake_packet_layout() {
    let p = Network::init_handshake(1.5f32.to_bits(), 0.75f32.to_bits(), 1080, 2400);
    assert_eq!(p.flag, Flag::Init);
    assert_eq!((p.session, p.room, p.option), (0, 0, 0));
    let mut expected = Vec::new();
    expected.extend_from_slice(&1.5f32.to_be_bytes());
    expected.extend_from_slice(&0.75f32.to_be_bytes());
    expected.extend_from_slice(&1080u32.to_be_bytes());
    expected.extend_from_slice(&2400u32.to_be_bytes());
    assert_eq!(p.data, expected);
    assert_eq!(p.data[8..12], [0, 0, 4, 56]);
}

#[test]
fn session_flow() {
    let mut n = Network::connect(&reply(42, 9, 0));
    assert_eq!(n.session_token(), 42);
    assert_eq!(n.room_token(), 0);
    assert_eq!(n.status(), Status::Connected);

    let req = n.create_room_request();
    assert_eq!(req.flag, Flag::Create);
    assert_eq!((req.session, req.room, req.option), (42, 0, 0));
    assert!(req.data.is_empty());

    let room = n.create_room(&reply(0, 777, 0));
    assert_eq!(room, 777);
    assert_eq!(n.room_token(), 777);
    assert_eq!(n.session_token(), 42);
    assert_eq!(n.status(), Status::InRoom);

    let lock = n.lock_room(Game::Ping);
    assert_eq!(lock.flag, Flag::Lock);
    assert_eq!((lock.session, lock.room, lock.option), (42, 777, 4));
    assert_eq!(Game::from(lock.option), Game::Ping);

    let launch = n.launch_game_request();
    assert_eq!(launch.flag, Flag::Launch);
    assert_eq!((launch.session, launch.room, launch.option), (42, 777, 0));
    n.launch_game();
    assert_eq!(n.status(), Status::InGame);
    assert_eq!((n.session_token(), n.room_token()), (42, 777));
}

#[test]
fn join_takes_the_room_of_the_reply() {
    let mut n = Network::connect(&reply(5, 0, 0));
    let req = n.join_room_request(31);
    assert_eq!(req.flag, Flag::Join);
    assert_eq!((req.session, req.room, req.option), (5, 31, 0));
    n.join_room(&reply(99, 32, 0));
    assert_eq!(n.room_token(), 32);
    assert_eq!(n.session_token(), 5);
    assert_eq!(n.status(), Status::InRoom);
}

#[test]
fn transmit_packet() {
    let n = Network::connect(&reply(3, 0, 0));
    let p = n.send(&[1, 2, 3]);
    assert_eq!(p.flag, Flag::Transmit);
    assert_eq!((p.session, p.room, p.option), (3, 0, 0));
    assert_eq!(p.data, vec![1, 2, 3]);
}

#[test]
fn recv_copies_the_packet() {
    let mut buffer = vec![0u8; 4];
    let p = Packet { flag: Flag::Transmit, session: 0, room: 0, data: vec![9, 8, 7, 6], option: 0 };
    assert_eq!(Network::recv(Some(&p), &mut buffer), 4);
    assert_eq!(buffer, vec![9, 8, 7, 6]);
    assert_eq!(Network::recv(None, &mut buffer), 0);
    assert_eq!(buffer, vec![9, 8, 7, 6]);
}

#[test]
fn status_moves_forward_with_the_server() {
    let mut n = Network::connect(&reply(1, 0, 0));
    assert!(!n.awaits_packet());
    // outside a room nothing is read and nothing moves
    assert_eq!(n.get_status(Some(&reply(0, 0, 3))), Status::Connected);
    n.create_room(&reply(0, 4, 0));
    assert!(n.awaits_packet());
    assert_eq!(n.get_status(None), Status::InRoom);
    // the option's low byte is the player's position
    assert_eq!(n.get_status(Some(&reply(0, 0, 0x0102))), Status::InLockRoom(2));
    assert!(n.awaits_packet());
    assert_eq!(n.get_status(None), Status::InLockRoom(2));
    assert_eq!(n.get_status(Some(&reply(0, 0, 0))), Status::InGame);
    assert!(!n.awaits_packet());
    assert_eq!(n.get_status(Some(&reply(0, 0, 5))), Status::InGame);
    assert_eq!((n.session_token(), n.room_token()), (1, 4));
}
