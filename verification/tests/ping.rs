use phone_tile::ping::enter_direction;
use phone_tile::ping::lane;
use phone_tile::ping::spawn_direction;
use phone_tile::ping::Goal;
use phone_tile::ping::Lane;
use phone_tile::ping::PingState;
use phone_tile::ping::SPAWN_SPEED;

#[test]
fn entry_diagonals() {
    assert_eq!(enter_direction(0), Some((1, 1)));
    assert_eq!(enter_direction(1), Some((1, -1)));
    assert_eq!(enter_direction(2), Some((-1, 1)));
    assert_eq!(enter_direction(3), Some((-1, -1)));
    assert_eq!(enter_direction(7), Some((-1, -1)));
    assert_eq!(enter_direction(127), Some((-1, -1)));
    // negative bytes whose remainder is not zero pick no diagonal
    assert_eq!(enter_direction(-1), None);
    assert_eq!(enter_direction(-3), None);
    assert_eq!(enter_direction(-128), Some((1, 1)));
    assert_eq!(enter_direction(-4), Some((1, 1)));
}

#[test]
fn spawn_direction_follows_the_byte() {
    for _ in 0..64 {
        if let Some((d, signs)) = spawn_direction() {
            assert_eq!(signs, enter_direction(d));
        }
    }
}

#[test]
fn lanes() {
    assert_eq!(lane(0), Lane { mirrored: false, offset: 0 });
    assert_eq!(lane(1), Lane { mirrored: true, offset: 0 });
    assert_eq!(lane(2), Lane { mirrored: false, offset: 500 });
    assert_eq!(lane(3), Lane { mirrored: true, offset: 500 });
    assert_eq!(lane(255), Lane { mirrored: true, offset: 500 * 127 });
}

#[test]
fn balls_come_in_after_the_spawn_delay() {
    let mut s = PingState::new();
    for _ in 0..SPAWN_SPEED {
        assert!(!s.tick());
    }
    assert_eq!(s.spawn, 200);
    assert!(s.tick());
    assert!(s.tick());
    assert_eq!(s.score, (0, 0));
}

#[test]
fn retiring_moves_the_ball_and_scores() {
    let mut s = PingState::new();
    let mut active = vec!['a', 'b', 'c', 'd'];
    let mut off = Vec::new();
    s.retire_ball(&mut active, &mut off, 1, Goal::High);
    assert_eq!(active, vec!['a', 'd', 'c']);
    assert_eq!(off, vec!['b']);
    assert_eq!(s.score, (1, 0));
    s.retire_ball(&mut active, &mut off, 2, Goal::Low);
    assert_eq!(active, vec!['a', 'd']);
    assert_eq!(off, vec!['b', 'c']);
    assert_eq!(s.score, (1, 1));
    assert_eq!(s.spawn, 0);
}
