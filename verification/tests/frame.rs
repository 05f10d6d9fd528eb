use phone_tile::frame::latest_frame;
use phone_tile::frame::racket_message;
use phone_tile::frame::recv_game_data;
use phone_tile::frame::send_game_data;
use phone_tile::frame::unpack_game_data;
use phone_tile::frame::BallFrame;
use phone_tile::frame::BallWords;
use phone_tile::frame::RacketFrame;

fn racket(id: usize, x: f32, y: f32) -> RacketFrame {
    RacketFrame { id, x: x.to_bits(), y: y.to_bits(), size_x: 10f32.to_bits(), size_y: 20f32.to_bits() }
}

fn ball(x: f32, y: f32, radius: f64) -> BallFrame {
    BallFrame { x: x.to_bits(), y: y.to_bits(), radius: radius.to_bits() }
}

#[test]
fn rect_layout() {
    let r = racket(3, 1.0, -2.5);
    let mut expected = vec![3u8];
    expected.extend_from_slice(&1.0f32.to_be_bytes());
    expected.extend_from_slice(&(-2.5f32).to_be_bytes());
    expected.extend_from_slice(&10f32.to_be_bytes());
    expected.extend_from_slice(&20f32.to_be_bytes());
    assert_eq!(r.rect(), expected);
    // the id travels as its low byte
    assert_eq!(racket(0x102, 0.0, 0.0).rect()[0], 2);
}

#[test]
fn circle_layout() {
    let b = ball(4.0, 8.0, 20.0);
    let mut expected = Vec::new();
    expected.extend_from_slice(&4.0f32.to_be_bytes());
    expected.extend_from_slice(&8.0f32.to_be_bytes());
    expected.extend_from_slice(&20.0f64.to_be_bytes());
    assert_eq!(b.circle(), expected);
    assert_eq!(b.circle().len(), 16);
}

#[test]
fn frame_holds_own_rackets_count_and_balls() {
    let rackets = [racket(0, 1.0, 2.0), racket(1, 3.0, 4.0), racket(1, 5.0, 6.0)];
    let balls = [ball(7.0, 8.0, 9.0), ball(10.0, 11.0, 12.0)];
    let data = send_game_data(1, &rackets, &balls);
    let mut expected = rackets[1].rect();
    expected.extend(rackets[2].rect());
    expected.push(2);
    expected.extend(balls[0].circle());
    expected.extend(balls[1].circle());
    assert_eq!(data, expected);
    assert_eq!(data.len(), 17 * 2 + 1 + 16 * 2);
}

#[test]
fn frame_without_rackets_or_balls() {
    let data = send_game_data(4, &[racket(0, 1.0, 1.0)], &[]);
    assert_eq!(data, vec![0]);
}

#[test]
fn ball_count_is_its_low_byte() {
    let balls = vec![ball(0.0, 0.0, 0.0); 257];
    let data = send_game_data(0, &[], &balls);
    assert_eq!(data[0], 1);
    assert_eq!(data.len(), 1 + 16 * 257);
}

#[test]
fn unpack_reads_header_and_balls() {
    let mut data = vec![6u8];
    data.extend_from_slice(&1.5f32.to_be_bytes());
    data.extend_from_slice(&2.5f32.to_be_bytes());
    data.extend_from_slice(&[0u8; 8]);
    data.push(2);
    for v in [1.0f32, 2.0, 3.0, 4.0, 5.0, 6.0] {
        data.extend_from_slice(&v.to_be_bytes());
    }
    let f = unpack_game_data(&data);
    assert_eq!(f.id, 6);
    assert_eq!(f32::from_bits(f.racket_x), 1.5);
    assert_eq!(f32::from_bits(f.racket_y), 2.5);
    assert_eq!(
        f.balls,
        vec![
            BallWords { x: 1.0f32.to_bits(), y: 2.0f32.to_bits(), radius: 3.0f32.to_bits() },
            BallWords { x: 4.0f32.to_bits(), y: 5.0f32.to_bits(), radius: 6.0f32.to_bits() },
        ]
    );
}

#[test]
fn unpack_ignores_trailing_bytes() {
    let mut data = vec![0u8; 18];
    data[0] = 1;
    data.extend_from_slice(&[0xAA; 40]);
    let f = unpack_game_data(&data);
    assert_eq!(f.id, 1);
    assert!(f.balls.is_empty());
}

#[test]
fn phone_reads_back_the_server_frame_head() {
    let rackets = [racket(2, 0.0, 0.0), racket(5, 12.0, 34.0)];
    let balls = [ball(7.0, 8.0, 9.0), ball(10.0, 11.0, 12.0)];
    let data = send_game_data(5, &rackets, &balls);
    let f = unpack_game_data(&data);
    assert_eq!(f.id, 5);
    assert_eq!(f32::from_bits(f.racket_x), 12.0);
    assert_eq!(f32::from_bits(f.racket_y), 34.0);
    assert_eq!(f.balls.len(), 2);
    assert_eq!(f32::from_bits(f.balls[0].x), 7.0);
    assert_eq!(f32::from_bits(f.balls[0].y), 8.0);
    assert_eq!(f.balls[0].radius, (9.0f64.to_bits() >> 32) as u32);
    // the second ball is read twelve bytes on, where the server wrote the
    // lower half of the first radius
    assert_eq!(f.balls[1].x, 9.0f64.to_bits() as u32);
}

#[test]
fn latest_frame_of_a_burst() {
    assert_eq!(latest_frame(&[0]), None);
    assert_eq!(latest_frame(&[0, 4, 4, 0]), None);
    assert_eq!(latest_frame(&[4]), Some(0));
    assert_eq!(latest_frame(&[4, 0]), Some(0));
    assert_eq!(latest_frame(&[4, 4, 4, 0]), Some(2));
    assert_eq!(latest_frame(&[4, 4, 0, 4]), Some(1));
    assert_eq!(latest_frame(&[4, 4, 4]), Some(2));
}

#[test]
fn recv_updates_the_players_rackets() {
    let reads = vec![
        1.0f32.to_be_bytes().to_vec(),
        2.0f32.to_be_bytes().to_vec(),
        vec![0, 0, 0, 0],
    ];
    let r = recv_game_data(3, &[3, 1, 3], &[4, 4, 0], &reads);
    let w = 2.0f32.to_bits();
    assert_eq!(r, vec![Some(w), None, Some(w)]);
}

#[test]
fn recv_without_first_read_changes_nothing() {
    let reads = vec![vec![0u8; 4], 2.0f32.to_be_bytes().to_vec(), vec![0u8; 4]];
    let r = recv_game_data(3, &[3, 3], &[0, 4, 0], &reads);
    assert_eq!(r, vec![None, None]);
}

#[test]
fn racket_message_bytes() {
    assert_eq!(racket_message(300), vec![0, 0, 1, 44]);
    assert_eq!(racket_message(-1), vec![0xff, 0xff, 0xff, 0xff]);
}

#[test]
fn only_the_newest_read_counts() {
    let newest = 3.5f32.to_be_bytes().to_vec();
    let reads_a = vec![1.0f32.to_be_bytes().to_vec(), 2.0f32.to_be_bytes().to_vec(), newest.clone(), vec![0u8; 4]];
    let reads_b = vec![newest, vec![9u8; 4]];
    let a = recv_game_data(2, &[2, 0, 2], &[4, 4, 4, 0], &reads_a);
    let b = recv_game_data(2, &[2, 0, 2], &[4, 0], &reads_b);
    assert_eq!(a, b);
    assert_eq!(a[0], Some(3.5f32.to_bits()));
}
