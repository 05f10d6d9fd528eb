//! The frames of the ping game on the wire: what the server sends each phone
//! on every tick, how a phone reads it back, and how a burst of reads is
//! reduced to the one that counts.
//!
//! Positions and sizes travel as the bit patterns of floating-point numbers;
//! here they are carried as the words that hold those bits.
use vstd::prelude::*;
use crate::bytes::be32;
use crate::bytes::be64;
use crate::bytes::word_at;
use crate::bytes::push_be32;
use crate::bytes::push_be64;
use crate::bytes::read_be32;
use crate::bytes::lemma_word_of_be32;

verus! {

/// A racket as one phone sees it: its id and, as `f32` bit patterns, its
/// position and size in the phone's coordinates.
#[derive(Clone, Copy, PartialEq, Eq, Structural, Debug)]
pub struct RacketFrame {
    pub id: usize,
    pub x: u32,
    pub y: u32,
    pub size_x: u32,
    pub size_y: u32,
}

/// A ball as one phone sees it: its position as `f32` bit patterns and its
/// radius as an `f64` bit pattern.
#[derive(Clone, Copy, PartialEq, Eq, Structural, Debug)]
pub struct BallFrame {
    pub x: u32,
    pub y: u32,
    pub radius: u64,
}

/// The bytes of a racket: its id as one byte (the low byte), then its
/// position and size, each big-endian.
pub open spec fn rect_bytes(r: RacketFrame) -> Seq<u8> {
    seq![r.id as u8] + be32(r.x) + be32(r.y) + be32(r.size_x) + be32(r.size_y)
}

/// The bytes of a ball: its position, then its radius, each big-endian.
pub open spec fn circle_bytes(b: BallFrame) -> Seq<u8> {
    be32(b.x) + be32(b.y) + be64(b.radius)
}

/// The bytes of the rackets of `rs` whose id is `rank`, in order.
pub open spec fn own_rackets_bytes(rank: u8, rs: Seq<RacketFrame>) -> Seq<u8>
    decreases rs.len(),
{
    if rs.len() == 0 {
        Seq::empty()
    } else {
        own_rackets_bytes(rank, rs.drop_last()) + if rs.last().id == rank as usize {
            rect_bytes(rs.last())
        } else {
            Seq::empty()
        }
    }
}

/// The bytes of all the balls of `bs`, in order.
pub open spec fn balls_bytes(bs: Seq<BallFrame>) -> Seq<u8>
    decreases bs.len(),
{
    if bs.len() == 0 {
        Seq::empty()
    } else {
        balls_bytes(bs.drop_last()) + circle_bytes(bs.last())
    }
}

/// The frame sent to the player of rank `rank`: that player's rackets, the
/// number of balls (its low byte), then every ball.
pub open spec fn game_frame(rank: u8, rs: Seq<RacketFrame>, bs: Seq<BallFrame>) -> Seq<u8> {
    own_rackets_bytes(rank, rs) + seq![bs.len() as u8] + balls_bytes(bs)
}

impl RacketFrame {
    /// The bytes of this racket.
    pub fn rect(&self) -> (data: Vec<u8>)
        ensures
            data@ == rect_bytes(*self),
    {
        let mut data: Vec<u8> = Vec::new();
        data.push(self.id as u8);
        push_be32(&mut data, self.x);
        push_be32(&mut data, self.y);
        push_be32(&mut data, self.size_x);
        push_be32(&mut data, self.size_y);
        assert(data@ =~= rect_bytes(*self));
        data
    }
}

impl BallFrame {
    /// The bytes of this ball.
    pub fn circle(&self) -> (data: Vec<u8>)
        ensures
            data@ == circle_bytes(*self),
    {
        let mut data: Vec<u8> = Vec::new();
        push_be32(&mut data, self.x);
        push_be32(&mut data, self.y);
        push_be64(&mut data, self.radius);
        assert(data@ =~= circle_bytes(*self));
        data
    }
}

/// Appends all of `src` to `out`.
fn append_all(out: &mut Vec<u8>, src: &Vec<u8>)
    ensures
        final(out)@ == old(out)@ + src@,
{
    let ghost start = out@;
    let mut i: usize = 0;
    while i < src.len()
        invariant
            i <= src.len(),
            out@ == start + src@.subrange(0, i as int),
        decreases src.len() - i,
    {
        out.push(src[i]);
        i = i + 1;
        assert(out@ =~= start + src@.subrange(0, i as int));
    }
    assert(src@.subrange(0, src.len() as int) =~= src@);
}

/// The frame of a tick for the player of rank `rank`, given every racket and
/// every active ball as that player sees them.
pub fn send_game_data(rank: u8, rackets: &[RacketFrame], balls: &[BallFrame]) -> (data: Vec<u8>)
    ensures
        data@ == game_frame(rank, rackets@, balls@),
        ({
            let own = own_rackets(rank, rackets@);
            let h = 17 * (own.len() as int);
            &&& data@.len() == h + 1 + 16 * balls@.len()
            &&& forall|k: int|
                0 <= k < own.len() ==> #[trigger] data@.subrange(17 * k, 17 * k + 17)
                    == rect_bytes(own[k])
            &&& data@[h] == balls@.len() as u8
            &&& forall|j: int|
                0 <= j < balls@.len() ==> #[trigger] data@.subrange(h + 1 + 16 * j, h + 17 + 16 * j)
                    == circle_bytes(balls@[j])
        }),
{
    let mut data: Vec<u8> = Vec::new();
    let mut i: usize = 0;
    while i < rackets.len()
        invariant
            i <= rackets.len(),
            data@ == own_rackets_bytes(rank, rackets@.subrange(0, i as int)),
        decreases rackets.len() - i,
    {
        let r = rackets[i];
        if r.id == rank as usize {
            let bytes = r.rect();
            append_all(&mut data, &bytes);
        }
        proof {
            let pre = rackets@.subrange(0, i + 1);
            assert(pre.drop_last() =~= rackets@.subrange(0, i as int));
            assert(pre.last() == r);
        }
        i = i + 1;
    }
    assert(rackets@.subrange(0, rackets.len() as int) =~= rackets@);
    data.push(balls.len() as u8);
    let ghost head = data@;
    let mut j: usize = 0;
    while j < balls.len()
        invariant
            j <= balls.len(),
            data@ == head + balls_bytes(balls@.subrange(0, j as int)),
        decreases balls.len() - j,
    {
        let bytes = balls[j].circle();
        append_all(&mut data, &bytes);
        proof {
            let pre = balls@.subrange(0, j + 1);
            assert(pre.drop_last() =~= balls@.subrange(0, j as int));
            assert(data@ =~= head + balls_bytes(pre));
        }
        j = j + 1;
    }
    assert(balls@.subrange(0, balls.len() as int) =~= balls@);
    assert(data@ =~= game_frame(rank, rackets@, balls@));
    proof {
        lemma_frame_slots(rank, rackets@, balls@);
    }
    data
}

/// The rackets of `rs` whose id is `rank`, in order.
pub open spec fn own_rackets(rank: u8, rs: Seq<RacketFrame>) -> Seq<RacketFrame> {
    rs.filter(|r: RacketFrame| r.id == rank as usize)
}

/// A racket is seventeen bytes: the low byte of its id, then its position
/// and its size, each as a big-endian word.
pub proof fn lemma_rect_layout(r: RacketFrame)
    ensures
        rect_bytes(r).len() == 17,
        rect_bytes(r)[0] == r.id as u8,
        word_at(rect_bytes(r), 1) == r.x,
        word_at(rect_bytes(r), 5) == r.y,
        word_at(rect_bytes(r), 9) == r.size_x,
        word_at(rect_bytes(r), 13) == r.size_y,
{
    let c = rect_bytes(r);
    lemma_word_of_be32(r.x);
    lemma_word_of_be32(r.y);
    lemma_word_of_be32(r.size_x);
    lemma_word_of_be32(r.size_y);
    assert forall|j: int| 0 <= j < 4 implies c[1 + j] == be32(r.x)[j] && c[5 + j] == be32(r.y)[j]
        && c[9 + j] == be32(r.size_x)[j] && c[13 + j] == be32(r.size_y)[j] by {}
    assert(word_at(c, 1) == word_at(be32(r.x), 0));
    assert(word_at(c, 5) == word_at(be32(r.y), 0));
    assert(word_at(c, 9) == word_at(be32(r.size_x), 0));
    assert(word_at(c, 13) == word_at(be32(r.size_y), 0));
}

/// A ball is sixteen bytes: its position as two big-endian words, then its
/// radius as a big-endian double word (upper half first).
pub proof fn lemma_circle_layout(b: BallFrame)
    ensures
        circle_bytes(b).len() == 16,
        word_at(circle_bytes(b), 0) == b.x,
        word_at(circle_bytes(b), 4) == b.y,
        word_at(circle_bytes(b), 8) == (b.radius >> 32u64) as u32,
        word_at(circle_bytes(b), 12) == b.radius as u32,
{
    let c = circle_bytes(b);
    let hi = (b.radius >> 32u64) as u32;
    let lo = b.radius as u32;
    lemma_word_of_be32(b.x);
    lemma_word_of_be32(b.y);
    lemma_word_of_be32(hi);
    lemma_word_of_be32(lo);
    assert forall|j: int| 0 <= j < 4 implies c[j] == be32(b.x)[j] && c[4 + j] == be32(b.y)[j]
        && c[8 + j] == be32(hi)[j] && c[12 + j] == be32(lo)[j] by {}
    assert(word_at(c, 0) == word_at(be32(b.x), 0));
    assert(word_at(c, 4) == word_at(be32(b.y), 0));
    assert(word_at(c, 8) == word_at(be32(hi), 0));
    assert(word_at(c, 12) == word_at(be32(lo), 0));
}

/// The bytes of a player's rackets hold, seventeen bytes each and in order,
/// exactly the rackets of `rs` whose id is `rank`.
pub proof fn lemma_own_rackets_slots(rank: u8, rs: Seq<RacketFrame>)
    ensures
        own_rackets_bytes(rank, rs).len() == 17 * own_rackets(rank, rs).len(),
        forall|k: int|
            0 <= k < own_rackets(rank, rs).len() ==> #[trigger] own_rackets_bytes(rank, rs).subrange(
                17 * k,
                17 * k + 17,
            ) == rect_bytes(own_rackets(rank, rs)[k]),
    decreases rs.len(),
{
    if rs.len() > 0 {
        let pre = rs.drop_last();
        lemma_own_rackets_slots(rank, pre);
        let own_pre = own_rackets(rank, pre);
        let bytes_pre = own_rackets_bytes(rank, pre);
        let own = own_rackets(rank, rs);
        let bytes = own_rackets_bytes(rank, rs);
        let pred = |r: RacketFrame| r.id == rank as usize;
        reveal(Seq::filter);
        assert(own == rs.filter(pred));
        assert(own_pre == pre.filter(pred));
        assert(rs.filter(pred) == (if pred(rs.last()) {
            pre.filter(pred).push(rs.last())
        } else {
            pre.filter(pred)
        }));
        lemma_rect_layout(rs.last());
        assert forall|k: int| 0 <= k < own.len() implies #[trigger] bytes.subrange(17 * k, 17 * k
            + 17) == rect_bytes(own[k]) by {
            if k < own_pre.len() {
                assert(bytes.subrange(17 * k, 17 * k + 17) =~= bytes_pre.subrange(
                    17 * k,
                    17 * k + 17,
                ));
            } else {
                assert(bytes.subrange(17 * k, 17 * k + 17) =~= rect_bytes(rs.last()));
            }
        }
    }
}

/// The bytes of the balls hold, sixteen bytes each and in order, every ball
/// of `bs`.
pub proof fn lemma_balls_slots(bs: Seq<BallFrame>)
    ensures
        balls_bytes(bs).len() == 16 * bs.len(),
        forall|j: int|
            0 <= j < bs.len() ==> #[trigger] balls_bytes(bs).subrange(16 * j, 16 * j + 16)
                == circle_bytes(bs[j]),
    decreases bs.len(),
{
    if bs.len() > 0 {
        let pre = bs.drop_last();
        lemma_balls_slots(pre);
        lemma_circle_layout(bs.last());
        let bytes = balls_bytes(bs);
        assert forall|j: int| 0 <= j < bs.len() implies #[trigger] bytes.subrange(16 * j, 16 * j
            + 16) == circle_bytes(bs[j]) by {
            if j < pre.len() {
                assert(bytes.subrange(16 * j, 16 * j + 16) =~= balls_bytes(pre).subrange(
                    16 * j,
                    16 * j + 16,
                ));
            } else {
                assert(bytes.subrange(16 * j, 16 * j + 16) =~= circle_bytes(bs.last()));
            }
        }
    }
}

/// The frame for the player of rank `rank` holds that player's rackets, in
/// order and seventeen bytes each, then the count of balls (its low byte),
/// then every ball in order, sixteen bytes each: ball `j` in slot `j`.
pub proof fn lemma_frame_slots(rank: u8, rs: Seq<RacketFrame>, bs: Seq<BallFrame>)
    ensures
        ({
            let s = game_frame(rank, rs, bs);
            let own = own_rackets(rank, rs);
            let h = 17 * (own.len() as int);
            &&& s.len() == h + 1 + 16 * bs.len()
            &&& forall|k: int|
                0 <= k < own.len() ==> #[trigger] s.subrange(17 * k, 17 * k + 17) == rect_bytes(
                    own[k],
                )
            &&& s[h] == bs.len() as u8
            &&& forall|j: int|
                0 <= j < bs.len() ==> #[trigger] s.subrange(h + 1 + 16 * j, h + 17 + 16 * j)
                    == circle_bytes(bs[j])
        }),
{
    let s = game_frame(rank, rs, bs);
    let own = own_rackets(rank, rs);
    let h = 17 * (own.len() as int);
    let r = own_rackets_bytes(rank, rs);
    let b = balls_bytes(bs);
    lemma_own_rackets_slots(rank, rs);
    lemma_balls_slots(bs);
    assert(s == r + seq![bs.len() as u8] + b);
    assert forall|k: int| 0 <= k < own.len() implies #[trigger] s.subrange(17 * k, 17 * k + 17)
        == rect_bytes(own[k]) by {
        assert(s.subrange(17 * k, 17 * k + 17) =~= r.subrange(17 * k, 17 * k + 17));
    }
    assert forall|j: int| 0 <= j < bs.len() implies #[trigger] s.subrange(
        h + 1 + 16 * j,
        h + 17 + 16 * j,
    ) == circle_bytes(bs[j]) by {
        assert(s.subrange(h + 1 + 16 * j, h + 17 + 16 * j) =~= b.subrange(16 * j, 16 * j + 16));
    }
}

/// A ball as a phone reads it from a frame: three words, each the bit
/// pattern of an `f32` (position, then radius).
#[derive(Clone, Copy, PartialEq, Eq, Structural, Debug)]
pub struct BallWords {
    pub x: u32,
    pub y: u32,
    pub radius: u32,
}

/// What a phone reads from a frame: the id byte, the position of its racket
/// (as `f32` bit patterns) and the balls.
pub struct PhoneFrame {
    pub id: u8,
    pub racket_x: u32,
    pub racket_y: u32,
    pub balls: Vec<BallWords>,
}

/// Where the ball count sits in a frame read by a phone: after the id byte
/// and the sixteen bytes of the racket.
pub open spec fn count_at() -> int {
    17
}

/// Whether a phone can read the frame `s`: it holds the count byte and, after
/// it, twelve bytes for each ball counted.
pub open spec fn readable(s: Seq<u8>) -> bool {
    &&& s.len() >= 18
    &&& s.len() >= 18 + 12 * s[17]
}

/// The `i`-th ball that a phone reads from `s`.
pub open spec fn ball_words_at(s: Seq<u8>, i: int) -> BallWords {
    BallWords {
        x: word_at(s, 18 + 12 * i),
        y: word_at(s, 18 + 12 * i + 4),
        radius: word_at(s, 18 + 12 * i + 8),
    }
}

/// A phone reads every ball twelve bytes after the one before, the first one
/// right after the count byte: ball `i` is the three words at `18 + 12 * i`,
/// `22 + 12 * i` and `26 + 12 * i`.
pub proof fn lemma_ball_stride(s: Seq<u8>, i: int)
    ensures
        ball_words_at(s, i).x == word_at(s, count_at() + 1 + 12 * i),
        ball_words_at(s, i).y == word_at(s, count_at() + 5 + 12 * i),
        ball_words_at(s, i).radius == word_at(s, count_at() + 9 + 12 * i),
        ball_words_at(s, i + 1).x == word_at(s, 30 + 12 * i),
{
}

/// Reads a frame received by a phone: the id byte, the racket's position in
/// the next eight bytes, the ball count after the racket's sixteen bytes, and
/// twelve bytes per ball after that.
pub fn unpack_game_data(data: &[u8]) -> (f: PhoneFrame)
    requires
        readable(data@),
    ensures
        f.id == data@[0],
        f.racket_x == word_at(data@, 1),
        f.racket_y == word_at(data@, 5),
        f.balls@.len() == data@[17],
        forall|i: int| 0 <= i < f.balls@.len() ==> #[trigger] f.balls@[i] == ball_words_at(data@, i),
        forall|i: int|
            0 <= i < f.balls@.len() ==> {
                &&& #[trigger] f.balls@[i].x == word_at(data@, 18 + 12 * i)
                &&& f.balls@[i].y == word_at(data@, 22 + 12 * i)
                &&& f.balls@[i].radius == word_at(data@, 26 + 12 * i)
            },
{
    let v = slice_to_vec(data);
    let id = v[0];
    let racket_x = read_be32(&v, 1);
    let racket_y = read_be32(&v, 5);
    let n = v[17] as usize;
    let mut balls: Vec<BallWords> = Vec::new();
    let mut i: usize = 0;
    while i < n
        invariant
            v@ == data@,
            readable(data@),
            n == data@[17],
            i <= n,
            balls@.len() == i,
            forall|k: int| 0 <= k < i ==> #[trigger] balls@[k] == ball_words_at(data@, k),
        decreases n - i,
    {
        let at = 18 + 12 * i;
        let x = read_be32(&v, at);
        let y = read_be32(&v, at + 4);
        let radius = read_be32(&v, at + 8);
        balls.push(BallWords { x, y, radius });
        i = i + 1;
    }
    PhoneFrame { id, racket_x, racket_y, balls }
}

/// A copy of `data` as a vector.
fn slice_to_vec(data: &[u8]) -> (v: Vec<u8>)
    ensures
        v@ == data@,
{
    let mut v: Vec<u8> = Vec::new();
    let mut i: usize = 0;
    while i < data.len()
        invariant
            i <= data.len(),
            v@ == data@.subrange(0, i as int),
        decreases data.len() - i,
    {
        v.push(data[i]);
        i = i + 1;
        assert(v@ =~= data@.subrange(0, i as int));
    }
    assert(v@ =~= data@);
    v
}

/// Of a burst of reads, starting from `from`, the last one before the first
/// read that brought nothing (or the last read of all).
pub open spec fn last_filled(counts: Seq<usize>, from: int) -> int
    decreases counts.len() - from,
{
    if 0 <= from && from + 1 < counts.len() && counts[from + 1] > 0 {
        last_filled(counts, from + 1)
    } else {
        from
    }
}

/// The read `k` is the one whose content is kept from the burst `counts`:
/// every read after the first, up to it, brought something, and the next one
/// brought nothing (or there is none).
pub open spec fn is_kept_read(counts: Seq<usize>, k: int) -> bool {
    &&& 0 <= k < counts.len()
    &&& forall|j: int| 1 <= j <= k ==> counts[j] > 0
    &&& (k + 1 == counts.len() || counts[k + 1] == 0)
}

/// The read that a burst keeps is the one that `is_kept_read` describes.
pub proof fn lemma_last_filled_kept(counts: Seq<usize>, from: int)
    requires
        0 <= from < counts.len(),
        forall|j: int| 1 <= j <= from ==> counts[j] > 0,
    ensures
        is_kept_read(counts, last_filled(counts, from)),
        from <= last_filled(counts, from),
    decreases counts.len() - from,
{
    if from + 1 < counts.len() && counts[from + 1] > 0 {
        lemma_last_filled_kept(counts, from + 1);
    }
}

/// Of a burst of reads from the server (`counts[i]` is how much the `i`-th
/// read brought; the burst ends at the first later read that brings nothing),
/// the read whose content holds the frame to use: none when the first read
/// brought nothing, else the last read of the burst that brought something.
pub fn latest_frame(counts: &[usize]) -> (r: Option<usize>)
    requires
        counts.len() >= 1,
    ensures
        r is None <==> counts@[0] == 0,
        r matches Some(k) ==> k == last_filled(counts@, 0) && is_kept_read(counts@, k as int),
{
    let mut k: usize = 0;
    while k + 1 < counts.len() && counts[k + 1] > 0
        invariant
            k < counts.len(),
            last_filled(counts@, k as int) == last_filled(counts@, 0),
            forall|j: int| 1 <= j <= k ==> counts@[j] > 0,
        decreases counts.len() - k,
    {
        k = k + 1;
    }
    proof {
        lemma_last_filled_kept(counts@, 0);
    }
    if counts[0] == 0 {
        None
    } else {
        Some(k)
    }
}

/// In a burst whose reads all brought something up to a last read that
/// brought nothing, the kept read is the last one that brought something.
proof fn lemma_last_filled_of_full_burst(counts: Seq<usize>, from: int)
    requires
        0 <= from < counts.len() - 1,
        forall|j: int| from < j < counts.len() - 1 ==> counts[j] > 0,
        counts[counts.len() - 1] == 0,
    ensures
        last_filled(counts, from) == counts.len() - 2,
    decreases counts.len() - from,
{
    if from + 1 < counts.len() - 1 {
        lemma_last_filled_of_full_burst(counts, from + 1);
    }
}

/// The new position, if any, for a racket with id `id` of the player of rank
/// `rank`, after the burst of reads `counts` whose contents are `reads`.
pub open spec fn racket_update(
    rank: u8,
    id: usize,
    counts: Seq<usize>,
    reads: Seq<Seq<u8>>,
) -> Option<u32> {
    if counts[0] > 0 && id == rank as usize {
        Some(word_at(reads[last_filled(counts, 0)], 0))
    } else {
        None
    }
}

/// What a burst of reads from the player of rank `rank` does to the rackets
/// whose ids are `racket_ids`: when the first read brought something, every
/// racket of that player takes as its position the word at the head of the
/// kept read (an `f32` bit pattern); nothing changes otherwise. Entry `i` of
/// the result is the new position of racket `i`, if it has one.
pub fn recv_game_data(rank: u8, racket_ids: &[usize], counts: &[usize], reads: &[Vec<u8>]) -> (r:
    Vec<Option<u32>>)
    requires
        counts.len() >= 1,
        reads.len() == counts.len(),
        forall|i: int| 0 <= i < reads.len() ==> #[trigger] reads@[i].len() >= 4,
    ensures
        r@.len() == racket_ids.len(),
        forall|i: int|
            0 <= i < r@.len() ==> #[trigger] r@[i] == racket_update(
                rank,
                racket_ids@[i],
                counts@,
                reads@.map_values(|v: Vec<u8>| v@),
            ),
        forall|i: int|
            0 <= i < r@.len() ==> (#[trigger] r@[i] is Some <==> (racket_ids@[i] == rank as usize
                && counts@[0] > 0)),
        forall|i: int|
            0 <= i < r@.len() && #[trigger] r@[i] is Some ==> {
                &&& is_kept_read(counts@, last_filled(counts@, 0))
                &&& r@[i] == Some(word_at(reads@[last_filled(counts@, 0)]@, 0))
            },
{
    let kept = latest_frame(counts);
    let ghost views = reads@.map_values(|v: Vec<u8>| v@);
    let update: Option<u32> = match kept {
        Some(k) => {
            assert(views[k as int] == reads@[k as int]@);
            Some(read_be32(&reads[k], 0))
        },
        None => None,
    };
    let mut r: Vec<Option<u32>> = Vec::new();
    let mut i: usize = 0;
    while i < racket_ids.len()
        invariant
            i <= racket_ids.len(),
            r@.len() == i,
            views == reads@.map_values(|v: Vec<u8>| v@),
            counts.len() >= 1,
            update == (if counts@[0] > 0 {
                Some(word_at(views[last_filled(counts@, 0)], 0))
            } else {
                None::<u32>
            }),
            forall|j: int|
                0 <= j < i ==> #[trigger] r@[j] == racket_update(rank, racket_ids@[j], counts@, views),
        decreases racket_ids.len() - i,
    {
        if racket_ids[i] == rank as usize {
            r.push(update);
        } else {
            r.push(None);
        }
        i = i + 1;
    }
    proof {
        lemma_last_filled_kept(counts@, 0);
        assert forall|i: int| 0 <= i < r@.len() && #[trigger] r@[i] is Some implies r@[i] == Some(
            word_at(reads@[last_filled(counts@, 0)]@, 0),
        ) by {
            assert(views[last_filled(counts@, 0)] == reads@[last_filled(counts@, 0)]@);
        }
    }
    r
}

/// A burst of reports from a player moves only that player's rackets, and
/// only when its first read brought something; every racket it moves takes
/// the word at the head of the read the burst keeps.
pub proof fn lemma_reports_move_own_rackets_only(
    rank: u8,
    id: usize,
    counts: Seq<usize>,
    reads: Seq<Seq<u8>>,
)
    requires
        counts.len() >= 1,
    ensures
        racket_update(rank, id, counts, reads) is Some <==> (id == rank as usize && counts[0] > 0),
        id != rank as usize ==> racket_update(rank, id, counts, reads) is None,
        racket_update(rank, id, counts, reads) matches Some(w) ==> exists|k: int|
            #[trigger] is_kept_read(counts, k) && w == word_at(reads[k], 0),
{
    lemma_last_filled_kept(counts, 0);
    if racket_update(rank, id, counts, reads) is Some {
        assert(is_kept_read(counts, last_filled(counts, 0)));
    }
}

/// A player with no racket among `rs` gets no racket bytes.
proof fn lemma_no_own_racket(rank: u8, rs: Seq<RacketFrame>)
    requires
        forall|j: int| 0 <= j < rs.len() ==> rs[j].id != rank as usize,
    ensures
        own_rackets_bytes(rank, rs) == Seq::<u8>::empty(),
    decreases rs.len(),
{
    if rs.len() > 0 {
        lemma_no_own_racket(rank, rs.drop_last());
        assert(own_rackets_bytes(rank, rs) =~= Seq::<u8>::empty());
    }
}

/// A player with exactly one racket among `rs` gets exactly that racket's
/// bytes.
proof fn lemma_one_own_racket(rank: u8, rs: Seq<RacketFrame>, at: int)
    requires
        0 <= at < rs.len(),
        rs[at].id == rank as usize,
        forall|j: int| 0 <= j < rs.len() && j != at ==> rs[j].id != rank as usize,
    ensures
        own_rackets_bytes(rank, rs) == rect_bytes(rs[at]),
    decreases rs.len(),
{
    let pre = rs.drop_last();
    if at == rs.len() - 1 {
        lemma_no_own_racket(rank, pre);
        assert(own_rackets_bytes(rank, rs) =~= rect_bytes(rs[at]));
    } else {
        lemma_one_own_racket(rank, pre, at);
        assert(own_rackets_bytes(rank, rs) =~= rect_bytes(rs[at]));
    }
}

/// The balls take sixteen bytes each, the first ball first.
proof fn lemma_balls_bytes_layout(bs: Seq<BallFrame>)
    ensures
        balls_bytes(bs).len() == 16 * bs.len(),
        bs.len() > 0 ==> balls_bytes(bs).subrange(0, 16) == circle_bytes(bs[0]),
    decreases bs.len(),
{
    if bs.len() > 0 {
        let pre = bs.drop_last();
        lemma_balls_bytes_layout(pre);
        if bs.len() == 1 {
            assert(balls_bytes(bs).subrange(0, 16) =~= circle_bytes(bs[0]));
        } else {
            assert(balls_bytes(bs).subrange(0, 16) =~= balls_bytes(pre).subrange(0, 16));
        }
    }
}

/// What a phone reads of the frame the server made for it, when the player
/// has exactly one racket and fewer than 256 balls are active: the racket's
/// id and position, the number of balls, and the first ball's position (its
/// radius word is the upper half of the radius the server sent). The balls
/// after the first are not read back where they were written: the server
/// writes sixteen bytes per ball and the phone reads twelve.
pub proof fn lemma_phone_reads_server_frame(
    rank: u8,
    rs: Seq<RacketFrame>,
    bs: Seq<BallFrame>,
    at: int,
)
    requires
        0 <= at < rs.len(),
        rs[at].id == rank as usize,
        forall|j: int| 0 <= j < rs.len() && j != at ==> rs[j].id != rank as usize,
        bs.len() < 256,
    ensures
        ({
            let s = game_frame(rank, rs, bs);
            &&& readable(s)
            &&& s[0] == rank
            &&& word_at(s, 1) == rs[at].x
            &&& word_at(s, 5) == rs[at].y
            &&& s[count_at()] == bs.len()
            &&& bs.len() > 0 ==> ball_words_at(s, 0) == (BallWords {
                x: bs[0].x,
                y: bs[0].y,
                radius: (bs[0].radius >> 32u64) as u32,
            })
        }),
{
    let s = game_frame(rank, rs, bs);
    let r = rs[at];
    lemma_one_own_racket(rank, rs, at);
    lemma_balls_bytes_layout(bs);
    lemma_word_of_be32(r.x);
    lemma_word_of_be32(r.y);
    let head = rect_bytes(r);
    assert(head.len() == 17);
    assert(s == head + seq![bs.len() as u8] + balls_bytes(bs));
    assert(s[0] == r.id as u8);
    assert forall|j: int| 0 <= j < 4 implies s[1 + j] == be32(r.x)[j] && s[5 + j] == be32(r.y)[j]
        by {
        assert(s[1 + j] == head[1 + j]);
        assert(s[5 + j] == head[5 + j]);
    }
    assert(word_at(s, 1) == word_at(be32(r.x), 0));
    assert(word_at(s, 5) == word_at(be32(r.y), 0));
    assert(s[17] == bs.len() as u8);
    if bs.len() > 0 {
        let b = bs[0];
        let c = circle_bytes(b);
        lemma_word_of_be32(b.x);
        lemma_word_of_be32(b.y);
        lemma_word_of_be32((b.radius >> 32u64) as u32);
        assert forall|j: int| 0 <= j < 16 implies s[18 + j] == c[j] by {
            assert(s[18 + j] == balls_bytes(bs)[j]);
            assert(balls_bytes(bs)[j] == balls_bytes(bs).subrange(0, 16)[j]);
        }
        assert forall|j: int| 0 <= j < 4 implies s[18 + j] == be32(b.x)[j] && s[22 + j] == be32(
            b.y,
        )[j] && s[26 + j] == be32((b.radius >> 32u64) as u32)[j] by {
            assert(s[18 + j] == c[j]);
            assert(s[22 + j] == c[4 + j]);
            assert(s[26 + j] == c[8 + j]);
        }
        assert(word_at(s, 18) == word_at(be32(b.x), 0));
        assert(word_at(s, 22) == word_at(be32(b.y), 0));
        assert(word_at(s, 26) == word_at(be32((b.radius >> 32u64) as u32), 0));
    }
}

/// Only the newest filled read of a burst counts: a burst of reads that all
/// brought something, then one that brought nothing, moves every racket as
/// the burst made only of the newest of those reads and the empty one does.
pub proof fn lemma_newest_read_counts(
    rank: u8,
    id: usize,
    counts_a: Seq<usize>,
    reads_a: Seq<Seq<u8>>,
    counts_b: Seq<usize>,
    reads_b: Seq<Seq<u8>>,
)
    requires
        counts_a.len() >= 2,
        reads_a.len() == counts_a.len(),
        forall|j: int| 0 <= j < counts_a.len() - 1 ==> counts_a[j] > 0,
        counts_a[counts_a.len() - 1] == 0,
        counts_b.len() == 2,
        reads_b.len() == 2,
        counts_b[0] > 0,
        counts_b[1] == 0,
        reads_b[0] == reads_a[counts_a.len() - 2],
    ensures
        racket_update(rank, id, counts_a, reads_a) == racket_update(rank, id, counts_b, reads_b),
{
    lemma_last_filled_of_full_burst(counts_a, 0);
    lemma_last_filled_of_full_burst(counts_b, 0);
}

/// The message in which a phone reports its racket's position: the four
/// big-endian bytes of `pos`.
pub fn racket_message(pos: i32) -> (data: Vec<u8>)
    ensures
        data@ == be32(pos as u32),
{
    let mut data: Vec<u8> = Vec::new();
    push_be32(&mut data, pos as u32);
    data
}

} // verus!
