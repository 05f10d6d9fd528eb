//! The decisions of the server's ping game loop: the diagonal along which a
//! new ball enters, the lane of each player's racket, the score, and when a
//! new ball comes in.
use rand::RngCore;
use vstd::prelude::*;

verus! {

/// Ticks of the game loop before balls start coming in.
pub const SPAWN_SPEED: u16 = 200;

/// Lanes of the field are this far apart, in field units.
pub const LANE_WIDTH: u32 = 500;

/// The remainder of `d` by 4 as the machine computes it (its sign is that of
/// `d`).
pub open spec fn trunc_rem4(d: i8) -> int {
    if d >= 0 {
        d as int % 4
    } else {
        -((-(d as int)) % 4)
    }
}

/// The signs of the speed along which a new ball enters for the direction
/// byte `d`: its remainder by 4 picks one of the four diagonals; a negative
/// remainder picks none, and the ball gets no speed.
pub open spec fn entry_signs(d: i8) -> Option<(i8, i8)> {
    let r = trunc_rem4(d);
    if r == 0 {
        Some((1i8, 1i8))
    } else if r == 1 {
        Some((1i8, -1i8))
    } else if r == 2 {
        Some((-1i8, 1i8))
    } else if r == 3 {
        Some((-1i8, -1i8))
    } else {
        None
    }
}

/// The diagonal along which a ball enters for the direction byte `dir`, as
/// the signs of its speed along the two axes (`None`: the speed is left as
/// it is).
pub fn enter_direction(dir: i8) -> (r: Option<(i8, i8)>)
    ensures
        r == entry_signs(dir),
        dir % 4 == 0 ==> r == Some((1i8, 1i8)),
        dir >= 0 && dir % 4 == 1 ==> r == Some((1i8, -1i8)),
        dir >= 0 && dir % 4 == 2 ==> r == Some((-1i8, 1i8)),
        dir >= 0 && dir % 4 == 3 ==> r == Some((-1i8, -1i8)),
        dir < 0 && dir % 4 != 0 ==> r is None,
{
    let wide: i16 = dir as i16;
    let rem: i16 = if wide >= 0 {
        wide % 4
    } else {
        -((-wide) % 4)
    };
    if rem == 0 {
        Some((1, 1))
    } else if rem == 1 {
        Some((1, -1))
    } else if rem == 2 {
        Some((-1, 1))
    } else if rem == 3 {
        Some((-1, -1))
    } else {
        None
    }
}

/// A direction byte drawn from the operating system's random source, through
/// `rand::rngs::OsRng::try_fill_bytes` on one byte (which returns an error
/// instead of panicking when the source fails): `Some` byte when the draw
/// succeeded, `None` when it failed. Nothing is claimed of the byte beyond
/// its type: any value can come, and two calls may give different results.
#[verifier::external_body]
fn random_direction() -> (d: Option<i8>) {
    let mut byte = [0u8; 1];
    match rand::rngs::OsRng.try_fill_bytes(&mut byte) {
        Ok(()) => Some(byte[0] as i8),
        Err(_) => None,
    }
}

/// Draws the direction of a new ball at random, as the game loop does: the
/// byte drawn and the diagonal it picks, or `None` when the random source
/// could not give a byte.
pub fn spawn_direction() -> (r: Option<(i8, Option<(i8, i8)>)>)
    ensures
        r matches Some((d, signs)) ==> signs == entry_signs(d),
{
    match random_direction() {
        Some(d) => Some((d, enter_direction(d))),
        None => None,
    }
}

/// Where a player's racket stands on the field: players of even rank hold the
/// near end, those of odd rank the far end (their coordinates are mirrored),
/// and each pair of ranks is one lane further from its end.
#[derive(Clone, Copy, PartialEq, Eq, Structural, Debug)]
pub struct Lane {
    pub mirrored: bool,
    pub offset: u32,
}

/// The lane of the player of rank `rank`.
pub open spec fn lane_of(rank: u8) -> Lane {
    Lane { mirrored: rank % 2 == 1, offset: (LANE_WIDTH * (rank / 2)) as u32 }
}

/// The lane of the player of rank `rank`.
pub fn lane(rank: u8) -> (l: Lane)
    ensures
        l == lane_of(rank),
        l.mirrored == (rank % 2 == 1),
        l.offset == LANE_WIDTH * (rank / 2),
{
    Lane { mirrored: rank % 2 == 1, offset: LANE_WIDTH * (rank / 2) as u32 }
}

/// The diagonal of a non-negative direction byte repeats every four values,
/// and the four diagonals come in the order (+,+), (+,-), (-,+), (-,-).
/// A negative byte picks (+,+) when it is a multiple of 4 and nothing
/// otherwise.
pub proof fn lemma_entry_signs_period(d: i8)
    ensures
        0 <= d <= 123 ==> entry_signs((d + 4) as i8) == entry_signs(d),
        entry_signs(0) == Some((1i8, 1i8)),
        entry_signs(1) == Some((1i8, -1i8)),
        entry_signs(2) == Some((-1i8, 1i8)),
        entry_signs(3) == Some((-1i8, -1i8)),
        d < 0 ==> (entry_signs(d) is Some <==> d as int % 4 == 0),
        d < 0 && d as int % 4 == 0 ==> entry_signs(d) == Some((1i8, 1i8)),
{
}

/// Players 0 and 1 hold the first lane of their ends; every two ranks further
/// the lane moves one `LANE_WIDTH` on, at the same end.
pub proof fn lemma_lane_steps(rank: u8)
    ensures
        lane_of(0) == (Lane { mirrored: false, offset: 0 }),
        lane_of(1) == (Lane { mirrored: true, offset: 0 }),
        rank <= 253 ==> lane_of((rank + 2) as u8).offset == lane_of(rank).offset + LANE_WIDTH,
        rank <= 253 ==> lane_of((rank + 2) as u8).mirrored == lane_of(rank).mirrored,
{
}

/// The two ends of the field: `High` is past the far line, `Low` before the
/// near line.
#[derive(Clone, Copy, PartialEq, Eq, Structural, Debug)]
pub enum Goal {
    High,
    Low,
}

/// The score of a ping game and the number of ticks it has run.
#[derive(Clone, Copy, Debug)]
pub struct PingState {
    /// Balls that went past the far line, and before the near line.
    pub score: (u8, u8),
    pub spawn: u16,
}

impl PingState {
    /// A game that has not started: no point scored, no tick run.
    pub fn new() -> (s: PingState)
        ensures
            s.score == (0u8, 0u8),
            s.spawn == 0,
    {
        PingState { score: (0, 0), spawn: 0 }
    }

    /// Counts one tick and says whether a new ball comes in on it: one does
    /// on every tick past the first `SPAWN_SPEED`.
    pub fn tick(&mut self) -> (spawn_now: bool)
        requires
            old(self).spawn < u16::MAX,
        ensures
            final(self).spawn == old(self).spawn + 1,
            final(self).score == old(self).score,
            spawn_now == (final(self).spawn > SPAWN_SPEED),
    {
        self.spawn = self.spawn + 1;
        self.spawn > SPAWN_SPEED
    }

    /// A ball reached `goal`: it leaves the active balls for the balls off
    /// the field (the last active ball takes its place) and the end it
    /// reached scores a point.
    pub fn retire_ball<T>(&mut self, active: &mut Vec<T>, off: &mut Vec<T>, index: usize, goal: Goal)
        requires
            index < old(active).len(),
            goal is High ==> old(self).score.0 < u8::MAX,
            goal is Low ==> old(self).score.1 < u8::MAX,
        ensures
            final(active)@ == old(active)@.update(index as int, old(active)@.last()).drop_last(),
            final(off)@ == old(off)@.push(old(active)@[index as int]),
            final(active)@.to_multiset().add(final(off)@.to_multiset()) == old(
                active,
            )@.to_multiset().add(old(off)@.to_multiset()),
            final(self).spawn == old(self).spawn,
            final(self).score == (match goal {
                Goal::High => ((old(self).score.0 + 1) as u8, old(self).score.1),
                Goal::Low => (old(self).score.0, (old(self).score.1 + 1) as u8),
            }),
    {
        let ghost s = active@;
        let ghost o = off@;
        let ball = active.swap_remove(index);
        off.push(ball);
        proof {
            lemma_swap_remove_keeps_balls(s, index as int);
            broadcast use vstd::seq_lib::to_multiset_build;
            broadcast use vstd::multiset::group_multiset_axioms;
            assert(off@.to_multiset() == o.to_multiset().insert(s[index as int]));
            assert(active@.to_multiset().add(off@.to_multiset()) =~= s.to_multiset().add(
                o.to_multiset(),
            ));
        }
        match goal {
            Goal::High => {
                self.score.0 = self.score.0 + 1;
            },
            Goal::Low => {
                self.score.1 = self.score.1 + 1;
            },
        }
    }
}

/// Taking out element `i` by moving the last element into its place keeps
/// every other element.
proof fn lemma_swap_remove_keeps_balls<T>(s: Seq<T>, i: int)
    requires
        0 <= i < s.len(),
    ensures
        s.update(i, s.last()).drop_last().to_multiset().insert(s[i]) == s.to_multiset(),
{
    broadcast use vstd::seq_lib::to_multiset_build;
    broadcast use vstd::seq_lib::to_multiset_update;
    broadcast use vstd::multiset::group_multiset_axioms;
    broadcast use vstd::multiset::group_multiset_properties;

    let t = s.update(i, s.last());
    let n = t.drop_last();
    assert(t =~= n.push(t.last()));
    if i == s.len() - 1 {
        assert(t =~= s);
    } else {
        assert(t.last() == s.last());
        assert(t.to_multiset() == s.to_multiset().insert(s.last()).remove(s[i]));
        assert(n.to_multiset().insert(s.last()) == t.to_multiset());
        assert(s.to_multiset().count(s[i]) > 0) by {
            broadcast use vstd::seq_lib::to_multiset_contains;

            assert(s.contains(s[i]));
        }
        let m = s.to_multiset();
        let nm = n.to_multiset();
        assert forall|x: T| #[trigger] nm.insert(s[i]).count(x) == m.count(x) by {
            assert(nm.insert(s.last()).count(x) == m.insert(s.last()).remove(s[i]).count(x));
        }
        assert(nm.insert(s[i]) =~= m);
    }
}

} // verus!
