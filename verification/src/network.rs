//! The client side of a game session: which game is played, where the
//! session stands, and the packets the client sends and how the server's
//! replies move it forward. The socket itself is driven by the caller; every
//! function here only computes.
use vstd::prelude::*;
use crate::bytes::be32;
use crate::bytes::push_be32;

verus! {

/// The games that a room can be locked for.
#[derive(Clone, Copy, PartialEq, Eq, Structural, Debug)]
pub enum Game {
    Racer,
    Snake,
    MazeFight,
    Ping,
    Test,
    Unknown,
}

/// The number that stands for a game on the wire.
pub open spec fn game_code(g: Game) -> u16 {
    match g {
        Game::Racer => 1,
        Game::Snake => 2,
        Game::MazeFight => 3,
        Game::Ping => 4,
        Game::Test => 0x80,
        Game::Unknown => 0xff,
    }
}

/// The game that a number on the wire stands for; any number that stands for
/// no game is `Unknown`.
pub open spec fn game_of_code(v: u16) -> Game {
    if v == 1 {
        Game::Racer
    } else if v == 2 {
        Game::Snake
    } else if v == 3 {
        Game::MazeFight
    } else if v == 4 {
        Game::Ping
    } else if v == 0x80 {
        Game::Test
    } else {
        Game::Unknown
    }
}

/// The name under which a game is shown.
pub open spec fn game_name(g: Game) -> Seq<char> {
    match g {
        Game::Racer => "Racer"@,
        Game::Snake => "Snake"@,
        Game::MazeFight => "Maze-Fight"@,
        Game::Ping => "Ping"@,
        Game::Test => "Test"@,
        Game::Unknown => "Unknown"@,
    }
}

impl From<Game> for u16 {
    fn from(value: Game) -> (r: u16) {
        match value {
            Game::Racer => 1,
            Game::Snake => 2,
            Game::MazeFight => 3,
            Game::Ping => 4,
            Game::Test => 0x80,
            Game::Unknown => 0xff,
        }
    }
}

impl vstd::std_specs::convert::FromSpecImpl<Game> for u16 {
    open spec fn obeys_from_spec() -> bool {
        true
    }

    open spec fn from_spec(v: Game) -> u16 {
        game_code(v)
    }
}

impl From<u16> for Game {
    fn from(value: u16) -> (r: Game) {
        if value == 1 {
            Game::Racer
        } else if value == 2 {
            Game::Snake
        } else if value == 3 {
            Game::MazeFight
        } else if value == 4 {
            Game::Ping
        } else if value == 0x80 {
            Game::Test
        } else {
            Game::Unknown
        }
    }
}

impl vstd::std_specs::convert::FromSpecImpl<u16> for Game {
    open spec fn obeys_from_spec() -> bool {
        true
    }

    open spec fn from_spec(v: u16) -> Game {
        game_of_code(v)
    }
}

impl Game {
    /// The name under which the game is shown ("Maze-Fight" for `MazeFight`).
    pub fn to_string(&self) -> (s: String)
        ensures
            s@ == game_name(*self),
    {
        match self {
            Game::Racer => "Racer".to_owned(),
            Game::Snake => "Snake".to_owned(),
            Game::MazeFight => "Maze-Fight".to_owned(),
            Game::Ping => "Ping".to_owned(),
            Game::Test => "Test".to_owned(),
            Game::Unknown => "Unknown".to_owned(),
        }
    }
}

/// Every game survives the trip to its wire number and back.
pub proof fn lemma_game_code_roundtrip(g: Game)
    ensures
        game_of_code(game_code(g)) == g,
{
}

/// A wire number survives the trip to a game and back exactly when it is the
/// number of some game.
pub proof fn lemma_code_game_roundtrip(v: u16)
    ensures
        game_code(game_of_code(v)) == v <==> (v == 1 || v == 2 || v == 3 || v == 4 || v == 0x80
            || v == 0xff),
{
}


/// Where the session stands.
#[derive(Clone, Copy, PartialEq, Eq, Structural, Debug)]
pub enum Status {
    Connected,
    Disconnected,
    InRoom,
    /// The room is locked; the value is this player's position in it.
    InLockRoom(u8),
    InGame,
}

/// What a packet asks of the server.
#[derive(Clone, Copy, PartialEq, Eq, Structural, Debug)]
pub enum Flag {
    Init,
    Create,
    Join,
    Lock,
    Launch,
    Transmit,
}

/// A packet between the client and the server.
pub struct Packet {
    pub flag: Flag,
    pub session: u16,
    pub room: u16,
    pub data: Vec<u8>,
    pub option: u16,
}

/// The abstract state of a session.
pub struct NetworkView {
    pub session: u16,
    pub room: u16,
    pub status: Status,
}

/// The client's session with the server: the tokens it was given and where
/// it stands.
pub struct Network {
    session_token: u16,
    room_token: u16,
    status: Status,
}

impl View for Network {
    type V = NetworkView;

    closed spec fn view(&self) -> NetworkView {
        NetworkView { session: self.session_token, room: self.room_token, status: self.status }
    }
}

/// A packet with the given fields.
pub open spec fn is_packet(
    p: Packet,
    flag: Flag,
    session: u16,
    room: u16,
    data: Seq<u8>,
    option: u16,
) -> bool {
    &&& p.flag == flag
    &&& p.session == session
    &&& p.room == room
    &&& p.data@ == data
    &&& p.option == option
}

/// The bytes that open a session: the phone's physical height and width (the
/// bit patterns of two `f32`) and its window height and width, each
/// big-endian.
pub open spec fn handshake_data(
    physical_height: u32,
    physical_width: u32,
    window_height: u32,
    window_width: u32,
) -> Seq<u8> {
    be32(physical_height) + be32(physical_width) + be32(window_height) + be32(window_width)
}

/// Where a session moves when the server is polled: a locked room is
/// announced by any packet while in a room (its option gives the player's
/// position), the start of the game by any packet while in a locked room.
/// In any other state nothing is read and nothing moves.
pub open spec fn next_status(s: Status, polled: Option<u16>) -> Status {
    match s {
        Status::InRoom => match polled {
            Some(option) => Status::InLockRoom((option % 256) as u8),
            None => s,
        },
        Status::InLockRoom(_) => match polled {
            Some(_) => Status::InGame,
            None => s,
        },
        _ => s,
    }
}

/// Whether the session reads from the server when its status is asked.
pub open spec fn awaits_server(s: Status) -> bool {
    s is InRoom || s is InLockRoom
}

/// How far a session has gone: in a room, then in a locked room, then in game.
pub open spec fn progress(s: Status) -> int {
    match s {
        Status::InRoom => 1,
        Status::InLockRoom(_) => 2,
        Status::InGame => 3,
        _ => 0,
    }
}

/// A session that entered the room `room`.
pub open spec fn entered_room(n: NetworkView, room: u16) -> NetworkView {
    NetworkView { session: n.session, room, status: Status::InRoom }
}

/// The status reached from `s` after polling the server once per entry of
/// `polls` (`None` where nothing came).
pub open spec fn poll_all(s: Status, polls: Seq<Option<u16>>) -> Status
    decreases polls.len(),
{
    if polls.len() == 0 {
        s
    } else {
        poll_all(next_status(s, polls[0]), polls.drop_first())
    }
}

/// The option of a polled packet, if there is one.
pub open spec fn polled_option(polled: Option<&Packet>) -> Option<u16> {
    match polled {
        Some(p) => Some(p.option),
        None => None,
    }
}

impl Network {
    /// The packet that opens a session. `physical_height` and `physical_width`
    /// are the bit patterns of the phone's size in `f32`.
    pub fn init_handshake(
        physical_height: u32,
        physical_width: u32,
        window_height: u32,
        window_width: u32,
    ) -> (p: Packet)
        ensures
            is_packet(
                p,
                Flag::Init,
                0,
                0,
                handshake_data(physical_height, physical_width, window_height, window_width),
                0,
            ),
    {
        let mut data: Vec<u8> = Vec::new();
        push_be32(&mut data, physical_height);
        push_be32(&mut data, physical_width);
        push_be32(&mut data, window_height);
        push_be32(&mut data, window_width);
        Packet { flag: Flag::Init, session: 0, room: 0, data, option: 0 }
    }

    /// The session that the server's answer to the handshake opens: it holds
    /// the session token of the answer, no room yet, and is connected.
    pub fn connect(reply: &Packet) -> (n: Network)
        ensures
            n@ == (NetworkView { session: reply.session, room: 0, status: Status::Connected }),
    {
        Network { session_token: reply.session, room_token: 0, status: Status::Connected }
    }

    /// The packet that asks for a new room.
    pub fn create_room_request(&self) -> (p: Packet)
        ensures
            is_packet(p, Flag::Create, self@.session, 0, Seq::empty(), 0),
    {
        Packet {
            flag: Flag::Create,
            session: self.session_token,
            room: 0,
            data: Vec::new(),
            option: 0,
        }
    }

    /// Takes the server's answer to `create_room_request`: the session is now
    /// in the room that the answer names, whose token is returned for the
    /// other players to join.
    pub fn create_room(&mut self, reply: &Packet) -> (room: u16)
        ensures
            room == reply.room,
            final(self)@ == entered_room(old(self)@, reply.room),
    {
        self.room_token = reply.room;
        self.status = Status::InRoom;
        reply.room
    }

    /// The packet that asks to join the room `room_token`.
    pub fn join_room_request(&self, room_token: u16) -> (p: Packet)
        ensures
            is_packet(p, Flag::Join, self@.session, room_token, Seq::empty(), 0),
    {
        Packet {
            flag: Flag::Join,
            session: self.session_token,
            room: room_token,
            data: Vec::new(),
            option: 0,
        }
    }

    /// Takes the server's answer to `join_room_request`: the session is now in
    /// the room that the answer names.
    pub fn join_room(&mut self, reply: &Packet)
        ensures
            final(self)@ == entered_room(old(self)@, reply.room),
    {
        self.room_token = reply.room;
        self.status = Status::InRoom;
    }

    /// The packet that locks the session's room for `game_id`, so that no
    /// more player can join it.
    pub fn lock_room(&self, game_id: Game) -> (p: Packet)
        ensures
            is_packet(p, Flag::Lock, self@.session, self@.room, Seq::empty(), game_code(game_id)),
    {
        Packet {
            flag: Flag::Lock,
            session: self.session_token,
            room: self.room_token,
            data: Vec::new(),
            option: game_id.into(),
        }
    }

    /// The packet that launches the game in the session's room.
    pub fn launch_game_request(&self) -> (p: Packet)
        ensures
            is_packet(p, Flag::Launch, self@.session, self@.room, Seq::empty(), 0),
    {
        Packet {
            flag: Flag::Launch,
            session: self.session_token,
            room: self.room_token,
            data: Vec::new(),
            option: 0,
        }
    }

    /// Records that the launch packet went out: the session is in game.
    pub fn launch_game(&mut self)
        ensures
            final(self)@ == (NetworkView {
                session: old(self)@.session,
                room: old(self)@.room,
                status: Status::InGame,
            }),
    {
        self.status = Status::InGame;
    }

    /// The packet that carries `data` to the other players of the game.
    pub fn send(&self, data: &[u8]) -> (p: Packet)
        ensures
            is_packet(p, Flag::Transmit, self@.session, 0, data@, 0),
    {
        let mut copy: Vec<u8> = Vec::new();
        let mut i: usize = 0;
        while i < data.len()
            invariant
                i <= data.len(),
                copy@ == data@.subrange(0, i as int),
            decreases data.len() - i,
        {
            copy.push(data[i]);
            i = i + 1;
            assert(copy@ =~= data@.subrange(0, i as int));
        }
        assert(copy@ =~= data@);
        Packet { flag: Flag::Transmit, session: self.session_token, room: 0, data: copy, option: 0 }
    }

    /// Takes what polling the server gave while in game and returns the
    /// amount of data read: the data of a packet is copied into `buffer` and
    /// its length returned; with no packet the buffer is left as it is and 0
    /// returned.
    pub fn recv(polled: Option<&Packet>, buffer: &mut Vec<u8>) -> (amount: usize)
        requires
            polled matches Some(p) ==> p.data.len() == old(buffer).len(),
        ensures
            amount == (match polled {
                Some(p) => p.data.len(),
                None => 0,
            }),
            match polled {
                Some(p) => final(buffer)@ == p.data@,
                None => final(buffer)@ == old(buffer)@,
            },
    {
        match polled {
            Some(p) => {
                let n = buffer.len();
                let mut i: usize = 0;
                while i < n
                    invariant
                        n == buffer.len(),
                        n == p.data.len(),
                        i <= n,
                        forall|k: int| 0 <= k < i ==> buffer@[k] == p.data@[k],
                    decreases n - i,
                {
                    buffer.set(i, p.data[i]);
                    i = i + 1;
                }
                assert(buffer@ =~= p.data@);
                n
            },
            None => 0,
        }
    }

    /// Whether asking for the status reads from the server: only while in a
    /// room, locked or not.
    pub fn awaits_packet(&self) -> (r: bool)
        ensures
            r == awaits_server(self@.status),
    {
        match self.status {
            Status::InRoom => true,
            Status::InLockRoom(_) => true,
            _ => false,
        }
    }

    /// Moves the session forward with what polling the server gave (`None`
    /// when nothing came or nothing was read) and returns where it now stands.
    /// The tokens do not change.
    pub fn get_status(&mut self, polled: Option<&Packet>) -> (s: Status)
        ensures
            s == next_status(old(self)@.status, polled_option(polled)),
            final(self)@ == (NetworkView {
                session: old(self)@.session,
                room: old(self)@.room,
                status: s,
            }),
    {
        match self.status {
            Status::InRoom => match polled {
                Some(p) => {
                    self.status = Status::InLockRoom((p.option % 256) as u8);
                    self.status
                },
                None => self.status,
            },
            Status::InLockRoom(_) => match polled {
                Some(_) => {
                    self.status = Status::InGame;
                    self.status
                },
                None => self.status,
            },
            _ => self.status,
        }
    }

    /// The session token the server gave.
    pub fn session_token(&self) -> (t: u16)
        ensures
            t == self@.session,
    {
        self.session_token
    }

    /// The token of the session's room (0 before any room).
    pub fn room_token(&self) -> (t: u16)
        ensures
            t == self@.room,
    {
        self.room_token
    }

    /// Where the session stands, without reading from the server.
    pub fn status(&self) -> (s: Status)
        ensures
            s == self@.status,
    {
        self.status
    }
}

/// Polling the server never moves a session backwards: a session that does
/// not wait for the server stays where it is, and one in game stays in game.
pub proof fn lemma_polling_moves_forward(s: Status, polls: Seq<Option<u16>>)
    ensures
        progress(s) <= progress(poll_all(s, polls)) <= 3,
        !awaits_server(s) ==> poll_all(s, polls) == s,
        s is InGame ==> poll_all(s, polls) is InGame,
    decreases polls.len(),
{
    if polls.len() > 0 {
        lemma_polling_moves_forward(next_status(s, polls[0]), polls.drop_first());
    }
}

/// In a room, the first packet from the server locks it and the second one
/// starts the game; nothing else moves the session.
pub proof fn lemma_room_to_game(room_position: u16, start: u16)
    ensures
        next_status(Status::InRoom, Some(room_position)) == Status::InLockRoom(
            (room_position % 256) as u8,
        ),
        poll_all(Status::InRoom, seq![Some(room_position), Some(start)]) == Status::InGame,
{
    reveal_with_fuel(poll_all, 3);
    let polls = seq![Some(room_position), Some(start)];
    assert(polls.drop_first() =~= seq![Some(start)]);
    assert(polls.drop_first().drop_first() =~= Seq::<Option<u16>>::empty());
}

/// Once a session entered a room (by creating or joining it), its lock
/// request names that room under the session's own token, and the server
/// reads back from it the very game that was asked for.
pub proof fn lemma_lock_names_entered_room(n: NetworkView, room: u16, g: Game, p: Packet)
    requires
        is_packet(
            p,
            Flag::Lock,
            entered_room(n, room).session,
            entered_room(n, room).room,
            Seq::empty(),
            game_code(g),
        ),
    ensures
        p.room == room,
        p.session == n.session,
        game_of_code(p.option) == g,
{
}

} // verus!
