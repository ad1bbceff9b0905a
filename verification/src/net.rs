use vstd::prelude::*;

use crate::messages::{ActionType, ClientMessage, ServerMessage};
use crate::types::Coord;
use crate::world_manager::{local_of, sw_of, Route, WorldManager};
use crate::sub_world::SubWorldCmd;

verus! {

/// The largest frame body a server accepts, in bytes.
pub const MAX_FRAME_LEN: usize = 1048576;

/// Where a player who logs in appears, in global coordinates.
pub const SPAWN_X: i32 = 256;

/// Where a player who logs in appears, in global coordinates.
pub const SPAWN_Y: i32 = 256;

/// The four bytes of `v`, most significant first.
pub open spec fn be_bytes(v: u32) -> [u8; 4] {
    [
        (v / 16777216) as u8,
        (v / 65536 % 256) as u8,
        (v / 256 % 256) as u8,
        (v % 256) as u8,
    ]
}

/// The number four bytes stand for, most significant first.
pub open spec fn be_value(b: [u8; 4]) -> int {
    b[0] * 16777216 + b[1] * 65536 + b[2] * 256 + b[3]
}

/// Why a frame was refused.
#[derive(Debug, Clone, Copy, PartialEq, Eq, Structural)]
pub enum FrameError {
    /// The header announces a body longer than `MAX_FRAME_LEN`.
    TooLarge { len: usize },
}

/// The header written before a frame body of `len` bytes: the length cut to 32 bits,
/// big-endian.
pub fn frame_header(len: usize) -> (r: [u8; 4])
    ensures
        r == be_bytes(len as u32),
{
    let v: u32 = len as u32;
    [(v / 16777216) as u8, (v / 65536 % 256) as u8, (v / 256 % 256) as u8, (v % 256) as u8]
}

/// The body length a frame header announces; refused when it exceeds `MAX_FRAME_LEN`.
pub fn frame_len(header: [u8; 4]) -> (r: Result<usize, FrameError>)
    ensures
        be_value(header) <= MAX_FRAME_LEN ==> r == Ok::<usize, FrameError>(be_value(header) as usize),
        be_value(header) > MAX_FRAME_LEN ==> r == Err::<usize, FrameError>(
            FrameError::TooLarge { len: be_value(header) as usize },
        ),
{
    let v: u64 = (header[0] as u64) * 16777216 + (header[1] as u64) * 65536 + (header[2] as u64)
        * 256 + (header[3] as u64);
    let len: usize = v as usize;
    if v > 1048576 {
        Err(FrameError::TooLarge { len })
    } else {
        Ok(len)
    }
}

/// A header read back gives the length it was written for, for every length the server
/// accepts.
pub proof fn lemma_frame_roundtrip(len: usize)
    requires
        len <= MAX_FRAME_LEN,
    ensures
        be_value(be_bytes(len as u32)) == len,
{
    let v = len as u32;
    assert(v == len);
    let b = be_bytes(v);
    assert(b[0] == v / 16777216);
    assert(b[1] == v / 65536 % 256);
    assert(b[2] == v / 256 % 256);
    assert(b[3] == v % 256);
    assert(be_value(b) == v) by (nonlinear_arith)
        requires
            b[0] == v / 16777216,
            b[1] == v / 65536 % 256,
            b[2] == v / 256 % 256,
            b[3] == v % 256,
            0 <= v <= 1048576,
    ;
}

/// Why a connection was refused at login.
#[derive(Debug, Clone, Copy, PartialEq, Eq, Structural)]
pub enum LoginError {
    /// The first message was not a login.
    ExpectedLogin,
}

/// What the server does with a message from a logged-in client.
#[derive(Debug)]
pub enum ConnStep {
    /// Route this action of the player to its sub-world.
    Act { seq: u32, action: ActionType, target: Option<Coord> },
    /// Send this answer straight back.
    Reply { msg: ServerMessage },
    /// The client logs out: stop reading.
    Close,
    /// Nothing to do.
    Ignore,
}

/// What a logged-in client's message asks of the server: actions go to the world,
/// pings are answered with a pong of the same number, a logout ends the session, and
/// anything else is ignored.
pub fn client_step(msg: ClientMessage) -> (r: ConnStep)
    ensures
        match msg {
            ClientMessage::PlayerAction { seq, action, target } => r == (ConnStep::Act {
                seq,
                action,
                target,
            }),
            ClientMessage::Ping { seq } => r == (ConnStep::Reply { msg: ServerMessage::Pong { seq } }),
            ClientMessage::Logout => r == ConnStep::Close,
            _ => r == ConnStep::Ignore,
        },
{
    match msg {
        ClientMessage::PlayerAction { seq, action, target } => ConnStep::Act { seq, action, target },
        ClientMessage::Ping { seq } => ConnStep::Reply { msg: ServerMessage::Pong { seq } },
        ClientMessage::Logout => ConnStep::Close,
        _ => ConnStep::Ignore,
    }
}

/// Log in the client whose first message is `msg`: a login gets the next player number
/// and is registered at the spawn position (the route says where its join goes); any
/// other first message is refused.
pub fn login(wm: &mut WorldManager, msg: ClientMessage) -> (r: Result<(u32, String, Route), LoginError>)
    requires
        old(wm).wf(),
        old(wm).next_player_view() < u32::MAX,
    ensures
        final(wm).wf(),
        match msg {
            ClientMessage::Login { player_name, .. } => match r {
                Ok((pid, name, route)) => {
                    let spawn = Coord { x: SPAWN_X, y: SPAWN_Y };
                    &&& pid == old(wm).next_player_view()
                    &&& final(wm).next_player_view() == pid + 1
                    &&& name@ == player_name@
                    &&& route.sw_id == sw_of(spawn)
                    &&& route.created == !old(wm).sub_worlds_view().contains(route.sw_id)
                    &&& final(wm).sub_worlds_view() == (if route.created {
                        old(wm).sub_worlds_view().push(route.sw_id)
                    } else {
                        old(wm).sub_worlds_view()
                    })
                    &&& final(wm).players_view() == old(wm).players_view().insert(pid, route.sw_id)
                    &&& route.cmd == (SubWorldCmd::PlayerJoin { player_id: pid, pos: local_of(spawn) })
                },
                Err(_) => false,
            },
            _ => r == Err::<(u32, String, Route), LoginError>(LoginError::ExpectedLogin) && *final(wm)
                == *old(wm),
        },
{
    match msg {
        ClientMessage::Login { version: _, player_name } => {
            let pid = wm.allocate_player_id();
            let route = wm.register_player(pid, Coord::new(SPAWN_X, SPAWN_Y));
            Ok((pid, player_name, route))
        },
        _ => Err(LoginError::ExpectedLogin),
    }
}

} // verus!
