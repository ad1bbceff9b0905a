use vstd::prelude::*;

use crate::types::{Coord, EntityData, ItemStack, LogEntry, TileData};

verus! {

/// Version of the wire protocol spoken by this library.
pub const PROTOCOL_VERSION: u32 = 1;

/// What a client sends to the server.
#[derive(Debug, PartialEq)]
pub enum ClientMessage {
    Login { version: u32, player_name: String },
    PlayerAction { seq: u32, action: ActionType, target: Option<Coord> },
    Logout,
    Ping { seq: u32 },
}

/// An action a player (or a monster) can take in one turn.
#[derive(Debug, PartialEq)]
pub enum ActionType {
    MoveUp,
    MoveDown,
    MoveLeft,
    MoveRight,
    MoveUpLeft,
    MoveUpRight,
    MoveDownLeft,
    MoveDownRight,
    Wait,
    MeleeAttack,
    RangedAttack,
    Pickup,
    Drop,
    UseItem,
    Craft,
    Inspect,
    Interact,
    Chat { text: String },
}

impl Clone for ActionType {
    fn clone(&self) -> (r: Self)
        ensures
            r == *self,
    {
        match self {
            ActionType::MoveUp => ActionType::MoveUp,
            ActionType::MoveDown => ActionType::MoveDown,
            ActionType::MoveLeft => ActionType::MoveLeft,
            ActionType::MoveRight => ActionType::MoveRight,
            ActionType::MoveUpLeft => ActionType::MoveUpLeft,
            ActionType::MoveUpRight => ActionType::MoveUpRight,
            ActionType::MoveDownLeft => ActionType::MoveDownLeft,
            ActionType::MoveDownRight => ActionType::MoveDownRight,
            ActionType::Wait => ActionType::Wait,
            ActionType::MeleeAttack => ActionType::MeleeAttack,
            ActionType::RangedAttack => ActionType::RangedAttack,
            ActionType::Pickup => ActionType::Pickup,
            ActionType::Drop => ActionType::Drop,
            ActionType::UseItem => ActionType::UseItem,
            ActionType::Craft => ActionType::Craft,
            ActionType::Inspect => ActionType::Inspect,
            ActionType::Interact => ActionType::Interact,
            ActionType::Chat { text } => ActionType::Chat { text: text.clone() },
        }
    }
}

/// What the server sends to a client.
#[derive(Debug, PartialEq)]
pub enum ServerMessage {
    LoginAccepted { player_id: u32, sub_world_id: (i64, i64), world_seed: u64 },
    WorldState {
        seq: u32,
        player_pos: Coord,
        visible_tiles: Vec<TileData>,
        explored: Vec<bool>,
        explored_width: u32,
        entities: Vec<EntityData>,
        items_ground: Vec<(Coord, ItemStack)>,
        message_log: Vec<LogEntry>,
        hp: i32,
        stamina: i32,
        thirst: i32,
        hunger: i32,
    },
    EntityMoved { id: u32, from: Coord, to: Coord },
    AttackResult { attacker: u32, target: u32, damage: i32, killed: bool },
    ChatMessage { player_id: u32, player_name: String, text: String },
    SubWorldTransfer { new_sub_world_id: (i64, i64), pos: Coord },
    EntityJoined { entity: EntityData },
    EntityLeft { id: u32 },
    ChunkData { cx: i32, cy: i32, tiles: Vec<TileData> },
    Error { code: u32, text: String },
    Pong { seq: u32 },
}

/// A copy of a list of ground item stacks.
pub fn copy_ground_items(v: &Vec<(Coord, ItemStack)>) -> (r: Vec<(Coord, ItemStack)>)
    ensures
        r@ == v@,
{
    let mut r: Vec<(Coord, ItemStack)> = Vec::new();
    let mut i: usize = 0;
    while i < v.len()
        invariant
            i <= v.len(),
            r@ == v@.take(i as int),
        decreases v.len() - i,
    {
        r.push(v[i]);
        i = i + 1;
        assert(r@ =~= v@.take(i as int));
    }
    assert(v@.take(i as int) =~= v@);
    r
}

impl Clone for ClientMessage {
    fn clone(&self) -> (r: Self)
        ensures
            r == *self,
    {
        match self {
            ClientMessage::Login { version, player_name } => ClientMessage::Login {
                version: *version,
                player_name: player_name.clone(),
            },
            ClientMessage::PlayerAction { seq, action, target } => ClientMessage::PlayerAction {
                seq: *seq,
                action: action.clone(),
                target: *target,
            },
            ClientMessage::Logout => ClientMessage::Logout,
            ClientMessage::Ping { seq } => ClientMessage::Ping { seq: *seq },
        }
    }
}

/// Two server messages carry the same content: the same variant, equal scalar fields
/// and list fields with equal contents.
pub open spec fn same_server_message(a: ServerMessage, b: ServerMessage) -> bool {
    match (a, b) {
        (
            ServerMessage::WorldState {
                seq: s1,
                player_pos: p1,
                visible_tiles: v1,
                explored: e1,
                explored_width: w1,
                entities: n1,
                items_ground: i1,
                message_log: l1,
                hp: h1,
                stamina: st1,
                thirst: t1,
                hunger: g1,
            },
            ServerMessage::WorldState {
                seq: s2,
                player_pos: p2,
                visible_tiles: v2,
                explored: e2,
                explored_width: w2,
                entities: n2,
                items_ground: i2,
                message_log: l2,
                hp: h2,
                stamina: st2,
                thirst: t2,
                hunger: g2,
            },
        ) => {
            &&& s1 == s2
            &&& p1 == p2
            &&& v1@ == v2@
            &&& e1@ == e2@
            &&& w1 == w2
            &&& n1@ == n2@
            &&& i1@ == i2@
            &&& l1@ == l2@
            &&& h1 == h2
            &&& st1 == st2
            &&& t1 == t2
            &&& g1 == g2
        },
        (
            ServerMessage::ChunkData { cx: x1, cy: y1, tiles: t1 },
            ServerMessage::ChunkData { cx: x2, cy: y2, tiles: t2 },
        ) => x1 == x2 && y1 == y2 && t1@ == t2@,
        (ServerMessage::WorldState { .. }, _) => false,
        (ServerMessage::ChunkData { .. }, _) => false,
        _ => a == b,
    }
}

impl Clone for ServerMessage {
    fn clone(&self) -> (r: Self)
        ensures
            same_server_message(r, *self),
    {
        match self {
            ServerMessage::LoginAccepted { player_id, sub_world_id, world_seed } =>
                ServerMessage::LoginAccepted {
                player_id: *player_id,
                sub_world_id: *sub_world_id,
                world_seed: *world_seed,
            },
            ServerMessage::WorldState {
                seq,
                player_pos,
                visible_tiles,
                explored,
                explored_width,
                entities,
                items_ground,
                message_log,
                hp,
                stamina,
                thirst,
                hunger,
            } => {
                let v = visible_tiles.clone();
                let ex = explored.clone();
                let en = entities.clone();
                let it = copy_ground_items(items_ground);
                let ml = message_log.clone();
                assert(v@ =~= visible_tiles@);
                assert(ex@ =~= explored@);
                assert(en@ =~= entities@);
                assert(it@ =~= items_ground@);
                assert(ml@ =~= message_log@);
                let r = ServerMessage::WorldState {
                    seq: *seq,
                    player_pos: *player_pos,
                    visible_tiles: v,
                    explored: ex,
                    explored_width: *explored_width,
                    entities: en,
                    items_ground: it,
                    message_log: ml,
                    hp: *hp,
                    stamina: *stamina,
                    thirst: *thirst,
                    hunger: *hunger,
                };
                r
            },
            ServerMessage::EntityMoved { id, from, to } => ServerMessage::EntityMoved {
                id: *id,
                from: *from,
                to: *to,
            },
            ServerMessage::AttackResult { attacker, target, damage, killed } =>
                ServerMessage::AttackResult {
                attacker: *attacker,
                target: *target,
                damage: *damage,
                killed: *killed,
            },
            ServerMessage::ChatMessage { player_id, player_name, text } =>
                ServerMessage::ChatMessage {
                player_id: *player_id,
                player_name: player_name.clone(),
                text: text.clone(),
            },
            ServerMessage::SubWorldTransfer { new_sub_world_id, pos } =>
                ServerMessage::SubWorldTransfer { new_sub_world_id: *new_sub_world_id, pos: *pos },
            ServerMessage::EntityJoined { entity } => ServerMessage::EntityJoined {
                entity: entity.clone(),
            },
            ServerMessage::EntityLeft { id } => ServerMessage::EntityLeft { id: *id },
            ServerMessage::ChunkData { cx, cy, tiles } => {
                let t = tiles.clone();
                assert(t@ =~= tiles@);
                ServerMessage::ChunkData { cx: *cx, cy: *cy, tiles: t }
            },
            ServerMessage::Error { code, text } => ServerMessage::Error {
                code: *code,
                text: text.clone(),
            },
            ServerMessage::Pong { seq } => ServerMessage::Pong { seq: *seq },
        }
    }
}

} // verus!
