use vstd::prelude::*;

use crate::messages::ServerMessage;
use crate::text::push_str;
use crate::types::{Coord, EntityData, ItemStack, LogEntry, TileData};

verus! {

/// What the client knows of the game: who it is, where, and the last world state the
/// server sent, patched by the smaller updates that followed it.
#[derive(Debug)]
pub struct GameState {
    pub player_id: u32,
    pub player_pos: Coord,
    pub sub_world_id: (i64, i64),
    pub world_seed: u64,
    pub visible_tiles: Vec<TileData>,
    pub explored: Vec<bool>,
    pub explored_width: u32,
    pub entities: Vec<EntityData>,
    pub items_ground: Vec<(Coord, ItemStack)>,
    pub message_log: Vec<LogEntry>,
    pub hp: i32,
    pub max_hp: i32,
    pub stamina: i32,
    pub thirst: i32,
    pub hunger: i32,
    pub seq: u32,
}

/// Two states hold the same values, the lists compared by their contents.
pub open spec fn same_state(a: GameState, b: GameState) -> bool {
    &&& a.player_id == b.player_id
    &&& a.player_pos == b.player_pos
    &&& a.sub_world_id == b.sub_world_id
    &&& a.world_seed == b.world_seed
    &&& a.visible_tiles@ == b.visible_tiles@
    &&& a.explored@ == b.explored@
    &&& a.explored_width == b.explored_width
    &&& a.entities@ == b.entities@
    &&& a.items_ground@ == b.items_ground@
    &&& a.message_log@ == b.message_log@
    &&& a.hp == b.hp
    &&& a.max_hp == b.max_hp
    &&& a.stamina == b.stamina
    &&& a.thirst == b.thirst
    &&& a.hunger == b.hunger
    &&& a.seq == b.seq
}

impl Clone for GameState {
    fn clone(&self) -> (r: Self)
        ensures
            same_state(r, *self),
    {
        GameState {
            player_id: self.player_id,
            player_pos: self.player_pos,
            sub_world_id: self.sub_world_id,
            world_seed: self.world_seed,
            visible_tiles: copy_tiles(&self.visible_tiles),
            explored: copy_flags(&self.explored),
            explored_width: self.explored_width,
            entities: copy_entities(&self.entities),
            items_ground: crate::messages::copy_ground_items(&self.items_ground),
            message_log: copy_log(&self.message_log),
            hp: self.hp,
            max_hp: self.max_hp,
            stamina: self.stamina,
            thirst: self.thirst,
            hunger: self.hunger,
            seq: self.seq,
        }
    }
}

impl Default for GameState {
    /// Player 0 at the origin of sub-world (0, 0), nothing seen yet, all stats at 100.
    fn default() -> (r: Self)
        ensures
            r.player_id == 0,
            r.player_pos == (Coord { x: 0, y: 0 }),
            r.sub_world_id == (0i64, 0i64),
            r.world_seed == 0,
            r.visible_tiles@ == Seq::<TileData>::empty(),
            r.explored@ == Seq::<bool>::empty(),
            r.explored_width == 0,
            r.entities@ == Seq::<EntityData>::empty(),
            r.items_ground@ == Seq::<(Coord, ItemStack)>::empty(),
            r.message_log@ == Seq::<LogEntry>::empty(),
            r.hp == 100,
            r.max_hp == 100,
            r.stamina == 100,
            r.thirst == 100,
            r.hunger == 100,
            r.seq == 0,
    {
        GameState {
            player_id: 0,
            player_pos: Coord::new(0, 0),
            sub_world_id: (0, 0),
            world_seed: 0,
            visible_tiles: Vec::new(),
            explored: Vec::new(),
            explored_width: 0,
            entities: Vec::new(),
            items_ground: Vec::new(),
            message_log: Vec::new(),
            hp: 100,
            max_hp: 100,
            stamina: 100,
            thirst: 100,
            hunger: 100,
            seq: 0,
        }
    }
}

/// `k` is the first entity of `s` carrying the number `id`.
pub open spec fn first_with_id(s: Seq<EntityData>, id: u32, k: int) -> bool {
    &&& 0 <= k < s.len()
    &&& s[k].id == id
    &&& forall|j: int| 0 <= j < k ==> s[j].id != id
}

/// No entity of `s` carries the number `id`.
pub open spec fn none_with_id(s: Seq<EntityData>, id: u32) -> bool {
    forall|j: int| 0 <= j < s.len() ==> s[j].id != id
}

/// The entities of `s` not carrying the number `id`, in order.
pub open spec fn without_id(s: Seq<EntityData>, id: u32) -> Seq<EntityData> {
    s.filter(|e: EntityData| e.id != id)
}

/// Hit points after taking `damage`, never below zero.
pub open spec fn hp_after(hp: int, damage: int) -> int {
    if hp - damage > 0 {
        hp - damage
    } else {
        0
    }
}

/// The text a chat message adds to the log.
pub open spec fn chat_text(name: Seq<char>, text: Seq<char>) -> Seq<char> {
    name + ": "@ + text
}

/// Every field of `s` but the snapshot's equals its value in `t`; the snapshot fields of
/// `s` are those of the world state `msg`.
pub open spec fn snapshot_applied(t: GameState, s: GameState, msg: ServerMessage) -> bool {
    match msg {
        ServerMessage::WorldState {
            seq,
            player_pos,
            visible_tiles,
            explored,
            explored_width,
            entities,
            items_ground,
            message_log,
            hp,
            stamina,
            thirst,
            hunger,
        } => {
            &&& s.seq == seq
            &&& s.player_pos == player_pos
            &&& s.visible_tiles@ == visible_tiles@
            &&& s.explored@ == explored@
            &&& s.explored_width == explored_width
            &&& s.entities@ == entities@
            &&& s.items_ground@ == items_ground@
            &&& s.message_log@ == message_log@
            &&& s.hp == hp
            &&& s.stamina == stamina
            &&& s.thirst == thirst
            &&& s.hunger == hunger
            &&& s.player_id == t.player_id
            &&& s.sub_world_id == t.sub_world_id
            &&& s.world_seed == t.world_seed
            &&& s.max_hp == t.max_hp
        },
        _ => s == t,
    }
}

/// The arithmetic of a delta stays within i32: an attack's damage can be taken from the
/// hit points it applies to.
pub open spec fn delta_fits(s: GameState, msg: ServerMessage) -> bool {
    match msg {
        ServerMessage::AttackResult { target, damage, .. } => {
            &&& forall|k: int|
                first_with_id(s.entities@, target, k) ==> i32::MIN <= s.entities@[k].hp - damage
                    <= i32::MAX
            &&& target == s.player_id ==> i32::MIN <= s.hp - damage <= i32::MAX
        },
        _ => true,
    }
}

/// Every field of `s` equals its value in `t` except the entity list and the player's
/// position and hit points.
pub open spec fn same_but_entities_pos_hp(t: GameState, s: GameState) -> bool {
    &&& s.player_id == t.player_id
    &&& s.sub_world_id == t.sub_world_id
    &&& s.world_seed == t.world_seed
    &&& s.visible_tiles@ == t.visible_tiles@
    &&& s.explored@ == t.explored@
    &&& s.explored_width == t.explored_width
    &&& s.items_ground@ == t.items_ground@
    &&& s.message_log@ == t.message_log@
    &&& s.max_hp == t.max_hp
    &&& s.stamina == t.stamina
    &&& s.thirst == t.thirst
    &&& s.hunger == t.hunger
    &&& s.seq == t.seq
}

/// What applying the delta `msg` to `t` gives, stated of the result `s`.
pub open spec fn delta_applied(t: GameState, s: GameState, msg: ServerMessage) -> bool {
    match msg {
        ServerMessage::EntityMoved { id, to, .. } => {
            &&& same_but_entities_pos_hp(t, s)
            &&& s.hp == t.hp
            &&& s.player_pos == (if id == t.player_id {
                to
            } else {
                t.player_pos
            })
            &&& forall|k: int|
                first_with_id(t.entities@, id, k) ==> s.entities@ == t.entities@.update(
                    k,
                    EntityData { pos: to, ..t.entities@[k] },
                )
            &&& none_with_id(t.entities@, id) ==> s.entities@ == t.entities@
        },
        ServerMessage::EntityJoined { entity } => {
            &&& same_but_entities_pos_hp(t, s)
            &&& s.hp == t.hp
            &&& s.player_pos == t.player_pos
            &&& s.entities@ == without_id(t.entities@, entity.id).push(entity)
        },
        ServerMessage::EntityLeft { id } => {
            &&& same_but_entities_pos_hp(t, s)
            &&& s.hp == t.hp
            &&& s.player_pos == t.player_pos
            &&& s.entities@ == without_id(t.entities@, id)
        },
        ServerMessage::AttackResult { target, damage, .. } => {
            &&& same_but_entities_pos_hp(t, s)
            &&& s.player_pos == t.player_pos
            &&& s.hp == (if target == t.player_id {
                hp_after(t.hp as int, damage as int)
            } else {
                t.hp as int
            })
            &&& forall|k: int|
                first_with_id(t.entities@, target, k) ==> s.entities@ == t.entities@.update(
                    k,
                    EntityData {
                        hp: hp_after(t.entities@[k].hp as int, damage as int) as i32,
                        ..t.entities@[k]
                    },
                )
            &&& none_with_id(t.entities@, target) ==> s.entities@ == t.entities@
        },
        ServerMessage::ChatMessage { player_name, text, .. } => {
            &&& s.message_log@.len() == t.message_log@.len() + 1
            &&& s.message_log@.drop_last() == t.message_log@
            &&& s.message_log@.last().text@ == chat_text(player_name@, text@)
            &&& s.message_log@.last().color == 0xFFFFFF
            &&& s.message_log@.last().turn == 0
            &&& s == GameState { message_log: s.message_log, ..t }
        },
        ServerMessage::LoginAccepted { player_id, sub_world_id, world_seed } => {
            s == GameState { player_id, sub_world_id, world_seed, ..t }
        },
        ServerMessage::SubWorldTransfer { new_sub_world_id, pos } => {
            s == GameState { sub_world_id: new_sub_world_id, player_pos: pos, ..t }
        },
        _ => s == t,
    }
}

/// Taking a world state by reference or by value leaves the same state.
pub proof fn lemma_snapshot_forms_agree(t: GameState, a: GameState, b: GameState, msg: ServerMessage)
    requires
        snapshot_applied(t, a, msg),
        snapshot_applied(t, b, msg),
    ensures
        same_state(a, b),
{
}

/// An entity that joins and then leaves is gone, and the others are as they were with
/// any earlier copy of it removed.
pub proof fn lemma_join_then_leave(s: Seq<EntityData>, e: EntityData)
    ensures
        without_id(without_id(s, e.id).push(e), e.id) == without_id(s, e.id),
{
    let p = |x: EntityData| x.id != e.id;
    let w = without_id(s, e.id);
    assert(w.push(e).drop_last() == w);
    reveal_with_fuel(Seq::<_>::filter, 1);
    assert(w.filter(p) =~= w) by {
        assert forall|i: int| 0 <= i < w.len() implies p(#[trigger] w[i]) by {
            s.lemma_filter_pred(p, i);
        }
        lemma_filter_all(w, p);
    }
}

proof fn lemma_filter_all(s: Seq<EntityData>, p: spec_fn(EntityData) -> bool)
    requires
        forall|i: int| 0 <= i < s.len() ==> p(#[trigger] s[i]),
    ensures
        s.filter(p) == s,
    decreases s.len(),
{
    reveal_with_fuel(Seq::<_>::filter, 1);
    if s.len() > 0 {
        lemma_filter_all(s.drop_last(), p);
        assert(s.drop_last().push(s.last()) =~= s);
    }
}

fn copy_tiles(v: &Vec<TileData>) -> (r: Vec<TileData>)
    ensures
        r@ == v@,
{
    let mut r: Vec<TileData> = Vec::new();
    let mut i: usize = 0;
    while i < v.len()
        invariant
            i <= v@.len(),
            r@ == v@.take(i as int),
        decreases v@.len() - i,
    {
        r.push(v[i]);
        i = i + 1;
        assert(r@ =~= v@.take(i as int));
    }
    assert(v@.take(i as int) =~= v@);
    r
}

fn copy_flags(v: &Vec<bool>) -> (r: Vec<bool>)
    ensures
        r@ == v@,
{
    let mut r: Vec<bool> = Vec::new();
    let mut i: usize = 0;
    while i < v.len()
        invariant
            i <= v@.len(),
            r@ == v@.take(i as int),
        decreases v@.len() - i,
    {
        r.push(v[i]);
        i = i + 1;
        assert(r@ =~= v@.take(i as int));
    }
    assert(v@.take(i as int) =~= v@);
    r
}

fn copy_entities(v: &Vec<EntityData>) -> (r: Vec<EntityData>)
    ensures
        r@ == v@,
{
    let mut r: Vec<EntityData> = Vec::new();
    let mut i: usize = 0;
    while i < v.len()
        invariant
            i <= v@.len(),
            r@ == v@.take(i as int),
        decreases v@.len() - i,
    {
        r.push(v[i].clone());
        i = i + 1;
        assert(r@ =~= v@.take(i as int));
    }
    assert(v@.take(i as int) =~= v@);
    r
}

fn copy_log(v: &Vec<LogEntry>) -> (r: Vec<LogEntry>)
    ensures
        r@ == v@,
{
    let mut r: Vec<LogEntry> = Vec::new();
    let mut i: usize = 0;
    while i < v.len()
        invariant
            i <= v@.len(),
            r@ == v@.take(i as int),
        decreases v@.len() - i,
    {
        r.push(v[i].clone());
        i = i + 1;
        assert(r@ =~= v@.take(i as int));
    }
    assert(v@.take(i as int) =~= v@);
    r
}

/// The position of the first entity of `v` carrying the number `id`.
fn find_entity(v: &Vec<EntityData>, id: u32) -> (r: Option<usize>)
    ensures
        match r {
            Some(k) => first_with_id(v@, id, k as int),
            None => none_with_id(v@, id),
        },
{
    let mut i: usize = 0;
    while i < v.len()
        invariant
            i <= v@.len(),
            forall|j: int| 0 <= j < i ==> v@[j].id != id,
        decreases v@.len() - i,
    {
        if v[i].id == id {
            return Some(i);
        }
        i = i + 1;
    }
    None
}

/// Drop every entity of `v` carrying the number `id`, keeping the order of the rest.
fn retain_other_ids(v: &mut Vec<EntityData>, id: u32)
    ensures
        final(v)@ == without_id(old(v)@, id),
{
    let mut old_v: Vec<EntityData> = Vec::new();
    std::mem::swap(&mut old_v, v);
    let ghost pred = |e: EntityData| e.id != id;
    let mut i: usize = 0;
    while i < old_v.len()
        invariant
            i <= old_v@.len(),
            old_v@ == old(v)@,
            pred == (|e: EntityData| e.id != id),
            v@ == old_v@.take(i as int).filter(pred),
        decreases old_v@.len() - i,
    {
        proof {
            reveal_with_fuel(Seq::<_>::filter, 1);
            assert(old_v@.take(i + 1).drop_last() =~= old_v@.take(i as int));
        }
        if old_v[i].id != id {
            v.push(old_v[i].clone());
        }
        i = i + 1;
        assert(v@ =~= old_v@.take(i as int).filter(pred));
    }
    assert(old_v@.take(i as int) =~= old_v@);
}

/// Whether the arithmetic of applying `msg` to `s` as a delta stays within i32.
pub fn delta_in_range(s: &GameState, msg: &ServerMessage) -> (r: bool)
    ensures
        r == delta_fits(*s, *msg),
{
    match msg {
        ServerMessage::AttackResult { target, damage, .. } => {
            let entity_ok = match find_entity(&s.entities, *target) {
                Some(k) => {
                    let v = s.entities[k].hp as i64 - *damage as i64;
                    -2147483648 <= v && v <= 2147483647
                },
                None => true,
            };
            let player_ok = if *target == s.player_id {
                let v = s.hp as i64 - *damage as i64;
                -2147483648 <= v && v <= 2147483647
            } else {
                true
            };
            entity_ok && player_ok
        },
        _ => true,
    }
}

impl GameState {
    /// Take over the snapshot fields of a world state; any other message changes nothing.
    pub fn apply_snapshot(&mut self, msg: &ServerMessage)
        ensures
            snapshot_applied(*old(self), *final(self), *msg),
    {
        if let ServerMessage::WorldState {
            seq,
            player_pos,
            visible_tiles,
            explored,
            explored_width,
            entities,
            items_ground,
            message_log,
            hp,
            stamina,
            thirst,
            hunger,
        } = msg {
            self.seq = *seq;
            self.player_pos = *player_pos;
            self.visible_tiles = copy_tiles(visible_tiles);
            self.explored = copy_flags(explored);
            self.explored_width = *explored_width;
            self.entities = copy_entities(entities);
            self.items_ground = crate::messages::copy_ground_items(items_ground);
            self.message_log = copy_log(message_log);
            self.hp = *hp;
            self.stamina = *stamina;
            self.thirst = *thirst;
            self.hunger = *hunger;
        }
    }

    /// Take over the snapshot fields of a world state, moving them out of the message;
    /// any other message changes nothing.
    pub fn apply_snapshot_owned(&mut self, msg: ServerMessage)
        ensures
            snapshot_applied(*old(self), *final(self), msg),
    {
        if let ServerMessage::WorldState {
            seq,
            player_pos,
            visible_tiles,
            explored,
            explored_width,
            entities,
            items_ground,
            message_log,
            hp,
            stamina,
            thirst,
            hunger,
        } = msg {
            self.seq = seq;
            self.player_pos = player_pos;
            self.visible_tiles = visible_tiles;
            self.explored = explored;
            self.explored_width = explored_width;
            self.entities = entities;
            self.items_ground = items_ground;
            self.message_log = message_log;
            self.hp = hp;
            self.stamina = stamina;
            self.thirst = thirst;
            self.hunger = hunger;
        }
    }

    /// Patch the state with one of the smaller server updates: an entity moved, joined,
    /// left or was hit; a chat line; the login answer; a move to another sub-world.
    /// World states and the other messages change nothing here.
    pub fn apply_delta(&mut self, msg: &ServerMessage)
        requires
            delta_fits(*old(self), *msg),
        ensures
            delta_applied(*old(self), *final(self), *msg),
    {
        match msg {
            ServerMessage::EntityMoved { id, from: _, to } => {
                if let Some(k) = find_entity(&self.entities, *id) {
                    let mut e = self.entities.remove(k);
                    e.pos = *to;
                    self.entities.insert(k, e);
                    assert(self.entities@ =~= old(self).entities@.update(
                        k as int,
                        EntityData { pos: *to, ..old(self).entities@[k as int] },
                    ));
                }
                if *id == self.player_id {
                    self.player_pos = *to;
                }
                proof {
                    assert forall|k: int| first_with_id(old(self).entities@, *id, k) implies self.entities@
                        == old(self).entities@.update(
                        k,
                        EntityData { pos: *to, ..old(self).entities@[k] },
                    ) by {
                        assert(!none_with_id(old(self).entities@, *id));
                    }
                }
            },
            ServerMessage::EntityJoined { entity } => {
                retain_other_ids(&mut self.entities, entity.id);
                self.entities.push(entity.clone());
            },
            ServerMessage::EntityLeft { id } => {
                retain_other_ids(&mut self.entities, *id);
            },
            ServerMessage::AttackResult { attacker: _, target, damage, killed: _ } => {
                if let Some(k) = find_entity(&self.entities, *target) {
                    let mut e = self.entities.remove(k);
                    let left = e.hp - *damage;
                    e.hp = if left > 0 {
                        left
                    } else {
                        0
                    };
                    self.entities.insert(k, e);
                    assert(self.entities@ =~= old(self).entities@.update(
                        k as int,
                        EntityData {
                            hp: hp_after(old(self).entities@[k as int].hp as int, *damage as int) as i32,
                            ..old(self).entities@[k as int]
                        },
                    ));
                }
                if *target == self.player_id {
                    let left = self.hp - *damage;
                    self.hp = if left > 0 {
                        left
                    } else {
                        0
                    };
                }
                proof {
                    assert forall|k: int| first_with_id(old(self).entities@, *target, k) implies self.entities@
                        == old(self).entities@.update(
                        k,
                        EntityData {
                            hp: hp_after(old(self).entities@[k].hp as int, *damage as int) as i32,
                            ..old(self).entities@[k]
                        },
                    ) by {
                        assert(!none_with_id(old(self).entities@, *target));
                    }
                }
            },
            ServerMessage::ChatMessage { player_id: _, player_name, text } => {
                let mut line = String::new();
                push_str(&mut line, player_name.as_str());
                proof {
                    reveal_strlit(": ");
                }
                push_str(&mut line, ": ");
                push_str(&mut line, text.as_str());
                self.message_log.push(LogEntry { text: line, color: 0xFFFFFF, turn: 0 });
                assert(self.message_log@.drop_last() =~= old(self).message_log@);
            },
            ServerMessage::LoginAccepted { player_id, sub_world_id, world_seed } => {
                self.player_id = *player_id;
                self.sub_world_id = *sub_world_id;
                self.world_seed = *world_seed;
            },
            ServerMessage::SubWorldTransfer { new_sub_world_id, pos } => {
                self.sub_world_id = *new_sub_world_id;
                self.player_pos = *pos;
            },
            _ => {},
        }
    }

    pub fn get_visible_tiles(&self) -> (r: &[TileData])
        ensures
            r@ == self.visible_tiles@,
    {
        self.visible_tiles.as_slice()
    }

    pub fn get_entities(&self) -> (r: &[EntityData])
        ensures
            r@ == self.entities@,
    {
        self.entities.as_slice()
    }

    pub fn get_items_ground(&self) -> (r: &[(Coord, ItemStack)])
        ensures
            r@ == self.items_ground@,
    {
        self.items_ground.as_slice()
    }

    pub fn get_message_log(&self) -> (r: &[LogEntry])
        ensures
            r@ == self.message_log@,
    {
        self.message_log.as_slice()
    }
}

} // verus!
