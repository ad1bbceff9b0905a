use vstd::prelude::*;
use std::collections::HashMap;

use crate::messages::ActionType;
use crate::sub_world::{global_of, global_to_local, sw_id_ok, SubWorldCmd};
use crate::types::{strip_of, Coord};

verus! {

broadcast use vstd::std_specs::hash::group_hash_axioms;

/// The local position of the global position `g` within its sub-world.
pub open spec fn local_of(g: Coord) -> Coord {
    Coord {
        x: (g.x - strip_of(g.x as int) * 512) as i32,
        y: (g.y - strip_of(g.y as int) * 512) as i32,
    }
}

/// The sub-world holding the global position `g`.
pub open spec fn sw_of(g: Coord) -> (i64, i64) {
    (strip_of(g.x as int) as i64, strip_of(g.y as int) as i64)
}

/// Where a command must go: the sub-world, whether that sub-world has just been created
/// (and must now be started), and the command.
#[derive(Debug)]
pub struct Route {
    pub sw_id: (i64, i64),
    pub created: bool,
    pub cmd: SubWorldCmd,
}

/// The bookkeeping of the world: which sub-worlds exist, which sub-world each player is
/// in, and the numbers handed to new players. Running the sub-worlds and talking to them
/// is left to the caller, which follows the routes this manager returns.
pub struct WorldManager {
    sub_worlds: Vec<(i64, i64)>,
    player_sw: HashMap<u32, (i64, i64)>,
    next_player_id: u32,
    pub world_seed: u64,
}

/// After a player is recorded in a sub-world (by registering or by a transfer), looking
/// it up gives that sub-world; after it is forgotten, it is not found.
pub proof fn lemma_route_then_lookup(m: Map<u32, (i64, i64)>, pid: u32, sw: (i64, i64))
    ensures
        m.insert(pid, sw).contains_key(pid),
        m.insert(pid, sw)[pid] == sw,
        !m.remove(pid).contains_key(pid),
{
}

impl WorldManager {
    /// The sub-worlds that exist, in the order they were created.
    pub closed spec fn sub_worlds_view(&self) -> Seq<(i64, i64)> {
        self.sub_worlds@
    }

    /// The sub-world of each registered player.
    pub closed spec fn players_view(&self) -> Map<u32, (i64, i64)> {
        self.player_sw@
    }

    /// The seed every sub-world is generated from.
    pub closed spec fn seed_view(&self) -> u64 {
        self.world_seed
    }

    /// The number the next player receives.
    pub closed spec fn next_player_view(&self) -> u32 {
        self.next_player_id
    }

    /// No sub-world is listed twice, each lies in the range global coordinates reach, and
    /// every player is in a sub-world that exists.
    pub open spec fn wf(&self) -> bool {
        &&& self.sub_worlds_view().no_duplicates()
        &&& forall|i: int| 0 <= i < self.sub_worlds_view().len() ==> sw_id_ok(#[trigger] self.sub_worlds_view()[i])
        &&& forall|p: u32|
            #[trigger] self.players_view().contains_key(p) ==> self.sub_worlds_view().contains(
                self.players_view()[p],
            )
    }

    /// A world with no sub-world and no player; the first player gets number 1.
    pub fn new(world_seed: u64) -> (r: Self)
        ensures
            r.wf(),
            r.sub_worlds_view() == Seq::<(i64, i64)>::empty(),
            r.players_view() == Map::<u32, (i64, i64)>::empty(),
            r.next_player_view() == 1,
            r.seed_view() == world_seed,
    {
        WorldManager {
            sub_worlds: Vec::new(),
            player_sw: HashMap::new(),
            next_player_id: 1,
            world_seed,
        }
    }

    /// The number the next player receives.
    pub fn next_player_id(&self) -> (r: u32)
        ensures
            r == self.next_player_view(),
    {
        self.next_player_id
    }

    /// Hand out the next player number.
    pub fn allocate_player_id(&mut self) -> (r: u32)
        requires
            old(self).next_player_view() < u32::MAX,
        ensures
            r == old(self).next_player_view(),
            final(self).next_player_view() == r + 1,
            final(self).sub_worlds_view() == old(self).sub_worlds_view(),
            final(self).players_view() == old(self).players_view(),
            final(self).seed_view() == old(self).seed_view(),
    {
        let id = self.next_player_id;
        self.next_player_id = self.next_player_id + 1;
        id
    }

    fn knows(&self, sw_id: (i64, i64)) -> (r: bool)
        ensures
            r == self.sub_worlds_view().contains(sw_id),
    {
        let mut i: usize = 0;
        while i < self.sub_worlds.len()
            invariant
                i <= self.sub_worlds@.len(),
                forall|j: int| 0 <= j < i ==> self.sub_worlds@[j] != sw_id,
            decreases self.sub_worlds@.len() - i,
        {
            let s = self.sub_worlds[i];
            if s.0 == sw_id.0 && s.1 == sw_id.1 {
                assert(self.sub_worlds@[i as int] == sw_id);
                return true;
            }
            i = i + 1;
        }
        false
    }

    /// Make sure the sub-world `sw_id` exists; true when it had to be created, in which
    /// case the caller starts it.
    pub fn get_or_create_sub_world(&mut self, sw_id: (i64, i64)) -> (created: bool)
        requires
            old(self).wf(),
            sw_id_ok(sw_id),
        ensures
            final(self).wf(),
            created == !old(self).sub_worlds_view().contains(sw_id),
            final(self).sub_worlds_view() == (if created {
                old(self).sub_worlds_view().push(sw_id)
            } else {
                old(self).sub_worlds_view()
            }),
            final(self).players_view() == old(self).players_view(),
            final(self).next_player_view() == old(self).next_player_view(),
            final(self).seed_view() == old(self).seed_view(),
    {
        if self.knows(sw_id) {
            return false;
        }
        let ghost s0 = self.sub_worlds@;
        self.sub_worlds.push(sw_id);
        proof {
            assert forall|i: int, j: int|
                0 <= i < self.sub_worlds@.len() && 0 <= j < self.sub_worlds@.len() && i != j implies self.sub_worlds@[i]
                != self.sub_worlds@[j] by {
                if i == s0.len() {
                    assert(self.sub_worlds@[j] == s0[j]);
                } else if j == s0.len() {
                    assert(self.sub_worlds@[i] == s0[i]);
                }
            }
            assert forall|p: u32| #[trigger] self.players_view().contains_key(p) implies self.sub_worlds_view().contains(
                self.players_view()[p],
            ) by {
                assert(old(self).players_view().contains_key(p));
                assert(s0.contains(old(self).players_view()[p]));
                let q = choose|q: int| 0 <= q < s0.len() && s0[q] == old(self).players_view()[p];
                assert(self.sub_worlds@[q] == s0[q]);
            }
        }
        true
    }

    /// Register player `player_id` at the global position `global_pos`: it is recorded in
    /// the sub-world holding that position (created if needed), which is to be told that
    /// the player joins at the local position.
    pub fn register_player(&mut self, player_id: u32, global_pos: Coord) -> (r: Route)
        requires
            old(self).wf(),
        ensures
            final(self).wf(),
            r.sw_id == sw_of(global_pos),
            r.created == !old(self).sub_worlds_view().contains(r.sw_id),
            final(self).sub_worlds_view() == (if r.created {
                old(self).sub_worlds_view().push(r.sw_id)
            } else {
                old(self).sub_worlds_view()
            }),
            final(self).players_view() == old(self).players_view().insert(player_id, r.sw_id),
            final(self).next_player_view() == old(self).next_player_view(),
            final(self).seed_view() == old(self).seed_view(),
            r.cmd == (SubWorldCmd::PlayerJoin { player_id, pos: local_of(global_pos) }),
    {
        let (sw_id, local) = global_to_local(global_pos);
        let created = self.get_or_create_sub_world(sw_id);
        self.player_sw.insert(player_id, sw_id);
        proof {
            assert(self.sub_worlds_view().contains(sw_id)) by {
                if created {
                    assert(self.sub_worlds_view()[self.sub_worlds_view().len() - 1] == sw_id);
                }
            }
        }
        Route { sw_id, created, cmd: SubWorldCmd::PlayerJoin { player_id, pos: local } }
    }

    /// Forget the connection of player `player_id`; when it was registered, its sub-world
    /// is to be told, and keeps its character in place, disconnected.
    pub fn unregister_player(&mut self, player_id: u32) -> (r: Option<((i64, i64), SubWorldCmd)>)
        requires
            old(self).wf(),
        ensures
            final(self).wf(),
            final(self).players_view() == old(self).players_view().remove(player_id),
            final(self).sub_worlds_view() == old(self).sub_worlds_view(),
            final(self).next_player_view() == old(self).next_player_view(),
            final(self).seed_view() == old(self).seed_view(),
            r == (if old(self).players_view().contains_key(player_id) {
                Some((old(self).players_view()[player_id], SubWorldCmd::PlayerLeave { player_id }))
            } else {
                None
            }),
    {
        let r = self.player_sw.remove(&player_id);
        proof {
            assert forall|p: u32| #[trigger] self.players_view().contains_key(p) implies self.sub_worlds_view().contains(
                self.players_view()[p],
            ) by {
                assert(old(self).players_view().contains_key(p));
            }
            if old(self).players_view().contains_key(player_id) {
                assert(old(self).sub_worlds_view().contains(old(self).players_view()[player_id]));
            }
        }
        match r {
            Some(sw_id) => {
                if self.knows(sw_id) {
                    Some((sw_id, SubWorldCmd::PlayerLeave { player_id }))
                } else {
                    None
                }
            },
            None => None,
        }
    }

    /// Route action number `seq` of player `player_id` to its sub-world, with the target
    /// turned into a position local to the sub-world holding it; nothing for an unknown
    /// player.
    pub fn handle_player_action(
        &self,
        player_id: u32,
        seq: u32,
        action: ActionType,
        target: Option<Coord>,
    ) -> (r: Option<((i64, i64), SubWorldCmd)>)
        requires
            self.wf(),
        ensures
            r == (if self.players_view().contains_key(player_id) {
                Some(
                    (
                        self.players_view()[player_id],
                        SubWorldCmd::PlayerAction {
                            player_id,
                            seq,
                            action,
                            target: match target {
                                Some(t) => Some(local_of(t)),
                                None => None,
                            },
                        },
                    ),
                )
            } else {
                None
            }),
    {
        let sw_id = match self.player_sw.get(&player_id) {
            Some(id) => *id,
            None => {
                return None;
            },
        };
        let target_local = match target {
            Some(t) => {
                let (_, local) = global_to_local(t);
                Some(local)
            },
            None => None,
        };
        if self.knows(sw_id) {
            Some((sw_id, SubWorldCmd::PlayerAction { player_id, seq, action, target: target_local }))
        } else {
            None
        }
    }

    /// Move player `player_id` to the sub-world `to_sw_id` (created if needed), which is to
    /// be told that the player joins at `local_pos`. The sub-world it came from has
    /// already let it go.
    pub fn transfer_player(&mut self, player_id: u32, to_sw_id: (i64, i64), local_pos: Coord) -> (r:
        Route)
        requires
            old(self).wf(),
            sw_id_ok(to_sw_id),
        ensures
            final(self).wf(),
            r.sw_id == to_sw_id,
            r.created == !old(self).sub_worlds_view().contains(to_sw_id),
            final(self).sub_worlds_view() == (if r.created {
                old(self).sub_worlds_view().push(to_sw_id)
            } else {
                old(self).sub_worlds_view()
            }),
            final(self).players_view() == old(self).players_view().insert(player_id, to_sw_id),
            final(self).next_player_view() == old(self).next_player_view(),
            final(self).seed_view() == old(self).seed_view(),
            r.cmd == (SubWorldCmd::PlayerJoin { player_id, pos: local_pos }),
    {
        let created = self.get_or_create_sub_world(to_sw_id);
        self.player_sw.insert(player_id, to_sw_id);
        proof {
            assert(self.sub_worlds_view().contains(to_sw_id)) by {
                if created {
                    assert(self.sub_worlds_view()[self.sub_worlds_view().len() - 1] == to_sw_id);
                }
            }
        }
        Route { sw_id: to_sw_id, created, cmd: SubWorldCmd::PlayerJoin { player_id, pos: local_pos } }
    }

    /// The sub-worlds to ask for a snapshot when the world is saved, in creation order.
    pub fn snapshot_targets(&self) -> (r: Vec<(i64, i64)>)
        ensures
            r@ == self.sub_worlds_view(),
    {
        let mut r: Vec<(i64, i64)> = Vec::new();
        let mut i: usize = 0;
        while i < self.sub_worlds.len()
            invariant
                i <= self.sub_worlds@.len(),
                r@ == self.sub_worlds@.take(i as int),
            decreases self.sub_worlds@.len() - i,
        {
            r.push(self.sub_worlds[i]);
            i = i + 1;
            assert(r@ =~= self.sub_worlds@.take(i as int));
        }
        assert(self.sub_worlds@.take(i as int) =~= self.sub_worlds@);
        r
    }

    /// The sub-world player `player_id` is in, if it is registered.
    pub fn player_sub_world(&self, player_id: u32) -> (r: Option<(i64, i64)>)
        ensures
            r == (if self.players_view().contains_key(player_id) {
                Some(self.players_view()[player_id])
            } else {
                None
            }),
    {
        match self.player_sw.get(&player_id) {
            Some(id) => Some(*id),
            None => None,
        }
    }
}

} // verus!
