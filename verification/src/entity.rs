use vstd::prelude::*;

use crate::types::Coord;

verus! {

/// The kinds of creatures in a sub-world.
#[derive(Debug, Clone, Copy, PartialEq, Eq, Structural)]
pub enum EntityType {
    Player,
    Zombie,
    Skeleton,
    Goblin,
    Rat,
}

/// The wire code of an entity kind.
pub open spec fn entity_code(t: EntityType) -> u8 {
    match t {
        EntityType::Player => 0,
        EntityType::Zombie => 1,
        EntityType::Skeleton => 2,
        EntityType::Goblin => 3,
        EntityType::Rat => 4,
    }
}

impl EntityType {
    pub fn to_u8(&self) -> (r: u8)
        ensures
            r == entity_code(*self),
    {
        match self {
            EntityType::Player => 0,
            EntityType::Zombie => 1,
            EntityType::Skeleton => 2,
            EntityType::Goblin => 3,
            EntityType::Rat => 4,
        }
    }
}

/// A creature standing on the map.
#[derive(Debug)]
pub struct Entity {
    pub id: u32,
    pub name: String,
    pub entity_type: EntityType,
    pub pos: Coord,
    pub hp: i32,
    pub max_hp: i32,
}

impl Clone for Entity {
    fn clone(&self) -> (r: Self)
        ensures
            r == *self,
    {
        Entity {
            id: self.id,
            name: self.name.clone(),
            entity_type: self.entity_type,
            pos: self.pos,
            hp: self.hp,
            max_hp: self.max_hp,
        }
    }
}

/// `i` is the position of the entity numbered `id` in `s`.
pub open spec fn at_id(s: Seq<Entity>, id: u32, i: int) -> bool {
    0 <= i < s.len() && s[i].id == id
}

/// Some entity in `s` carries the number `id`.
pub open spec fn has_id(s: Seq<Entity>, id: u32) -> bool {
    exists|i: int| at_id(s, id, i)
}

/// Entity numbers strictly increase along `s`, so none occurs twice.
pub open spec fn ids_increasing(s: Seq<Entity>) -> bool {
    forall|i: int, j: int| 0 <= i < j < s.len() ==> s[i].id < s[j].id
}

/// The Chebyshev distance between an entity and (cx, cy) is at most `radius`.
pub open spec fn near(e: Entity, cx: int, cy: int, radius: int) -> bool {
    &&& -radius <= e.pos.x - cx <= radius
    &&& -radius <= e.pos.y - cy <= radius
}

/// The entities of `s` within `radius` of (cx, cy), in order.
pub open spec fn near_filter(s: Seq<Entity>, cx: int, cy: int, radius: int) -> Seq<Entity> {
    s.filter(|e: Entity| near(e, cx, cy, radius))
}

/// The position of the entity numbered `id` in `s`, when there is one.
pub open spec fn index_of_id(s: Seq<Entity>, id: u32) -> int {
    choose|i: int| at_id(s, id, i)
}

/// `s` with the entity numbered `id` standing at `p`; `s` itself when there is none.
pub open spec fn moved_seq(s: Seq<Entity>, id: u32, p: Coord) -> Seq<Entity> {
    if has_id(s, id) {
        s.update(index_of_id(s, id), Entity { pos: p, ..s[index_of_id(s, id)] })
    } else {
        s
    }
}

/// `s` without the entity numbered `id`; `s` itself when there is none.
pub open spec fn removed_seq(s: Seq<Entity>, id: u32) -> Seq<Entity> {
    if has_id(s, id) {
        s.remove(index_of_id(s, id))
    } else {
        s
    }
}

/// In a list with increasing numbers an entity number sits at one position only.
pub proof fn lemma_index_of_id(s: Seq<Entity>, id: u32, i: int)
    requires
        ids_increasing(s),
        at_id(s, id, i),
    ensures
        index_of_id(s, id) == i,
{
    let j = index_of_id(s, id);
    assert(at_id(s, id, j));
    if j < i {
        assert(s[j].id < s[i].id);
    } else if i < j {
        assert(s[i].id < s[j].id);
    }
}

/// The creatures of one sub-world, in the order they were spawned, each under a
/// number that is never handed out twice.
pub struct EntityManager {
    entities: Vec<Entity>,
    next_id: u32,
}

impl EntityManager {
    /// The creatures, oldest first.
    pub closed spec fn view_seq(&self) -> Seq<Entity> {
        self.entities@
    }

    /// The number the next spawned creature receives.
    pub closed spec fn next_id_view(&self) -> u32 {
        self.next_id
    }

    /// Numbers increase in spawn order and all lie below the next one handed out.
    pub open spec fn wf(&self) -> bool {
        &&& ids_increasing(self.view_seq())
        &&& forall|i: int| 0 <= i < self.view_seq().len() ==> #[trigger] self.view_seq()[i].id
            < self.next_id_view()
        &&& self.next_id_view() >= 1
    }

    pub fn new() -> (r: Self)
        ensures
            r.wf(),
            r.view_seq() == Seq::<Entity>::empty(),
            r.next_id_view() == 1,
    {
        EntityManager { entities: Vec::new(), next_id: 1 }
    }

    /// Add a creature at full health under the next number, and return that number.
    pub fn spawn(&mut self, name: String, entity_type: EntityType, pos: Coord, hp: i32) -> (id:
        u32)
        requires
            old(self).wf(),
            old(self).next_id_view() < u32::MAX,
        ensures
            final(self).wf(),
            id == old(self).next_id_view(),
            !has_id(old(self).view_seq(), id),
            final(self).next_id_view() == id + 1,
            final(self).view_seq() == old(self).view_seq().push(
                Entity { id, name, entity_type, pos, hp, max_hp: hp },
            ),
    {
        let id = self.next_id;
        self.next_id = self.next_id + 1;
        self.entities.push(Entity { id, name, entity_type, pos, hp, max_hp: hp });
        id
    }

    fn find(&self, id: u32) -> (r: Option<usize>)
        requires
            self.wf(),
        ensures
            match r {
                Some(i) => at_id(self.view_seq(), id, i as int),
                None => !has_id(self.view_seq(), id),
            },
    {
        let mut i: usize = 0;
        while i < self.entities.len()
            invariant
                i <= self.entities@.len(),
                forall|j: int| 0 <= j < i ==> self.entities@[j].id != id,
            decreases self.entities@.len() - i,
        {
            if self.entities[i].id == id {
                return Some(i);
            }
            i = i + 1;
        }
        None
    }

    pub fn get(&self, id: u32) -> (r: Option<&Entity>)
        requires
            self.wf(),
        ensures
            match r {
                Some(e) => exists|i: int| at_id(self.view_seq(), id, i) && *e == self.view_seq()[i],
                None => !has_id(self.view_seq(), id),
            },
    {
        match self.find(id) {
            Some(i) => Some(&self.entities[i]),
            None => None,
        }
    }

    /// Mutable access to the creature numbered `id`; the caller must keep its number.
    pub fn get_mut(&mut self, id: u32) -> (r: Option<&mut Entity>)
        requires
            old(self).wf(),
        ensures
            match r {
                Some(e) => exists|i: int|
                    at_id(old(self).view_seq(), id, i) && *e == old(self).view_seq()[i]
                        && final(self).view_seq() == old(self).view_seq().update(i, *final(e))
                        && final(self).next_id_view() == old(self).next_id_view(),
                None => !has_id(old(self).view_seq(), id) && *final(self) == *old(self),
            },
    {
        match self.find(id) {
            Some(i) => Some(&mut self.entities[i]),
            None => None,
        }
    }

    /// Take the creature numbered `id` out of the sub-world.
    pub fn remove(&mut self, id: u32) -> (r: Option<Entity>)
        requires
            old(self).wf(),
        ensures
            final(self).wf(),
            final(self).next_id_view() == old(self).next_id_view(),
            match r {
                Some(e) => exists|i: int|
                    at_id(old(self).view_seq(), id, i) && e == old(self).view_seq()[i]
                        && final(self).view_seq() == old(self).view_seq().remove(i),
                None => !has_id(old(self).view_seq(), id) && final(self).view_seq() == old(
                    self,
                ).view_seq(),
            },
            !has_id(final(self).view_seq(), id),
            final(self).view_seq() == removed_seq(old(self).view_seq(), id),
    {
        match self.find(id) {
            Some(i) => {
                proof {
                    lemma_index_of_id(old(self).view_seq(), id, i as int);
                }
                let e = self.entities.remove(i);
                proof {
                    let s = old(self).view_seq();
                    assert forall|a: int, b: int|
                        0 <= a < b < self.view_seq().len() implies self.view_seq()[a].id
                        < self.view_seq()[b].id by {
                        if a >= i as int {
                            assert(self.view_seq()[a] == s[a + 1]);
                        }
                        if b >= i as int {
                            assert(self.view_seq()[b] == s[b + 1]);
                        }
                    }
                    assert forall|k: int| at_id(self.view_seq(), id, k) implies false by {
                        if k < i as int {
                            assert(self.view_seq()[k] == s[k]);
                        } else {
                            assert(self.view_seq()[k] == s[k + 1]);
                        }
                    }
                }
                Some(e)
            },
            None => None,
        }
    }

    /// Put the creature numbered `id` at `new_pos`; false when there is no such creature.
    pub fn move_entity(&mut self, id: u32, new_pos: Coord) -> (r: bool)
        requires
            old(self).wf(),
        ensures
            final(self).wf(),
            final(self).next_id_view() == old(self).next_id_view(),
            r == has_id(old(self).view_seq(), id),
            r ==> exists|i: int|
                at_id(old(self).view_seq(), id, i) && final(self).view_seq() == old(
                    self,
                ).view_seq().update(i, Entity { pos: new_pos, ..old(self).view_seq()[i] }),
            !r ==> final(self).view_seq() == old(self).view_seq(),
            final(self).view_seq() == moved_seq(old(self).view_seq(), id, new_pos),
    {
        match self.find(id) {
            Some(i) => {
                proof {
                    lemma_index_of_id(old(self).view_seq(), id, i as int);
                }
                let mut e = self.entities.remove(i);
                e.pos = new_pos;
                self.entities.insert(i, e);
                proof {
                    let s = old(self).view_seq();
                    assert(self.view_seq() =~= s.update(i as int, Entity { pos: new_pos, ..s[i as int] }));
                }
                true
            },
            None => false,
        }
    }

    /// The creatures within Chebyshev distance `radius` of (cx, cy), oldest first.
    pub fn entities_in_radius(&self, cx: i32, cy: i32, radius: i32) -> (r: Vec<&Entity>)
        ensures
            r@.map_values(|e: &Entity| *e) == near_filter(
                self.view_seq(),
                cx as int,
                cy as int,
                radius as int,
            ),
    {
        let mut r: Vec<&Entity> = Vec::new();
        let mut i: usize = 0;
        let ghost pred = |e: Entity| near(e, cx as int, cy as int, radius as int);
        while i < self.entities.len()
            invariant
                i <= self.entities@.len(),
                pred == (|e: Entity| near(e, cx as int, cy as int, radius as int)),
                r@.map_values(|e: &Entity| *e) == self.entities@.take(i as int).filter(pred),
            decreases self.entities@.len() - i,
        {
            let e = &self.entities[i];
            let dx = e.pos.x as i64 - cx as i64;
            let dy = e.pos.y as i64 - cy as i64;
            let rr = radius as i64;
            proof {
                reveal_with_fuel(Seq::<_>::filter, 1);
                assert(self.entities@.take(i + 1).drop_last() =~= self.entities@.take(i as int));
            }
            if -rr <= dx && dx <= rr && -rr <= dy && dy <= rr {
                r.push(e);
            }
            i = i + 1;
            assert(r@.map_values(|e: &Entity| *e) =~= self.entities@.take(i as int).filter(pred));
        }
        assert(self.entities@.take(i as int) =~= self.entities@);
        r
    }

    /// The creatures, oldest first.
    pub fn all(&self) -> (r: &[Entity])
        ensures
            r@ == self.view_seq(),
    {
        self.entities.as_slice()
    }

    /// The number the next spawned creature receives.
    pub fn next_id(&self) -> (r: u32)
        ensures
            r == self.next_id_view(),
    {
        self.next_id
    }

    pub fn len(&self) -> (r: usize)
        ensures
            r == self.view_seq().len(),
    {
        self.entities.len()
    }
}

/// A creature just spawned is found under the number `spawn` returned.
pub proof fn lemma_spawn_then_get(before: Seq<Entity>, after: Seq<Entity>, e: Entity)
    requires
        ids_increasing(after),
        after == before.push(e),
    ensures
        at_id(after, e.id, before.len() as int),
        forall|i: int| #[trigger] at_id(after, e.id, i) ==> i == before.len(),
{
    assert forall|i: int| #[trigger] at_id(after, e.id, i) implies i == before.len() by {
        if i < before.len() {
            assert(after[i].id < after[before.len() as int].id);
        }
    }
}

} // verus!
