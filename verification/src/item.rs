use vstd::prelude::*;
use vstd::string::*;

use crate::types;
use crate::types::Coord;

verus! {

/// A kind of item, with what it does.
#[derive(Debug)]
pub enum ItemType {
    Weapon { damage: i32, attack_bonus: i32 },
    Armor { defense: i32 },
    Potion { heal: i32 },
    Scroll { effect: String },
    Food { nutrition: i32 },
}

impl Clone for ItemType {
    fn clone(&self) -> (r: Self)
        ensures
            r == *self,
    {
        match self {
            ItemType::Weapon { damage, attack_bonus } => ItemType::Weapon {
                damage: *damage,
                attack_bonus: *attack_bonus,
            },
            ItemType::Armor { defense } => ItemType::Armor { defense: *defense },
            ItemType::Potion { heal } => ItemType::Potion { heal: *heal },
            ItemType::Scroll { effect } => ItemType::Scroll { effect: effect.clone() },
            ItemType::Food { nutrition } => ItemType::Food { nutrition: *nutrition },
        }
    }
}

/// One item.
#[derive(Debug)]
pub struct Item {
    pub id: u32,
    pub name: String,
    pub item_type: ItemType,
}

impl Clone for Item {
    fn clone(&self) -> (r: Self)
        ensures
            r == *self,
    {
        Item { id: self.id, name: self.name.clone(), item_type: self.item_type.clone() }
    }
}

/// A pile of one item.
#[derive(Debug)]
pub struct ItemStack {
    pub item: Item,
    pub quantity: u32,
}

impl Clone for ItemStack {
    fn clone(&self) -> (r: Self)
        ensures
            r == *self,
    {
        ItemStack { item: self.item.clone(), quantity: self.quantity }
    }
}

/// `k` is the first stack of `s` holding the item numbered `id`.
pub open spec fn first_stack(s: Seq<ItemStack>, id: u32, k: int) -> bool {
    &&& 0 <= k < s.len()
    &&& s[k].item.id == id
    &&& forall|j: int| 0 <= j < k ==> s[j].item.id != id
}

/// No stack of `s` holds the item numbered `id`.
pub open spec fn no_stack(s: Seq<ItemStack>, id: u32) -> bool {
    forall|j: int| 0 <= j < s.len() ==> s[j].item.id != id
}

fn find_stack(s: &Vec<ItemStack>, id: u32) -> (r: Option<usize>)
    ensures
        match r {
            Some(k) => first_stack(s@, id, k as int),
            None => no_stack(s@, id),
        },
{
    let mut i: usize = 0;
    while i < s.len()
        invariant
            i <= s@.len(),
            forall|j: int| 0 <= j < i ==> s@[j].item.id != id,
        decreases s@.len() - i,
    {
        if s[i].item.id == id {
            return Some(i);
        }
        i = i + 1;
    }
    None
}

/// A character's pack: stacks of items, at most `capacity` of them.
#[derive(Debug)]
pub struct Inventory {
    pub items: Vec<ItemStack>,
    pub capacity: usize,
}

impl Inventory {
    pub fn new(capacity: usize) -> (r: Self)
        ensures
            r.items@ == Seq::<ItemStack>::empty(),
            r.capacity == capacity,
    {
        Inventory { items: Vec::new(), capacity }
    }

    /// Put a stack in the pack, merging it into the first stack of the same item.
    /// Refused (false, pack unchanged) when the pack already holds `capacity` stacks.
    pub fn add(&mut self, stack: ItemStack) -> (r: bool)
        requires
            old(self).items@.len() < old(self).capacity ==> forall|k: int|
                first_stack(old(self).items@, stack.item.id, k) ==> old(self).items@[k].quantity
                    + stack.quantity <= u32::MAX,
        ensures
            final(self).capacity == old(self).capacity,
            r == (old(self).items@.len() < old(self).capacity),
            !r ==> final(self).items@ == old(self).items@,
            r && no_stack(old(self).items@, stack.item.id) ==> final(self).items@ == old(
                self,
            ).items@.push(stack),
            forall|k: int|
                r && first_stack(old(self).items@, stack.item.id, k) ==> final(self).items@ == old(
                    self,
                ).items@.update(
                    k,
                    ItemStack {
                        quantity: (old(self).items@[k].quantity + stack.quantity) as u32,
                        ..old(self).items@[k]
                    },
                ),
    {
        if self.items.len() >= self.capacity {
            return false;
        }
        match find_stack(&self.items, stack.item.id) {
            Some(k) => {
                let mut existing = self.items.remove(k);
                existing.quantity = existing.quantity + stack.quantity;
                self.items.insert(k, existing);
                proof {
                    let s = old(self).items@;
                    assert(self.items@ =~= s.update(
                        k as int,
                        ItemStack { quantity: (s[k as int].quantity + stack.quantity) as u32, ..s[k as int] },
                    ));
                    assert forall|k2: int| first_stack(s, stack.item.id, k2) implies k2 == k as int by {
                    }
                }
            },
            None => {
                self.items.push(stack);
            },
        }
        true
    }

    /// Take `quantity` of an item out of the pack: the first stack of it shrinks, or goes
    /// when it holds no more than `quantity`. False when the pack has none.
    pub fn remove(&mut self, item_id: u32, quantity: u32) -> (r: bool)
        ensures
            final(self).capacity == old(self).capacity,
            r == !no_stack(old(self).items@, item_id),
            !r ==> final(self).items@ == old(self).items@,
            forall|k: int|
                first_stack(old(self).items@, item_id, k) ==> final(self).items@ == (if old(
                    self,
                ).items@[k].quantity <= quantity {
                    old(self).items@.remove(k)
                } else {
                    old(self).items@.update(
                        k,
                        ItemStack {
                            quantity: (old(self).items@[k].quantity - quantity) as u32,
                            ..old(self).items@[k]
                        },
                    )
                }),
    {
        match find_stack(&self.items, item_id) {
            Some(k) => {
                let ghost s = old(self).items@;
                if self.items[k].quantity <= quantity {
                    self.items.remove(k);
                } else {
                    let mut e = self.items.remove(k);
                    e.quantity = e.quantity - quantity;
                    self.items.insert(k, e);
                    assert(self.items@ =~= s.update(
                        k as int,
                        ItemStack { quantity: (s[k as int].quantity - quantity) as u32, ..s[k as int] },
                    ));
                }
                assert forall|k2: int| first_stack(s, item_id, k2) implies k2 == k as int by {}
                true
            },
            None => false,
        }
    }

    pub fn has(&self, item_id: u32) -> (r: bool)
        ensures
            r == !no_stack(self.items@, item_id),
    {
        match find_stack(&self.items, item_id) {
            Some(_) => true,
            None => false,
        }
    }
}

/// A stack lying on the map.
#[derive(Debug)]
pub struct GroundItem {
    pub stack: ItemStack,
    pub pos: Coord,
}

impl Clone for GroundItem {
    fn clone(&self) -> (r: Self)
        ensures
            r == *self,
    {
        GroundItem { stack: self.stack.clone(), pos: self.pos }
    }
}

/// The ground item lies on (x, y).
pub open spec fn lies_at(g: GroundItem, x: int, y: int) -> bool {
    g.pos.x == x && g.pos.y == y
}

/// `k` is the first ground item on (x, y) holding the item numbered `id`.
pub open spec fn first_ground(s: Seq<GroundItem>, x: int, y: int, id: u32, k: int) -> bool {
    &&& 0 <= k < s.len()
    &&& lies_at(s[k], x, y) && s[k].stack.item.id == id
    &&& forall|j: int| 0 <= j < k ==> !(lies_at(s[j], x, y) && s[j].stack.item.id == id)
}

/// What a client is told about a ground item: where it lies, which item and how many.
pub open spec fn ground_summary(g: GroundItem) -> (Coord, types::ItemStack) {
    (g.pos, types::ItemStack { item_id: g.stack.item.id, quantity: g.stack.quantity })
}

/// The items lying on the map of a sub-world, in the order they were dropped, each item
/// under a number that is never handed out twice.
pub struct ItemManager {
    ground_items: Vec<GroundItem>,
    next_id: u32,
}

impl ItemManager {
    /// The ground items, oldest first.
    pub closed spec fn view_seq(&self) -> Seq<GroundItem> {
        self.ground_items@
    }

    /// The number the next spawned item receives.
    pub closed spec fn next_id_view(&self) -> u32 {
        self.next_id
    }

    /// Item numbers increase along the list and lie below the next one handed out.
    pub open spec fn wf(&self) -> bool {
        &&& forall|i: int, j: int|
            0 <= i < j < self.view_seq().len() ==> self.view_seq()[i].stack.item.id
                < self.view_seq()[j].stack.item.id
        &&& forall|i: int|
            0 <= i < self.view_seq().len() ==> #[trigger] self.view_seq()[i].stack.item.id
                < self.next_id_view()
    }

    pub fn new() -> (r: Self)
        ensures
            r.wf(),
            r.view_seq() == Seq::<GroundItem>::empty(),
            r.next_id_view() == 1,
    {
        ItemManager { ground_items: Vec::new(), next_id: 1 }
    }

    /// Drop a new item on the map under the next number.
    pub fn spawn_ground(&mut self, name: &str, item_type: ItemType, pos: Coord, quantity: u32)
        requires
            old(self).wf(),
            old(self).next_id_view() < u32::MAX,
        ensures
            final(self).wf(),
            final(self).next_id_view() == old(self).next_id_view() + 1,
            final(self).view_seq().len() == old(self).view_seq().len() + 1,
            final(self).view_seq().drop_last() == old(self).view_seq(),
            ({
                let g = final(self).view_seq().last();
                &&& g.stack.item.id == old(self).next_id_view()
                &&& g.stack.item.name@ == name@
                &&& g.stack.item.item_type == item_type
                &&& g.stack.quantity == quantity
                &&& g.pos == pos
            }),
    {
        let id = self.next_id;
        self.next_id = self.next_id + 1;
        let item = Item { id, name: String::from_str(name), item_type };
        self.ground_items.push(GroundItem { stack: ItemStack { item, quantity }, pos });
        assert(self.ground_items@.drop_last() =~= old(self).ground_items@);
    }

    /// The items lying on (x, y), oldest first.
    pub fn items_at(&self, x: i32, y: i32) -> (r: Vec<&GroundItem>)
        ensures
            r@.map_values(|g: &GroundItem| *g) == self.view_seq().filter(
                |g: GroundItem| lies_at(g, x as int, y as int),
            ),
    {
        let mut r: Vec<&GroundItem> = Vec::new();
        let mut i: usize = 0;
        let ghost pred = |g: GroundItem| lies_at(g, x as int, y as int);
        while i < self.ground_items.len()
            invariant
                i <= self.ground_items@.len(),
                pred == (|g: GroundItem| lies_at(g, x as int, y as int)),
                r@.map_values(|g: &GroundItem| *g) == self.ground_items@.take(i as int).filter(
                    pred,
                ),
            decreases self.ground_items@.len() - i,
        {
            let g = &self.ground_items[i];
            proof {
                reveal_with_fuel(Seq::<_>::filter, 1);
                assert(self.ground_items@.take(i + 1).drop_last() =~= self.ground_items@.take(
                    i as int,
                ));
            }
            if g.pos.x == x && g.pos.y == y {
                r.push(g);
            }
            i = i + 1;
            assert(r@.map_values(|g: &GroundItem| *g) =~= self.ground_items@.take(i as int).filter(
                pred,
            ));
        }
        assert(self.ground_items@.take(i as int) =~= self.ground_items@);
        r
    }

    /// Pick up the first item numbered `item_id` lying on (x, y).
    pub fn remove_at(&mut self, x: i32, y: i32, item_id: u32) -> (r: Option<ItemStack>)
        requires
            old(self).wf(),
        ensures
            final(self).wf(),
            final(self).next_id_view() == old(self).next_id_view(),
            match r {
                Some(st) => exists|k: int|
                    first_ground(old(self).view_seq(), x as int, y as int, item_id, k) && st
                        == old(self).view_seq()[k].stack && final(self).view_seq() == old(
                        self,
                    ).view_seq().remove(k),
                None => (forall|j: int|
                    0 <= j < old(self).view_seq().len() ==> !(lies_at(
                        #[trigger] old(self).view_seq()[j],
                        x as int,
                        y as int,
                    ) && old(self).view_seq()[j].stack.item.id == item_id)) && final(self).view_seq()
                    == old(self).view_seq(),
            },
    {
        let mut i: usize = 0;
        while i < self.ground_items.len()
            invariant
                i <= self.ground_items@.len(),
                self.ground_items@ == old(self).ground_items@,
                self.next_id == old(self).next_id,
                old(self).wf(),
                forall|j: int|
                    0 <= j < i ==> !(lies_at(#[trigger] self.ground_items@[j], x as int, y as int)
                        && self.ground_items@[j].stack.item.id == item_id),
            decreases self.ground_items@.len() - i,
        {
            let g = &self.ground_items[i];
            if g.pos.x == x && g.pos.y == y && g.stack.item.id == item_id {
                let removed = self.ground_items.remove(i);
                proof {
                    let s = old(self).ground_items@;
                    assert(first_ground(s, x as int, y as int, item_id, i as int));
                    assert forall|a: int, b: int|
                        0 <= a < b < self.view_seq().len() implies self.view_seq()[a].stack.item.id
                        < self.view_seq()[b].stack.item.id by {
                        if a >= i as int {
                            assert(self.view_seq()[a] == s[a + 1]);
                        }
                        if b >= i as int {
                            assert(self.view_seq()[b] == s[b + 1]);
                        }
                    }
                    assert forall|a: int| 0 <= a < self.view_seq().len() implies #[trigger] self.view_seq()[a].stack.item.id
                        < self.next_id_view() by {
                        if a >= i as int {
                            assert(self.view_seq()[a] == s[a + 1]);
                        }
                    }
                }
                return Some(removed.stack);
            }
            i = i + 1;
        }
        None
    }

    /// Pick up every item lying on (x, y), keeping the others in order.
    pub(crate) fn take_all_at(&mut self, x: i32, y: i32)
        requires
            old(self).wf(),
        ensures
            final(self).wf(),
            final(self).next_id_view() == old(self).next_id_view(),
            final(self).view_seq() == old(self).view_seq().filter(
                |g: GroundItem| !lies_at(g, x as int, y as int),
            ),
    {
        let mut all: Vec<GroundItem> = Vec::new();
        std::mem::swap(&mut all, &mut self.ground_items);
        let ghost s = all@;
        let ghost pred = |g: GroundItem| !lies_at(g, x as int, y as int);
        let mut i: usize = 0;
        while i < all.len()
            invariant
                i <= s.len(),
                all@ == s,
                s == old(self).ground_items@,
                self.next_id == old(self).next_id,
                old(self).wf(),
                pred == (|g: GroundItem| !lies_at(g, x as int, y as int)),
                self.ground_items@ == s.take(i as int).filter(pred),
                forall|a: int, b: int|
                    0 <= a < b < self.ground_items@.len() ==> self.ground_items@[a].stack.item.id
                        < self.ground_items@[b].stack.item.id,
                forall|a: int|
                    0 <= a < self.ground_items@.len() ==> #[trigger] self.ground_items@[a].stack.item.id
                        < self.next_id,
                i < s.len() ==> forall|a: int|
                    0 <= a < self.ground_items@.len() ==> #[trigger] self.ground_items@[a].stack.item.id
                        < s[i as int].stack.item.id,
            decreases s.len() - i,
        {
            proof {
                reveal_with_fuel(Seq::<_>::filter, 1);
                assert(s.take(i + 1).drop_last() =~= s.take(i as int));
            }
            let g = &all[i];
            if !(g.pos.x == x && g.pos.y == y) {
                self.ground_items.push(g.clone());
            }
            proof {
                if i + 1 < s.len() {
                    assert(s[i as int].stack.item.id < s[i + 1].stack.item.id);
                }
            }
            i = i + 1;
            assert(self.ground_items@ =~= s.take(i as int).filter(pred));
        }
        proof {
            assert(s.take(i as int) =~= s);
        }
    }

    /// Every ground item, summarised for clients, oldest first.
    pub fn all_ground_items(&self) -> (r: Vec<(Coord, types::ItemStack)>)
        ensures
            r@ == self.view_seq().map_values(|g: GroundItem| ground_summary(g)),
    {
        let mut r: Vec<(Coord, types::ItemStack)> = Vec::new();
        let mut i: usize = 0;
        while i < self.ground_items.len()
            invariant
                i <= self.ground_items@.len(),
                r@ == self.ground_items@.take(i as int).map_values(
                    |g: GroundItem| ground_summary(g),
                ),
            decreases self.ground_items@.len() - i,
        {
            let g = &self.ground_items[i];
            r.push(
                (g.pos, types::ItemStack { item_id: g.stack.item.id, quantity: g.stack.quantity }),
            );
            i = i + 1;
            assert(r@ =~= self.ground_items@.take(i as int).map_values(
                |g: GroundItem| ground_summary(g),
            ));
        }
        assert(self.ground_items@.take(i as int) =~= self.ground_items@);
        r
    }
}

impl Default for ItemManager {
    fn default() -> (r: Self)
        ensures
            r.wf(),
            r.view_seq() == Seq::<GroundItem>::empty(),
            r.next_id_view() == 1,
    {
        Self::new()
    }
}

} // verus!
