use vstd::prelude::*;
use vstd::string::*;

use crate::item::{GroundItem, ItemManager, ItemType};
use crate::text::str_equal;
use crate::types::Coord;

verus! {

/// How to make one thing: what it consumes and what it yields.
#[derive(Debug)]
pub struct Recipe {
    pub name: String,
    pub ingredients: Vec<(String, u32)>,
    pub result: (String, ItemType, u32),
}

/// The fixed book of recipes.
pub struct CraftingManager {
    recipes: Vec<Recipe>,
}

/// `k` is the first recipe of `s` named `name`.
pub open spec fn first_recipe(s: Seq<Recipe>, name: Seq<char>, k: int) -> bool {
    &&& 0 <= k < s.len()
    &&& s[k].name@ == name
    &&& forall|j: int| 0 <= j < k ==> s[j].name@ != name
}

/// `k` is the first entry of `s` named `name`.
pub open spec fn first_named(s: Seq<(String, u32)>, name: Seq<char>, k: int) -> bool {
    &&& 0 <= k < s.len()
    &&& s[k].0@ == name
    &&& forall|j: int| 0 <= j < k ==> s[j].0@ != name
}

/// Some entry of `available` has the ingredient's name and at least its quantity.
pub open spec fn ingredient_met(available: Seq<(String, u32)>, ing: (String, u32)) -> bool {
    exists|j: int| 0 <= j < available.len() && available[j].0@ == ing.0@ && available[j].1 >= ing.1
}

/// Every ingredient of `r` is met by `available`.
pub open spec fn recipe_met(r: Recipe, available: Seq<(String, u32)>) -> bool {
    forall|i: int| 0 <= i < r.ingredients@.len() ==> ingredient_met(available, #[trigger] r.ingredients@[i])
}

/// `available` after taking `q` (down to zero) from the first entry named `name`.
pub open spec fn consume_one(s: Seq<(String, u32)>, name: Seq<char>, q: u32) -> Seq<(String, u32)> {
    if exists|k: int| first_named(s, name, k) {
        let k = choose|k: int| first_named(s, name, k);
        s.update(k, (s[k].0, if s[k].1 >= q { (s[k].1 - q) as u32 } else { 0u32 }))
    } else {
        s
    }
}

/// `available` after consuming the first `n` ingredients in order.
pub open spec fn consume_prefix(s: Seq<(String, u32)>, ings: Seq<(String, u32)>, n: int) -> Seq<
    (String, u32),
>
    decreases n,
{
    if n <= 0 {
        s
    } else {
        consume_one(consume_prefix(s, ings, n - 1), ings[n - 1].0@, ings[n - 1].1)
    }
}

/// What `try_craft` leaves of `available`: every ingredient consumed, empty entries dropped.
pub open spec fn after_crafting(s: Seq<(String, u32)>, ings: Seq<(String, u32)>) -> Seq<(String, u32)> {
    consume_prefix(s, ings, ings.len() as int).filter(|p: (String, u32)| p.1 > 0)
}

proof fn lemma_first_named_unique(s: Seq<(String, u32)>, name: Seq<char>, a: int, b: int)
    requires
        first_named(s, name, a),
        first_named(s, name, b),
    ensures
        a == b,
{
}

/// The summed quantity of the entries of `s` named `name`.
pub open spec fn total_named(s: Seq<(String, u32)>, name: Seq<char>) -> int
    decreases s.len(),
{
    if s.len() == 0 {
        0
    } else {
        total_named(s.drop_last(), name) + if s.last().0@ == name {
            s.last().1 as int
        } else {
            0int
        }
    }
}

/// The quantity of the first entry of `s` named `name`, 0 when there is none.
pub open spec fn first_qty(s: Seq<(String, u32)>, name: Seq<char>) -> int
    decreases s.len(),
{
    if s.len() == 0 {
        0
    } else if s[0].0@ == name {
        s[0].1 as int
    } else {
        first_qty(s.drop_first(), name)
    }
}

/// The smaller of two integers.
pub open spec fn min_of(a: int, b: int) -> int {
    if a <= b {
        a
    } else {
        b
    }
}

proof fn lemma_total_update(s: Seq<(String, u32)>, k: int, v: (String, u32), name: Seq<char>)
    requires
        0 <= k < s.len(),
        v.0 == s[k].0,
    ensures
        total_named(s.update(k, v), name) == total_named(s, name) + if s[k].0@ == name {
            v.1 - s[k].1
        } else {
            0int
        },
    decreases s.len(),
{
    if k == s.len() - 1 {
        assert(s.update(k, v).drop_last() =~= s.drop_last());
    } else {
        lemma_total_update(s.drop_last(), k, v, name);
        assert(s.update(k, v).drop_last() =~= s.drop_last().update(k, v));
    }
}

proof fn lemma_first_qty_at(s: Seq<(String, u32)>, name: Seq<char>, k: int)
    requires
        first_named(s, name, k),
    ensures
        first_qty(s, name) == s[k].1,
    decreases s.len(),
{
    if k > 0 {
        assert(s[0].0@ != name);
        let t = s.drop_first();
        assert forall|j: int| 0 <= j < k - 1 implies t[j].0@ != name by {
            assert(t[j] == s[j + 1]);
        }
        lemma_first_qty_at(t, name, k - 1);
    }
}

proof fn lemma_first_qty_none(s: Seq<(String, u32)>, name: Seq<char>)
    requires
        forall|j: int| 0 <= j < s.len() ==> s[j].0@ != name,
    ensures
        first_qty(s, name) == 0,
        total_named(s, name) == 0,
    decreases s.len(),
{
    if s.len() > 0 {
        let t = s.drop_first();
        assert forall|j: int| 0 <= j < t.len() implies t[j].0@ != name by {
            assert(t[j] == s[j + 1]);
        }
        lemma_first_qty_none(t, name);
        let u = s.drop_last();
        assert forall|j: int| 0 <= j < u.len() implies u[j].0@ != name by {
            assert(u[j] == s[j]);
        }
        lemma_first_qty_none(u, name);
    }
}

/// Taking `q` of `name` lowers the total held under that name by the smaller of `q` and
/// what its first entry held, and leaves every other name's total and the number of
/// entries as they were.
pub proof fn lemma_consume_one_takes(s: Seq<(String, u32)>, name: Seq<char>, q: u32, other: Seq<char>)
    ensures
        consume_one(s, name, q).len() == s.len(),
        total_named(consume_one(s, name, q), name) == total_named(s, name) - min_of(
            q as int,
            first_qty(s, name),
        ),
        other != name ==> total_named(consume_one(s, name, q), other) == total_named(s, other),
        first_qty(consume_one(s, name, q), name) == first_qty(s, name) - min_of(q as int, first_qty(s, name)),
        other != name ==> first_qty(consume_one(s, name, q), other) == first_qty(s, other),
{
    if exists|k: int| first_named(s, name, k) {
        let k = choose|k: int| first_named(s, name, k);
        let v = (s[k].0, if s[k].1 >= q { (s[k].1 - q) as u32 } else { 0u32 });
        lemma_first_qty_at(s, name, k);
        lemma_total_update(s, k, v, name);
        lemma_total_update(s, k, v, other);
        let t = s.update(k, v);
        assert(first_named(t, name, k));
        lemma_first_qty_at(t, name, k);
        if other != name {
            lemma_first_qty_update_other(s, k, v, other);
        }
    } else {
        assert forall|j: int| 0 <= j < s.len() implies s[j].0@ != name by {
            if s[j].0@ == name {
                lemma_first_below_named(s, name, j);
            }
        }
        lemma_first_qty_none(s, name);
    }
}

proof fn lemma_first_below_named(s: Seq<(String, u32)>, name: Seq<char>, w: int)
    requires
        0 <= w < s.len(),
        s[w].0@ == name,
    ensures
        exists|k: int| first_named(s, name, k),
    decreases w,
{
    if exists|j: int| 0 <= j < w && s[j].0@ == name {
        let j = choose|j: int| 0 <= j < w && s[j].0@ == name;
        lemma_first_below_named(s, name, j);
    } else {
        assert(first_named(s, name, w));
    }
}

proof fn lemma_first_qty_update_other(s: Seq<(String, u32)>, k: int, v: (String, u32), other: Seq<char>)
    requires
        0 <= k < s.len(),
        v.0 == s[k].0,
        s[k].0@ != other,
    ensures
        first_qty(s.update(k, v), other) == first_qty(s, other),
    decreases s.len(),
{
    let t = s.update(k, v);
    if k > 0 {
        assert(t.drop_first() =~= s.drop_first().update(k - 1, v));
        assert(t[0] == s[0]);
        lemma_first_qty_update_other(s.drop_first(), k - 1, v, other);
    } else {
        assert(t.drop_first() =~= s.drop_first());
    }
}

/// No two ingredients of `ings` share a name.
pub open spec fn names_distinct(ings: Seq<(String, u32)>) -> bool {
    forall|a: int, b: int| 0 <= a < b < ings.len() ==> ings[a].0@ != ings[b].0@
}

proof fn lemma_prefix_takes(s: Seq<(String, u32)>, ings: Seq<(String, u32)>, n: int)
    requires
        0 <= n <= ings.len(),
        names_distinct(ings),
    ensures
        forall|i: int|
            0 <= i < n ==> total_named(consume_prefix(s, ings, n), #[trigger] ings[i].0@) == total_named(
                s,
                ings[i].0@,
            ) - min_of(ings[i].1 as int, first_qty(s, ings[i].0@)),
        forall|nm: Seq<char>|
            (forall|i: int| 0 <= i < n ==> ings[i].0@ != nm) ==> total_named(
                #[trigger] consume_prefix(s, ings, n),
                nm,
            ) == total_named(s, nm) && first_qty(consume_prefix(s, ings, n), nm) == first_qty(s, nm),
    decreases n,
{
    if n > 0 {
        lemma_prefix_takes(s, ings, n - 1);
        let prev = consume_prefix(s, ings, n - 1);
        let nm0 = ings[n - 1].0@;
        let q = ings[n - 1].1;
        assert(consume_prefix(s, ings, n) == consume_one(prev, nm0, q));
        lemma_consume_one_takes(prev, nm0, q, nm0);
        assert(forall|i: int| 0 <= i < n - 1 ==> ings[i].0@ != nm0);
        assert forall|i: int|
            0 <= i < n implies total_named(consume_prefix(s, ings, n), #[trigger] ings[i].0@)
            == total_named(s, ings[i].0@) - min_of(ings[i].1 as int, first_qty(s, ings[i].0@)) by {
            if i < n - 1 {
                lemma_consume_one_takes(prev, nm0, q, ings[i].0@);
            }
        }
        assert forall|nm: Seq<char>|
            (forall|i: int| 0 <= i < n ==> ings[i].0@ != nm) implies total_named(
                #[trigger] consume_prefix(s, ings, n),
                nm,
            ) == total_named(s, nm) && first_qty(consume_prefix(s, ings, n), nm) == first_qty(s, nm) by {
            assert(ings[n - 1].0@ != nm);
            assert(forall|i: int| 0 <= i < n - 1 ==> ings[i].0@ != nm);
            lemma_consume_one_takes(prev, nm0, q, nm);
        }
    }
}

proof fn lemma_filter_total(s: Seq<(String, u32)>, name: Seq<char>)
    ensures
        total_named(s.filter(|p: (String, u32)| p.1 > 0), name) == total_named(s, name),
    decreases s.len(),
{
    reveal_with_fuel(Seq::<_>::filter, 1);
    if s.len() > 0 {
        lemma_filter_total(s.drop_last(), name);
        let f = s.drop_last().filter(|p: (String, u32)| p.1 > 0);
        if s.last().1 > 0 {
            assert(f.push(s.last()).drop_last() =~= f);
        }
    }
}

/// Crafting uses up its ingredients: for a recipe whose ingredients have distinct names,
/// what `try_craft` leaves holds, under each ingredient's name, the old total less the
/// smaller of the needed quantity and what the first entry of that name held (so exactly
/// the needed quantity once that entry covers it); every other name keeps its total, and
/// no entry is left empty.
pub proof fn lemma_crafting_uses_up(s: Seq<(String, u32)>, ings: Seq<(String, u32)>)
    requires
        names_distinct(ings),
    ensures
        forall|i: int|
            0 <= i < ings.len() ==> total_named(after_crafting(s, ings), #[trigger] ings[i].0@)
                == total_named(s, ings[i].0@) - min_of(ings[i].1 as int, first_qty(s, ings[i].0@)),
        forall|nm: Seq<char>|
            (forall|i: int| 0 <= i < ings.len() ==> ings[i].0@ != nm) ==> #[trigger] total_named(
                after_crafting(s, ings),
                nm,
            ) == total_named(s, nm),
        forall|j: int| 0 <= j < after_crafting(s, ings).len() ==> #[trigger] after_crafting(s, ings)[j].1 > 0,
{
    let c = consume_prefix(s, ings, ings.len() as int);
    lemma_prefix_takes(s, ings, ings.len() as int);
    assert forall|i: int|
        0 <= i < ings.len() implies total_named(after_crafting(s, ings), #[trigger] ings[i].0@)
        == total_named(s, ings[i].0@) - min_of(ings[i].1 as int, first_qty(s, ings[i].0@)) by {
        lemma_filter_total(c, ings[i].0@);
    }
    assert forall|nm: Seq<char>|
        (forall|i: int| 0 <= i < ings.len() ==> ings[i].0@ != nm) implies #[trigger] total_named(
            after_crafting(s, ings),
            nm,
        ) == total_named(s, nm) by {
        lemma_filter_total(c, nm);
    }
    assert forall|j: int| 0 <= j < after_crafting(s, ings).len() implies #[trigger] after_crafting(s, ings)[j].1
        > 0 by {
        c.lemma_filter_pred(|p: (String, u32)| p.1 > 0, j);
    }
}

proof fn lemma_total_at_least(s: Seq<(String, u32)>, name: Seq<char>, j: int)
    requires
        0 <= j < s.len(),
        s[j].0@ == name,
    ensures
        total_named(s, name) >= s[j].1,
    decreases s.len(),
{
    lemma_total_nonneg(s.drop_last(), name);
    if j < s.len() - 1 {
        assert(s.drop_last()[j] == s[j]);
        lemma_total_at_least(s.drop_last(), name, j);
    }
}

proof fn lemma_total_nonneg(s: Seq<(String, u32)>, name: Seq<char>)
    ensures
        total_named(s, name) >= 0,
    decreases s.len(),
{
    if s.len() > 0 {
        lemma_total_nonneg(s.drop_last(), name);
    }
}

/// What crafting asks of the available items: a recipe counts as covered only when, for
/// each ingredient, the items held under its name add up to at least its quantity; and
/// it is covered whenever the first entry of each ingredient's name holds that much.
pub proof fn lemma_covered_means_enough(r: Recipe, s: Seq<(String, u32)>)
    ensures
        recipe_met(r, s) ==> forall|i: int|
            0 <= i < r.ingredients@.len() ==> total_named(s, (#[trigger] r.ingredients@[i]).0@)
                >= r.ingredients@[i].1,
        (forall|i: int|
            0 <= i < r.ingredients@.len() ==> first_qty(s, (#[trigger] r.ingredients@[i]).0@)
                >= r.ingredients@[i].1 && r.ingredients@[i].1 > 0) ==> recipe_met(r, s),
{
    if recipe_met(r, s) {
        assert forall|i: int| 0 <= i < r.ingredients@.len() implies total_named(
            s,
            (#[trigger] r.ingredients@[i]).0@,
        ) >= r.ingredients@[i].1 by {
            let ing = r.ingredients@[i];
            assert(ingredient_met(s, ing));
            let j = choose|j: int| 0 <= j < s.len() && s[j].0@ == ing.0@ && s[j].1 >= ing.1;
            lemma_total_at_least(s, ing.0@, j);
        }
    }
    if forall|i: int|
        0 <= i < r.ingredients@.len() ==> first_qty(s, (#[trigger] r.ingredients@[i]).0@)
            >= r.ingredients@[i].1 && r.ingredients@[i].1 > 0 {
        assert forall|i: int| 0 <= i < r.ingredients@.len() implies ingredient_met(
            s,
            #[trigger] r.ingredients@[i],
        ) by {
            let ing = r.ingredients@[i];
            assert(first_qty(s, ing.0@) >= ing.1 && ing.1 > 0);
            lemma_first_qty_witness(s, ing.0@);
        }
    }
}

proof fn lemma_first_qty_witness(s: Seq<(String, u32)>, name: Seq<char>)
    requires
        first_qty(s, name) > 0,
    ensures
        exists|j: int| 0 <= j < s.len() && s[j].0@ == name && s[j].1 == first_qty(s, name),
    decreases s.len(),
{
    if s[0].0@ != name {
        lemma_first_qty_witness(s.drop_first(), name);
        let j = choose|j: int|
            0 <= j < s.drop_first().len() && s.drop_first()[j].0@ == name && s.drop_first()[j].1 == first_qty(
                s.drop_first(),
                name,
            );
        assert(s[j + 1] == s.drop_first()[j]);
    } else {
        assert(s[0].0@ == name);
    }
}

fn find_named(s: &Vec<(String, u32)>, name: &str) -> (r: Option<usize>)
    ensures
        match r {
            Some(k) => first_named(s@, name@, k as int),
            None => forall|j: int| 0 <= j < s@.len() ==> s@[j].0@ != name@,
        },
{
    let mut i: usize = 0;
    while i < s.len()
        invariant
            i <= s@.len(),
            forall|j: int| 0 <= j < i ==> s@[j].0@ != name@,
        decreases s@.len() - i,
    {
        if str_equal(s[i].0.as_str(), name) {
            return Some(i);
        }
        i = i + 1;
    }
    None
}

fn ingredient(name: &str, q: u32) -> (r: (String, u32))
    ensures
        r.0@ == name@,
        r.1 == q,
{
    (String::from_str(name), q)
}

impl CraftingManager {
    /// The recipes, in book order.
    pub closed spec fn recipes_view(&self) -> Seq<Recipe> {
        self.recipes@
    }

    /// The book: Bandage, Torch, Improvised Weapon and Trail Mix.
    pub fn new() -> (r: Self)
        ensures
            r.recipes_view().len() == 4,
            r.recipes_view()[0].name@ == "Bandage"@,
            r.recipes_view()[0].ingredients@.len() == 1,
            r.recipes_view()[0].ingredients@[0].0@ == "Cloth"@,
            r.recipes_view()[0].ingredients@[0].1 == 2,
            r.recipes_view()[0].result.0@ == "Bandage"@,
            r.recipes_view()[0].result.1 == (ItemType::Potion { heal: 10 }),
            r.recipes_view()[0].result.2 == 1,
            r.recipes_view()[1].name@ == "Torch"@,
            r.recipes_view()[1].ingredients@.len() == 2,
            r.recipes_view()[1].ingredients@[0].0@ == "Stick"@,
            r.recipes_view()[1].ingredients@[0].1 == 1,
            r.recipes_view()[1].ingredients@[1].0@ == "Cloth"@,
            r.recipes_view()[1].ingredients@[1].1 == 1,
            r.recipes_view()[1].result.0@ == "Torch"@,
            r.recipes_view()[1].result.1 matches ItemType::Scroll { effect } && effect@ == "light"@,
            r.recipes_view()[1].result.2 == 1,
            r.recipes_view()[2].name@ == "Improvised Weapon"@,
            r.recipes_view()[2].ingredients@.len() == 2,
            r.recipes_view()[2].ingredients@[0].0@ == "Stick"@,
            r.recipes_view()[2].ingredients@[0].1 == 2,
            r.recipes_view()[2].ingredients@[1].0@ == "Stone"@,
            r.recipes_view()[2].ingredients@[1].1 == 1,
            r.recipes_view()[2].result.0@ == "Club"@,
            r.recipes_view()[2].result.1 == (ItemType::Weapon { damage: 4, attack_bonus: 0 }),
            r.recipes_view()[2].result.2 == 1,
            r.recipes_view()[3].name@ == "Trail Mix"@,
            r.recipes_view()[3].ingredients@.len() == 2,
            r.recipes_view()[3].ingredients@[0].0@ == "Berries"@,
            r.recipes_view()[3].ingredients@[0].1 == 2,
            r.recipes_view()[3].ingredients@[1].0@ == "Nuts"@,
            r.recipes_view()[3].ingredients@[1].1 == 1,
            r.recipes_view()[3].result.0@ == "Trail Mix"@,
            r.recipes_view()[3].result.1 == (ItemType::Food { nutrition: 40 }),
            r.recipes_view()[3].result.2 == 1,
    {
        let mut recipes: Vec<Recipe> = Vec::new();

        let mut ing: Vec<(String, u32)> = Vec::new();
        ing.push(ingredient("Cloth", 2));
        recipes.push(
            Recipe {
                name: String::from_str("Bandage"),
                ingredients: ing,
                result: (String::from_str("Bandage"), ItemType::Potion { heal: 10 }, 1),
            },
        );

        let mut ing: Vec<(String, u32)> = Vec::new();
        ing.push(ingredient("Stick", 1));
        ing.push(ingredient("Cloth", 1));
        recipes.push(
            Recipe {
                name: String::from_str("Torch"),
                ingredients: ing,
                result: (
                    String::from_str("Torch"),
                    ItemType::Scroll { effect: String::from_str("light") },
                    1,
                ),
            },
        );

        let mut ing: Vec<(String, u32)> = Vec::new();
        ing.push(ingredient("Stick", 2));
        ing.push(ingredient("Stone", 1));
        recipes.push(
            Recipe {
                name: String::from_str("Improvised Weapon"),
                ingredients: ing,
                result: (String::from_str("Club"), ItemType::Weapon { damage: 4, attack_bonus: 0 }, 1),
            },
        );

        let mut ing: Vec<(String, u32)> = Vec::new();
        ing.push(ingredient("Berries", 2));
        ing.push(ingredient("Nuts", 1));
        recipes.push(
            Recipe {
                name: String::from_str("Trail Mix"),
                ingredients: ing,
                result: (String::from_str("Trail Mix"), ItemType::Food { nutrition: 40 }, 1),
            },
        );

        CraftingManager { recipes }
    }

    /// The first recipe with the given name.
    pub fn get_recipe(&self, name: &str) -> (r: Option<&Recipe>)
        ensures
            match r {
                Some(rec) => exists|k: int|
                    first_recipe(self.recipes_view(), name@, k) && *rec == self.recipes_view()[k],
                None => forall|j: int|
                    0 <= j < self.recipes_view().len() ==> self.recipes_view()[j].name@ != name@,
            },
    {
        let mut i: usize = 0;
        while i < self.recipes.len()
            invariant
                i <= self.recipes@.len(),
                forall|j: int| 0 <= j < i ==> self.recipes@[j].name@ != name@,
            decreases self.recipes@.len() - i,
        {
            if str_equal(self.recipes[i].name.as_str(), name) {
                assert(first_recipe(self.recipes_view(), name@, i as int));
                return Some(&self.recipes[i]);
            }
            i = i + 1;
        }
        None
    }

    /// Every recipe, in book order.
    pub fn all_recipes(&self) -> (r: &[Recipe])
        ensures
            r@ == self.recipes_view(),
    {
        self.recipes.as_slice()
    }

    /// Whether the recipe named `name` exists and `available_items` covers each of its
    /// ingredients with a single entry of that name holding enough.
    pub fn can_craft(&self, name: &str, available_items: &[(String, u32)]) -> (r: bool)
        ensures
            r == exists|k: int|
                first_recipe(self.recipes_view(), name@, k) && recipe_met(
                    self.recipes_view()[k],
                    available_items@,
                ),
    {
        match self.get_recipe(name) {
            Some(recipe) => {
                let ghost k = choose|k: int|
                    first_recipe(self.recipes_view(), name@, k) && *recipe
                        == self.recipes_view()[k];
                let mut i: usize = 0;
                while i < recipe.ingredients.len()
                    invariant
                        i <= recipe.ingredients@.len(),
                        first_recipe(self.recipes_view(), name@, k),
                        *recipe == self.recipes_view()[k],
                        forall|j: int|
                            0 <= j < i ==> ingredient_met(
                                available_items@,
                                #[trigger] recipe.ingredients@[j],
                            ),
                    decreases recipe.ingredients@.len() - i,
                {
                    let (ing_name, ing_qty) = (&recipe.ingredients[i].0, recipe.ingredients[i].1);
                    let mut found = false;
                    let mut j: usize = 0;
                    while j < available_items.len()
                        invariant
                            j <= available_items@.len(),
                            found == exists|t: int|
                                0 <= t < j && available_items@[t].0@ == ing_name@
                                    && available_items@[t].1 >= ing_qty,
                        decreases available_items@.len() - j,
                    {
                        if str_equal(available_items[j].0.as_str(), ing_name.as_str())
                            && available_items[j].1 >= ing_qty {
                            found = true;
                        }
                        j = j + 1;
                    }
                    if !found {
                        proof {
                            assert forall|k2: int|
                                first_recipe(self.recipes_view(), name@, k2) implies !recipe_met(
                                self.recipes_view()[k2],
                                available_items@,
                            ) by {
                                assert(k2 == k);
                                assert(!ingredient_met(available_items@, recipe.ingredients@[i as int]));
                            }
                        }
                        return false;
                    }
                    i = i + 1;
                }
                assert(recipe_met(self.recipes_view()[k], available_items@));
                true
            },
            None => false,
        }
    }
}

impl Default for CraftingManager {
    fn default() -> (r: Self)
        ensures
            r.recipes_view().len() == 4,
    {
        Self::new()
    }
}

impl ItemManager {
    /// Craft the recipe named `recipe_name` from `available_items`: when the recipe exists
    /// and its ingredients are covered, consume them, drop entries left empty, put the
    /// result on the ground at (x, y) and return its name; otherwise change nothing and
    /// return `None`.
    pub fn try_craft(
        &mut self,
        recipe_name: &str,
        available_items: &mut Vec<(String, u32)>,
        x: i32,
        y: i32,
        crafting: &CraftingManager,
    ) -> (r: Option<String>)
        requires
            old(self).wf(),
            (exists|k: int|
                first_recipe(crafting.recipes_view(), recipe_name@, k) && recipe_met(
                    crafting.recipes_view()[k],
                    old(available_items)@,
                )) ==> old(self).next_id_view() < u32::MAX,
        ensures
            final(self).wf(),
            r is Some == exists|k: int|
                first_recipe(crafting.recipes_view(), recipe_name@, k) && recipe_met(
                    crafting.recipes_view()[k],
                    old(available_items)@,
                ),
            r is None ==> *final(self) == *old(self) && final(available_items)@ == old(
                available_items,
            )@,
            forall|k: int|
                first_recipe(crafting.recipes_view(), recipe_name@, k) && r is Some ==> {
                    let rec = crafting.recipes_view()[k];
                    &&& r->0@ == rec.result.0@
                    &&& final(available_items)@ == after_crafting(
                        old(available_items)@,
                        rec.ingredients@,
                    )
                    &&& final(self).next_id_view() == old(self).next_id_view() + 1
                    &&& final(self).view_seq().drop_last() == old(self).view_seq()
                    &&& final(self).view_seq().len() == old(self).view_seq().len() + 1
                    &&& final(self).view_seq().last().stack.item.id == old(self).next_id_view()
                    &&& final(self).view_seq().last().stack.item.name@ == rec.result.0@
                    &&& final(self).view_seq().last().stack.item.item_type == rec.result.1
                    &&& final(self).view_seq().last().stack.quantity == rec.result.2
                    &&& final(self).view_seq().last().pos == Coord { x, y }
                },
    {
        let recipe = match crafting.get_recipe(recipe_name) {
            Some(r) => r,
            None => {
                return None;
            },
        };
        let ghost k = choose|k: int|
            first_recipe(crafting.recipes_view(), recipe_name@, k) && *recipe
                == crafting.recipes_view()[k];
        if !crafting.can_craft(recipe_name, available_items.as_slice()) {
            return None;
        }
        proof {
            assert forall|k2: int| first_recipe(crafting.recipes_view(), recipe_name@, k2) implies k2
                == k by {}
        }
        let ghost orig = available_items@;
        let mut i: usize = 0;
        while i < recipe.ingredients.len()
            invariant
                i <= recipe.ingredients@.len(),
                available_items@ == consume_prefix(orig, recipe.ingredients@, i as int),
            decreases recipe.ingredients@.len() - i,
        {
            let ing_qty = recipe.ingredients[i].1;
            let ghost before = available_items@;
            match find_named(available_items, recipe.ingredients[i].0.as_str()) {
                Some(j) => {
                    let (n, q) = available_items.remove(j);
                    let nq = q.saturating_sub(ing_qty);
                    available_items.insert(j, (n, nq));
                    proof {
                        let nm = recipe.ingredients@[i as int].0@;
                        assert forall|k2: int| first_named(before, nm, k2) implies k2 == j as int by {
                            lemma_first_named_unique(before, nm, k2, j as int);
                        }
                        assert(available_items@ =~= consume_one(before, nm, ing_qty));
                    }
                },
                None => {
                    proof {
                        let nm = recipe.ingredients@[i as int].0@;
                        assert(!exists|k2: int| first_named(before, nm, k2));
                    }
                },
            }
            i = i + 1;
        }
        let ghost consumed = available_items@;
        let mut kept: Vec<(String, u32)> = Vec::new();
        let mut t: usize = 0;
        let ghost pred = |p: (String, u32)| p.1 > 0;
        while t < available_items.len()
            invariant
                t <= available_items@.len(),
                available_items@ == consumed,
                pred == (|p: (String, u32)| p.1 > 0),
                kept@ == consumed.take(t as int).filter(pred),
            decreases available_items@.len() - t,
        {
            proof {
                reveal_with_fuel(Seq::<_>::filter, 1);
                assert(consumed.take(t + 1).drop_last() =~= consumed.take(t as int));
            }
            if available_items[t].1 > 0 {
                kept.push((available_items[t].0.clone(), available_items[t].1));
            }
            t = t + 1;
            assert(kept@ =~= consumed.take(t as int).filter(pred));
        }
        assert(consumed.take(t as int) =~= consumed);
        *available_items = kept;
        let name = &recipe.result.0;
        self.spawn_ground(name.as_str(), recipe.result.1.clone(), Coord::new(x, y), recipe.result.2);
        Some(name.clone())
    }
}

} // verus!
