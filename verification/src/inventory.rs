//! What a player has, and what they have selected.
//!
//! An inventory is a count per [`Item`] and nothing else — no slots to shuffle, no stack
//! size, no order to get wrong. Crafting is the one operation that both spends and makes:
//! [`Inventory::craft`] reads the recipe out of the registry, so a new recipe is a row in
//! that table and no code here changes.
//!
//! The host owns every inventory, its own included, and hands each player a copy of theirs
//! over the wire. A client never adds to its own pile: a local guess would have to be
//! rolled back the moment the host disagreed.
use vstd::prelude::*;
use crate::planning::lemma_plan_runs;
use crate::registry::{
    Fall, Item, ITEM_COUNT, Use, all_items, falling_spec, item_at, item_index, lemma_at_inverse,
    lemma_index_inverse, lemma_recipe_well_founded, most_needed, recipe_table, tier, top_tier,
    using_spec,
};

verus! {

broadcast use vstd::array::group_array_axioms;

/// One player's things: a count per item, indexed by [`Item::index`].
///
/// An array rather than a map, so every item has an answer and "not in the map" is not a
/// state anything has to handle.
#[derive(Debug, Clone, PartialEq, Eq)]
pub struct Inventory([u32; ITEM_COUNT]);

impl View for Inventory {
    type V = Seq<u32>;

    closed spec fn view(&self) -> Seq<u32> {
        self.0@
    }
}

/// How many of `item` a pile holds.
pub open spec fn count_of(s: Seq<u32>, item: Item) -> u32 {
    s[item_index(item)]
}

/// `a + n`, held at the largest count there is.
pub open spec fn sat_add(a: u32, n: u32) -> u32 {
    if a + n > u32::MAX {
        u32::MAX
    } else {
        (a + n) as u32
    }
}

/// A pile with `n` more of `item`, saturating.
pub open spec fn added(s: Seq<u32>, item: Item, n: u32) -> Seq<u32> {
    s.update(item_index(item), sat_add(count_of(s, item), n))
}

/// A pile with `n` fewer of `item`, when it holds that many.
pub open spec fn taken(s: Seq<u32>, item: Item, n: u32) -> Seq<u32> {
    s.update(item_index(item), (count_of(s, item) - n) as u32)
}

/// Does the pile hold every ingredient of a recipe, each in the number asked for?
pub open spec fn affords(s: Seq<u32>, r: Seq<(Item, u32)>) -> bool {
    forall|j: int| 0 <= j < r.len() ==> count_of(s, #[trigger] r[j].0) >= r[j].1
}

/// A pile after paying a recipe, ingredient by ingredient in recipe order.
pub open spec fn paid(s: Seq<u32>, r: Seq<(Item, u32)>) -> Seq<u32>
    decreases r.len(),
{
    if r.len() == 0 {
        s
    } else {
        taken(paid(s, r.drop_last()), r.last().0, r.last().1)
    }
}

/// One craft of `item` is possible: it has a recipe, and the pile holds all of it.
pub open spec fn can_craft_spec(s: Seq<u32>, item: Item) -> bool {
    recipe_table(item).len() > 0 && affords(s, recipe_table(item))
}

/// A pile after one craft of `item`: the recipe spent, one more of the thing.
pub open spec fn crafted(s: Seq<u32>, item: Item) -> Seq<u32> {
    added(paid(s, recipe_table(item)), item, 1)
}

/// A pile after trying each craft of `steps` in turn. A craft that cannot be paid for
/// changes nothing.
pub open spec fn apply_crafts(s: Seq<u32>, steps: Seq<Item>) -> Seq<u32>
    decreases steps.len(),
{
    if steps.len() == 0 {
        s
    } else {
        let before = apply_crafts(s, steps.drop_last());
        if can_craft_spec(before, steps.last()) {
            crafted(before, steps.last())
        } else {
            before
        }
    }
}

/// Every craft of `steps`, tried in turn from `s`, can be paid for when its turn comes.
pub open spec fn all_affordable(s: Seq<u32>, steps: Seq<Item>) -> bool {
    forall|k: int|
        0 <= k < steps.len() ==> #[trigger] can_craft_spec(
            apply_crafts(s, steps.take(k)),
            steps[k],
        )
}

/// A plan as it is being worked out: the shelf it draws on, the crafts so far, and what
/// ran short.
pub struct Planning {
    pub stock: Seq<u32>,
    pub steps: Seq<Item>,
    pub short: Seq<(Item, u32)>,
}

/// The shortfall list with one more `item` missing: its entry grows by one, or a new
/// entry is added at the end.
pub open spec fn bump(short: Seq<(Item, u32)>, item: Item) -> Seq<(Item, u32)>
    decreases short.len(),
{
    if short.len() == 0 {
        seq![(item, 1u32)]
    } else if short[0].0 == item {
        short.update(0, (item, sat_add(short[0].1, 1)))
    } else {
        seq![short[0]] + bump(short.drop_first(), item)
    }
}

/// Takes one `item` off the shelf, making it — and whatever it is made of — if the shelf
/// has none. What is made is made and spent at once: it never reaches the shelf.
pub open spec fn obtain_spec(st: Planning, item: Item) -> Planning
    decreases tier(item), 2nat, 0nat,
{
    if count_of(st.stock, item) >= 1 {
        Planning { stock: taken(st.stock, item, 1), ..st }
    } else if recipe_table(item).len() == 0 {
        Planning { short: bump(st.short, item), ..st }
    } else {
        let made = obtain_list(st, recipe_table(item), tier(item));
        Planning { steps: made.steps.push(item), ..made }
    }
}

/// [`obtain_spec`] `n` times over.
pub open spec fn obtain_rep(st: Planning, item: Item, n: nat, bound: nat) -> Planning
    decreases bound, 0nat, n,
{
    if n == 0 {
        st
    } else if tier(item) < bound {
        obtain_spec(obtain_rep(st, item, (n - 1) as nat, bound), item)
    } else {
        st
    }
}

/// Every ingredient of a recipe, each as many times as it is asked for, in recipe order.
pub open spec fn obtain_list(st: Planning, r: Seq<(Item, u32)>, bound: nat) -> Planning
    decreases bound, 1nat, r.len(),
{
    if r.len() == 0 {
        st
    } else {
        obtain_rep(obtain_list(st, r.drop_last(), bound), r.last().0, r.last().1 as nat, bound)
    }
}

/// Everything that has to happen for a player with pile `s` to end up holding one
/// `want`: the crafts in an order each can be paid for, and what to go and dig up.
pub open spec fn plan_spec(s: Seq<u32>, want: Item) -> Planning {
    let start = Planning { stock: s, steps: Seq::empty(), short: Seq::empty() };
    if recipe_table(want).len() == 0 {
        Planning { short: seq![(want, 1u32)], ..start }
    } else {
        let made = obtain_list(start, recipe_table(want), tier(want));
        Planning { steps: made.steps.push(want), ..made }
    }
}

/// Everything held, in declaration order, leaving out what there is none of.
pub open spec fn contents_spec(s: Seq<u32>) -> Seq<(Item, u32)> {
    all_items().filter(|i: Item| count_of(s, i) > 0).map_values(|i: Item| (i, count_of(s, i)))
}

/// A pile that holds exactly what a list says, the later of two entries for one item
/// winning, and nothing of what it does not mention.
pub open spec fn from_contents_spec(c: Seq<(Item, u32)>) -> Seq<u32>
    decreases c.len(),
{
    if c.len() == 0 {
        Seq::new(ITEM_COUNT as nat, |i: int| 0u32)
    } else {
        from_contents_spec(c.drop_last()).update(item_index(c.last().0), c.last().1)
    }
}


/// What [`contents_spec`] lists from the first `i` items alone.
pub open spec fn contents_upto(s: Seq<u32>, i: int) -> Seq<(Item, u32)> {
    all_items().take(i).filter(|it: Item| count_of(s, it) > 0).map_values(
        |it: Item| (it, count_of(s, it)),
    )
}

/// Listing one more item adds its entry at the end, if there is any of it.
proof fn lemma_contents_step(s: Seq<u32>, i: int)
    requires
        0 <= i < ITEM_COUNT,
    ensures
        contents_upto(s, i + 1) == (if count_of(s, item_at(i)) > 0 {
            contents_upto(s, i).push((item_at(i), count_of(s, item_at(i))))
        } else {
            contents_upto(s, i)
        }),
{
    let p = |it: Item| count_of(s, it) > 0;
    let f = |it: Item| (it, count_of(s, it));
    let pre = all_items().take(i + 1);
    reveal_with_fuel(Seq::filter, 1);
    assert(pre.drop_last() =~= all_items().take(i));
    assert(pre.last() == item_at(i));
    if count_of(s, item_at(i)) > 0 {
        assert(pre.filter(p) == all_items().take(i).filter(p).push(item_at(i)));
        assert(pre.filter(p).map_values(f) =~= all_items().take(i).filter(p).map_values(f).push(
            f(item_at(i)),
        ));
    } else {
        assert(pre.filter(p) == all_items().take(i).filter(p));
    }
}

/// What a pile rebuilt from the first `i` items' listing holds.
proof fn lemma_round_trip_upto(s: Seq<u32>, i: int)
    requires
        well_sized(s),
        0 <= i <= ITEM_COUNT,
    ensures
        well_sized(from_contents_spec(contents_upto(s, i))),
        forall|k: int|
            0 <= k < ITEM_COUNT ==> #[trigger] from_contents_spec(contents_upto(s, i))[k] == if k
                < i {
                s[k]
            } else {
                0u32
            },
    decreases i,
{
    if i == 0 {
        assert(contents_upto(s, 0) =~= Seq::<(Item, u32)>::empty());
    } else {
        lemma_round_trip_upto(s, i - 1);
        lemma_contents_step(s, i - 1);
        lemma_at_inverse(i - 1);
        let c = contents_upto(s, i);
        if count_of(s, item_at(i - 1)) > 0 {
            assert(c.drop_last() == contents_upto(s, i - 1));
        }
    }
}

/// The wire round trip: a pile rebuilt from its own listing is the pile it was, items it
/// has none of included.
pub proof fn lemma_contents_round_trip(s: Seq<u32>)
    requires
        well_sized(s),
    ensures
        from_contents_spec(contents_spec(s)) == s,
{
    lemma_round_trip_upto(s, ITEM_COUNT as int);
    assert(all_items().take(ITEM_COUNT as int) =~= all_items());
    assert(contents_upto(s, ITEM_COUNT as int) == contents_spec(s));
    assert(from_contents_spec(contents_spec(s)) =~= s);
}

/// How many of `g` a recipe asks for, over all of its entries.
pub open spec fn need_in(r: Seq<(Item, u32)>, g: Item) -> nat
    decreases r.len(),
{
    if r.len() == 0 {
        0
    } else {
        need_in(r.drop_last(), g) + if r.last().0 == g {
            r.last().1 as nat
        } else {
            0
        }
    }
}

/// No item appears twice in a recipe list.
pub open spec fn distinct_items(r: Seq<(Item, u32)>) -> bool {
    forall|j: int, k: int| 0 <= j < k < r.len() ==> r[j].0 != r[k].0
}

/// A pile has one count per item.
pub open spec fn well_sized(s: Seq<u32>) -> bool {
    s.len() == ITEM_COUNT
}

pub(crate) proof fn lemma_index_in_range(item: Item)
    ensures
        0 <= item_index(item) < ITEM_COUNT,
{
    lemma_index_inverse(item);
}

/// Paying a recipe touches only its ingredients, and keeps one count per item.
pub(crate) proof fn lemma_paid_frame(s: Seq<u32>, r: Seq<(Item, u32)>, g: Item)
    requires
        well_sized(s),
    ensures
        well_sized(paid(s, r)),
        (forall|j: int| 0 <= j < r.len() ==> r[j].0 != g) ==> count_of(paid(s, r), g) == count_of(
            s,
            g,
        ),
    decreases r.len(),
{
    if r.len() > 0 {
        lemma_paid_frame(s, r.drop_last(), g);
        lemma_index_in_range(r.last().0);
        lemma_index_in_range(g);
        if forall|j: int| 0 <= j < r.len() ==> r[j].0 != g {
            assert forall|j: int| 0 <= j < r.drop_last().len() implies r.drop_last()[j].0 != g by {
                assert(r.drop_last()[j] == r[j]);
            }
            assert(r[r.len() - 1].0 != g);
            lemma_index_inverse(g);
            lemma_index_inverse(r.last().0);
        }
    }
}

/// Paying a recipe the pile affords takes exactly what the recipe asks for of each item,
/// when no item appears in it twice.
pub(crate) proof fn lemma_paid_formula(s: Seq<u32>, r: Seq<(Item, u32)>, g: Item)
    requires
        well_sized(s),
        distinct_items(r),
        affords(s, r),
    ensures
        count_of(s, g) >= need_in(r, g),
        count_of(paid(s, r), g) == count_of(s, g) - need_in(r, g),
    decreases r.len(),
{
    if r.len() > 0 {
        let front = r.drop_last();
        assert forall|j: int, k: int| 0 <= j < k < front.len() implies front[j].0 != front[k].0 by {
            assert(front[j] == r[j] && front[k] == r[k]);
        }
        assert forall|j: int| 0 <= j < front.len() implies count_of(s, #[trigger] front[j].0)
            >= front[j].1 by {
            assert(front[j] == r[j]);
        }
        lemma_paid_formula(s, front, g);
        lemma_paid_formula(s, front, r.last().0);
        lemma_paid_frame(s, front, g);
        lemma_index_in_range(g);
        lemma_index_in_range(r.last().0);
        lemma_index_inverse(g);
        lemma_index_inverse(r.last().0);
        assert(count_of(s, r[r.len() - 1].0) >= r[r.len() - 1].1);
        lemma_need_absent(front, r.last().0);
        if r.last().0 == g {
            assert forall|j: int| 0 <= j < front.len() implies front[j].0 != g by {
                assert(front[j] == r[j]);
            }
        }
    }
}

/// An item a recipe never names is never needed by it.
pub(crate) proof fn lemma_need_absent(r: Seq<(Item, u32)>, g: Item)
    ensures
        (forall|j: int| 0 <= j < r.len() ==> r[j].0 != g) ==> need_in(r, g) == 0,
    decreases r.len(),
{
    if r.len() > 0 {
        if forall|j: int| 0 <= j < r.len() ==> r[j].0 != g {
            assert forall|j: int| 0 <= j < r.drop_last().len() implies r.drop_last()[j].0 != g by {
                assert(r.drop_last()[j] == r[j]);
            }
            assert(r[r.len() - 1].0 != g);
        }
        lemma_need_absent(r.drop_last(), g);
    }
}

/// What it takes to make one of something, out of what a player already has.
#[derive(Debug, Clone, PartialEq, Eq)]
pub struct Plan {
    /// Every craft to run, in an order each of them can be paid for. The thing that was
    /// asked for is the last one.
    pub steps: Vec<Item>,
    /// What ran out on the way: the gathered things to go and dig up, and how many more of
    /// each. Empty means the plan can be run right now.
    pub short: Vec<(Item, u32)>,
}

impl Default for Plan {
    fn default() -> (r: Plan)
        ensures
            r.steps@ == Seq::<Item>::empty(),
            r.short@ == Seq::<(Item, u32)>::empty(),
    {
        Plan { steps: Vec::new(), short: Vec::new() }
    }
}

/// The state of a plan being worked out, as the plan and the shelf it draws on.
pub open spec fn planning_of(shelf: Seq<u32>, plan: Plan) -> Planning {
    Planning { stock: shelf, steps: plan.steps@, short: plan.short@ }
}

/// Where `bump` lands when the first entry for `item` is at `j`, or past the end.
pub(crate) proof fn lemma_bump_at(s: Seq<(Item, u32)>, item: Item, j: int)
    requires
        0 <= j <= s.len(),
        forall|k: int| 0 <= k < j ==> s[k].0 != item,
        j < s.len() ==> s[j].0 == item,
    ensures
        j < s.len() ==> bump(s, item) == s.update(j, (item, sat_add(s[j].1, 1))),
        j == s.len() ==> bump(s, item) == s.push((item, 1u32)),
    decreases j,
{
    if j == 0 {
        if s.len() == 0 {
            assert(seq![(item, 1u32)] =~= s.push((item, 1u32)));
        }
    } else {
        let rest = s.drop_first();
        assert forall|k: int| 0 <= k < j - 1 implies rest[k].0 != item by {
            assert(rest[k] == s[k + 1]);
        }
        lemma_bump_at(rest, item, j - 1);
        assert(s[0].0 != item);
        if j < s.len() {
            assert(seq![s[0]] + rest.update(j - 1, (item, sat_add(rest[j - 1].1, 1))) =~= s.update(
                j,
                (item, sat_add(s[j].1, 1)),
            ));
        } else {
            assert(seq![s[0]] + rest.push((item, 1u32)) =~= s.push((item, 1u32)));
        }
    }
}

/// Counts one more `item` as missing.
fn bump_short(short: &mut Vec<(Item, u32)>, item: Item)
    ensures
        final(short)@ == bump(old(short)@, item),
{
    let mut j: usize = 0;
    while j < short.len()
        invariant
            j <= short@.len(),
            short@ == old(short)@,
            forall|k: int| 0 <= k < j ==> short@[k].0 != item,
        decreases short@.len() - j,
    {
        let (have, n) = short[j];
        if have == item {
            proof {
                lemma_bump_at(short@, item, j as int);
            }
            short.set(j, (item, n.saturating_add(1)));
            return;
        }
        j = j + 1;
    }
    proof {
        lemma_bump_at(short@, item, j as int);
    }
    short.push((item, 1));
}

/// Takes one `item` off the shelf, making it — and whatever *it* is made of — if the shelf
/// has none.
///
/// Recursion ends because every ingredient is a tier nearer the ground than what it goes
/// into: `lemma_recipe_well_founded` is what keeps that true.
fn obtain(shelf: &mut Inventory, item: Item, plan: &mut Plan)
    requires
        well_sized(old(shelf)@),
    ensures
        well_sized(final(shelf)@),
        planning_of(final(shelf)@, *final(plan)) == obtain_spec(planning_of(old(shelf)@, *old(plan)), item),
    decreases tier(item),
{
    let ghost st0 = planning_of(shelf@, *plan);
    if shelf.take(item, 1) {
        proof {
            lemma_index_in_range(item);
        }
        return;
    }
    proof {
        lemma_recipe_well_founded(item);
    }
    let recipe = item.recipe();
    if recipe.len() == 0 {
        bump_short(&mut plan.short, item);
        return;
    }
    let mut i: usize = 0;
    while i < recipe.len()
        invariant
            i <= recipe@.len(),
            recipe@ == recipe_table(item),
            recipe@.len() > 0,
            count_of(st0.stock, item) < 1,
            well_sized(shelf@),
            forall|j: int| 0 <= j < recipe@.len() ==> tier(#[trigger] recipe@[j].0) < tier(item),
            planning_of(shelf@, *plan) == obtain_list(st0, recipe@.take(i as int), tier(item)),
        decreases recipe@.len() - i,
    {
        let (g, n) = recipe[i];
        let ghost before = planning_of(shelf@, *plan);
        let mut k: u32 = 0;
        assert(tier(recipe@[i as int].0) < tier(item));
        while k < n
            invariant
                k <= n,
                tier(g) < tier(item),
                well_sized(shelf@),
                planning_of(shelf@, *plan) == obtain_rep(before, g, k as nat, tier(item)),
            decreases n - k,
        {
            obtain(shelf, g, plan);
            k = k + 1;
        }
        assert(recipe@.take(i + 1).drop_last() =~= recipe@.take(i as int));
        i = i + 1;
    }
    assert(recipe@.take(recipe@.len() as int) =~= recipe@);
    plan.steps.push(item);
}

impl Default for Inventory {
    /// You start with nothing. The first thing anyone does is break a block, and the
    /// second is find out that the block is now theirs.
    fn default() -> (r: Inventory)
        ensures
            r@ == Seq::new(ITEM_COUNT as nat, |i: int| 0u32),
    {
        Inventory::empty()
    }
}

/// Somebody asked to be made one of these, whatever it takes.
///
/// Written by the screen the player pressed the button on and read by whoever is entitled
/// to spend a pile: the host, or a peer's request to one.
#[derive(Debug, Clone, Copy, PartialEq, Eq, Structural)]
pub struct Craft(pub Item);

/// Which item the local player has selected: the hotbar cursor.
///
/// Separate from the inventory because you may point at something you have none of: that
/// is how you read its recipe and decide to make one.
#[derive(Debug, Clone, Copy, PartialEq, Eq, Structural)]
pub struct Held(pub Item);

impl Default for Held {
    /// The first thing in the registry.
    fn default() -> (r: Held)
        ensures
            r == Held(item_at(0)),
    {
        Held(Item::from_index(0))
    }
}

impl Inventory {
    /// A pile with nothing in it.
    pub fn empty() -> (r: Inventory)
        ensures
            r@ == Seq::new(ITEM_COUNT as nat, |i: int| 0u32),
    {
        let r = Inventory([0u32; ITEM_COUNT]);
        assert(r@ =~= Seq::new(ITEM_COUNT as nat, |i: int| 0u32));
        r
    }

    /// The same pile again.
    pub fn copy(&self) -> (r: Inventory)
        ensures
            r@ == self@,
    {
        Inventory(self.0)
    }


    /// Spends the recipe and adds one. False, and nothing spent, if anything is missing —
    /// and always false for something with no recipe: you go and find grass, you do not
    /// conjure it out of an empty hand.
    pub fn craft(&mut self, item: Item) -> (r: bool)
        ensures
            r == can_craft_spec(old(self)@, item),
            r ==> final(self)@ == crafted(old(self)@, item),
            !r ==> final(self)@ == old(self)@,
    {
        proof {
            lemma_recipe_well_founded(item);
        }
        let recipe = item.recipe();
        if recipe.len() == 0 {
            return false;
        }
        let mut j: usize = 0;
        while j < recipe.len()
            invariant
                j <= recipe@.len(),
                recipe@ == recipe_table(item),
                affords(self@, recipe@.take(j as int)),
                self@ == old(self)@,
            decreases recipe@.len() - j,
        {
            let (g, n) = recipe[j];
            if self.count(g) < n {
                assert(!affords(self@, recipe@));
                return false;
            }
            assert forall|k: int| 0 <= k < recipe@.take(j + 1).len() implies count_of(
                self@,
                #[trigger] recipe@.take(j + 1)[k].0,
            ) >= recipe@.take(j + 1)[k].1 by {
                if k < j {
                    assert(recipe@.take(j + 1)[k] == recipe@.take(j as int)[k]);
                }
            }
            j = j + 1;
        }
        assert(recipe@.take(recipe@.len() as int) =~= recipe@);
        let ghost s0 = self@;
        proof {
            self.lemma_well_sized();
        }
        let mut j: usize = 0;
        while j < recipe.len()
            invariant
                j <= recipe@.len(),
                recipe@ == recipe_table(item),
                affords(s0, recipe@),
                distinct_items(recipe@),
                well_sized(s0),
                self@ == paid(s0, recipe@.take(j as int)),
            decreases recipe@.len() - j,
        {
            let (g, n) = recipe[j];
            proof {
                assert forall|k: int| 0 <= k < recipe@.take(j as int).len() implies recipe@.take(
                    j as int,
                )[k].0 != g by {
                    assert(recipe@.take(j as int)[k] == recipe@[k]);
                }
                lemma_paid_frame(s0, recipe@.take(j as int), g);
                assert(count_of(s0, recipe@[j as int].0) >= recipe@[j as int].1);
            }
            let paid_ok = self.take(g, n);
            assert(paid_ok);
            assert(recipe@.take(j + 1).drop_last() =~= recipe@.take(j as int));
            j = j + 1;
        }
        assert(recipe@.take(recipe@.len() as int) =~= recipe@);
        self.add(item, 1);
        true
    }

    /// Could one `item` be crafted out of this pile right now?
    pub fn can_craft(&self, item: Item) -> (r: bool)
        ensures
            r == can_craft_spec(self@, item),
    {
        let recipe = item.recipe();
        if recipe.len() == 0 {
            return false;
        }
        let mut j: usize = 0;
        while j < recipe.len()
            invariant
                j <= recipe@.len(),
                recipe@ == recipe_table(item),
                affords(self@, recipe@.take(j as int)),
            decreases recipe@.len() - j,
        {
            let (g, n) = recipe[j];
            if self.count(g) < n {
                assert(!affords(self@, recipe@));
                return false;
            }
            assert forall|k: int| 0 <= k < recipe@.take(j + 1).len() implies count_of(
                self@,
                #[trigger] recipe@.take(j + 1)[k].0,
            ) >= recipe@.take(j + 1)[k].1 by {
                if k < j {
                    assert(recipe@.take(j + 1)[k] == recipe@.take(j as int)[k]);
                }
            }
            j = j + 1;
        }
        assert(recipe@.take(recipe@.len() as int) =~= recipe@);
        true
    }

    /// Everything that has to happen for this player to end up holding one `want`.
    ///
    /// The whole recipe graph is walked, not just the top row: asking for a car with ten
    /// stone and six wood in the pocket comes back with eight nails and then the car.
    /// What is already on the shelf is spent before anything is made — the nail you have
    /// is a nail you do not make — and the requested item itself is always made fresh,
    /// which is what asking to craft one means.
    pub fn plan(&self, want: Item) -> (r: Plan)
        ensures
            r.steps@ == plan_spec(self@, want).steps,
            r.short@ == plan_spec(self@, want).short,
    {
        let mut shelf = self.copy();
        let mut plan = Plan::default();
        proof {
            lemma_recipe_well_founded(want);
        }
        let recipe = want.recipe();
        if recipe.len() == 0 {
            plan.short.push((want, 1));
            assert(plan.short@ =~= seq![(want, 1u32)]);
            return plan;
        }
        let ghost st0 = planning_of(shelf@, plan);
        let mut i: usize = 0;
        while i < recipe.len()
            invariant
                i <= recipe@.len(),
                recipe@ == recipe_table(want),
                well_sized(shelf@),
                forall|j: int| 0 <= j < recipe@.len() ==> tier(#[trigger] recipe@[j].0) < tier(want),
                planning_of(shelf@, plan) == obtain_list(st0, recipe@.take(i as int), tier(want)),
            decreases recipe@.len() - i,
        {
            let (g, n) = recipe[i];
            let ghost before = planning_of(shelf@, plan);
            let mut k: u32 = 0;
            assert(tier(recipe@[i as int].0) < tier(want));
            while k < n
                invariant
                    k <= n,
                    tier(g) < tier(want),
                    well_sized(shelf@),
                    planning_of(shelf@, plan) == obtain_rep(before, g, k as nat, tier(want)),
                decreases n - k,
            {
                obtain(&mut shelf, g, &mut plan);
                k = k + 1;
            }
            assert(recipe@.take(i + 1).drop_last() =~= recipe@.take(i as int));
            i = i + 1;
        }
        assert(recipe@.take(recipe@.len() as int) =~= recipe@);
        plan.steps.push(want);
        plan
    }

    /// Runs [`Inventory::plan`] to the end, or changes nothing at all.
    ///
    /// All-or-nothing for the same reason [`Inventory::craft`] is: a child who asks for a
    /// car and gets six nails and no car has been charged for something they did not get.
    /// Returns what was made, in the order it was made, which is what the screen replays.
    pub fn build(&mut self, want: Item) -> (r: Vec<Item>)
        ensures
            plan_spec(old(self)@, want).short.len() == 0 ==> r@ == plan_spec(
                old(self)@,
                want,
            ).steps,
            plan_spec(old(self)@, want).short.len() > 0 ==> r@ == Seq::<Item>::empty(),
            final(self)@ == apply_crafts(old(self)@, r@),
            all_affordable(old(self)@, r@),
            r@.len() > 0 ==> count_of(final(self)@, want) == sat_add(count_of(old(self)@, want), 1),
    {
        let plan = self.plan(want);
        if plan.short.len() > 0 {
            let none: Vec<Item> = Vec::new();
            assert(apply_crafts(self@, none@) == self@);
            return none;
        }
        let ghost s0 = self@;
        proof {
            self.lemma_well_sized();
            lemma_plan_runs(s0, want);
        }
        let mut i: usize = 0;
        while i < plan.steps.len()
            invariant
                i <= plan.steps@.len(),
                plan.steps@ == plan_spec(s0, want).steps,
                all_affordable(s0, plan.steps@),
                self@ == apply_crafts(s0, plan.steps@.take(i as int)),
            decreases plan.steps@.len() - i,
        {
            let step = plan.steps[i];
            assert(can_craft_spec(apply_crafts(s0, plan.steps@.take(i as int)), plan.steps@[i as int]));
            let made = self.craft(step);
            assert(made);
            assert(plan.steps@.take(i + 1).drop_last() =~= plan.steps@.take(i as int));
            i = i + 1;
        }
        assert(plan.steps@.take(plan.steps@.len() as int) =~= plan.steps@);
        plan.steps
    }

    /// What is actually in this player's hand: the item they have selected, or nothing if
    /// they have none of it.
    ///
    /// Selection is a cursor over the whole registry (pointing at a car is how you read
    /// what a car costs), so pointing at one is not holding one.
    pub fn in_hand(&self, selected: Item) -> (r: Option<Item>)
        ensures
            r == (if count_of(self@, selected) > 0 {
                Some(selected)
            } else {
                None
            }),
    {
        if self.count(selected) > 0 {
            Some(selected)
        } else {
            None
        }
    }

    /// What the use button does for this player. A hand, unless they are holding a tool.
    pub fn using(&self, selected: Item) -> (r: Use)
        ensures
            r == (if count_of(self@, selected) > 0 {
                using_spec(selected)
            } else {
                Use::BareHand
            }),
    {
        match self.in_hand(selected) {
            Some(item) => item.using(),
            None => Use::BARE_HAND,
        }
    }

    /// How this player falls. Bare, unless they are actually holding an equippable: a
    /// parachute they have not built yet must not break the fall off the tower they built
    /// instead of building it.
    pub fn falling(&self, selected: Item) -> (r: Fall)
        ensures
            r == (if count_of(self@, selected) > 0 {
                falling_spec(selected)
            } else {
                Fall::Unaided
            }),
    {
        match self.in_hand(selected) {
            Some(item) => item.falling(),
            None => Fall::UNAIDED,
        }
    }

    /// Everything held, for the wire. Empty piles are left out: an inventory is mostly
    /// zeroes, and [`Inventory::from_contents`] starts from zero anyway.
    pub fn contents(&self) -> (r: Vec<(Item, u32)>)
        ensures
            r@ == contents_spec(self@),
    {
        let mut r: Vec<(Item, u32)> = Vec::new();
        let mut i: usize = 0;
        while i < ITEM_COUNT
            invariant
                i <= ITEM_COUNT,
                r@ == contents_upto(self@, i as int),
            decreases ITEM_COUNT - i,
        {
            let item = Item::from_index(i);
            let n = self.count(item);
            proof {
                lemma_contents_step(self@, i as int);
            }
            if n > 0 {
                r.push((item, n));
            }
            i = i + 1;
        }
        proof {
            assert(all_items().take(ITEM_COUNT as int) =~= all_items());
        }
        r
    }

    /// The whole inventory a host just sent. Absolute, never a delta: a lost or reordered
    /// update then cannot leave a client's pile drifting from the host's for ever. Where an
    /// item is listed twice the later count stands.
    pub fn from_contents(contents: Vec<(Item, u32)>) -> (r: Inventory)
        ensures
            r@ == from_contents_spec(contents@),
    {
        let mut inv = Inventory::empty();
        let mut j: usize = 0;
        while j < contents.len()
            invariant
                j <= contents@.len(),
                inv@ == from_contents_spec(contents@.take(j as int)),
            decreases contents@.len() - j,
        {
            let (item, n) = contents[j];
            let i = item.index();
            inv.0[i] = n;
            proof {
                assert(contents@.take(j + 1).drop_last() =~= contents@.take(j as int));
                assert(inv@ =~= from_contents_spec(contents@.take(j + 1)));
            }
            j = j + 1;
        }
        assert(contents@.take(contents@.len() as int) =~= contents@);
        inv
    }

    /// One count per item.
    pub proof fn lemma_well_sized(&self)
        ensures
            well_sized(self@),
    {
    }

    pub fn count(&self, item: Item) -> (r: u32)
        ensures
            r == count_of(self@, item),
    {
        self.0[item.index()]
    }

    /// Saturating, because a count that wraps to nothing after a long afternoon of digging
    /// is a worse bug than a pile that stops growing.
    pub fn add(&mut self, item: Item, n: u32)
        ensures
            final(self)@ == added(old(self)@, item, n),
    {
        let i = item.index();
        let slot = self.0[i];
        self.0[i] = slot.saturating_add(n);
        assert(self@ =~= added(old(self)@, item, n));
    }

    /// Spends `n`, or nothing at all and reports it. All-or-nothing so a half-paid recipe
    /// is not a state that exists.
    pub fn take(&mut self, item: Item, n: u32) -> (r: bool)
        ensures
            r == (count_of(old(self)@, item) >= n),
            r ==> final(self)@ == taken(old(self)@, item, n),
            !r ==> final(self)@ == old(self)@,
    {
        let i = item.index();
        let slot = self.0[i];
        match slot.checked_sub(n) {
            Some(left) => {
                self.0[i] = left;
                assert(self@ =~= taken(old(self)@, item, n));
                true
            },
            None => false,
        }
    }
}

} // verus!
