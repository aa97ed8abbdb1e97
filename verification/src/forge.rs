//! The Forge: the recipe graph around one item, as shelves of things with strings between
//! them.
//!
//! The thing in the middle hangs on tier zero, what it is made of hangs below it, and what
//! *it* goes into hangs above. Every node is placed by its *longest* path from the focus,
//! so every string runs strictly upward and a part used by two different products is one
//! node with two strings leaving it: a second parent adds a string, never a copy.
//!
//! Where on a shelf a node is drawn is the game's business; which shelf it is on, and
//! which strings there are, is decided here.
use vstd::prelude::*;
use crate::inventory::{Inventory, can_craft_spec, count_of};
use crate::craftgraph::{made_of, made_of_any};
use crate::registry::{
    ITEM_COUNT, Item, all_items, item_at, item_index, lemma_at_inverse, lemma_index_inverse,
    lemma_recipe_well_founded, recipe_table, tier, top_tier,
};

verus! {

/// The larger of two answers, where no answer loses to any.
pub open spec fn higher(a: Option<int>, b: Option<int>) -> Option<int> {
    match (a, b) {
        (Some(x), Some(y)) => Some(if x >= y { x } else { y }),
        (Some(x), None) => Some(x),
        (None, _) => b,
    }
}

/// How many crafts the longest chain from `item` down to `focus` takes, if `item` is made
/// out of `focus` at all (or is it).
pub open spec fn chain_down(item: Item, focus: Item) -> Option<int>
    decreases tier(item), 1nat, 0nat,
{
    if item == focus {
        Some(0)
    } else {
        chain_over(recipe_table(item), focus, tier(item))
    }
}

/// The longest chain down to `focus` through any of a recipe's ingredients, one craft
/// longer than the ingredient's own.
pub open spec fn chain_over(r: Seq<(Item, u32)>, focus: Item, bound: nat) -> Option<int>
    decreases bound, 0nat, r.len(),
{
    if r.len() == 0 {
        None
    } else {
        let g = r.last().0;
        let here = if tier(g) < bound {
            match chain_down(g, focus) {
                Some(k) => Some(k + 1),
                None => None,
            }
        } else {
            None
        };
        higher(chain_over(r.drop_last(), focus, bound), here)
    }
}

/// Does one `p` take some `x`?
pub open spec fn needs(p: Item, x: Item) -> bool {
    exists|j: int| 0 <= j < recipe_table(p).len() && #[trigger] recipe_table(p)[j].0 == x
}

/// The shelf `x` is drawn on around `focus`, if it is drawn at all: as far above the focus
/// as its longest chain down to it, and at least one below everything drawn that takes it.
pub open spec fn shelf(x: Item, focus: Item) -> Option<int>
    decreases (top_tier() - tier(x)) as nat, 1nat, 0nat,
{
    let up = match chain_down(x, focus) {
        Some(k) => Some(-k),
        None => None,
    };
    higher(up, under(x, focus, ITEM_COUNT as nat, tier(x)))
}

/// One below the lowest shelf of any of the first `k` items that takes `x`.
pub open spec fn under(x: Item, focus: Item, k: nat, t: nat) -> Option<int>
    decreases (top_tier() - t) as nat, 0nat, k,
{
    if k == 0 {
        None
    } else {
        let p = item_at(k - 1);
        let here = if t < tier(p) <= top_tier() && needs(p, x) {
            match shelf(p, focus) {
                Some(v) => Some(v + 1),
                None => None,
            }
        } else {
            None
        };
        higher(under(x, focus, (k - 1) as nat, t), here)
    }
}

/// The test for standing on shelf `t`.
pub open spec fn on_tier(focus: Item, t: int) -> spec_fn(Item) -> bool {
    |i: Item| shelf(i, focus) == Some(t)
}

/// Everything on one shelf, in registry order, so the same graph lays out the same way
/// every time it is built.
pub open spec fn on_shelf(focus: Item, t: int) -> Seq<Item> {
    all_items().filter(on_tier(focus, t))
}

/// The shelves above tier `t`, from the top one, leaving out the empty ones.
pub open spec fn shelves_upto(focus: Item, t: int) -> Seq<Seq<Item>>
    decreases t + 2,
{
    if t <= -2 {
        Seq::empty()
    } else if on_shelf(focus, t - 1).len() > 0 {
        shelves_upto(focus, t - 1).push(on_shelf(focus, t - 1))
    } else {
        shelves_upto(focus, t - 1)
    }
}

/// The shelves from tier `t` down to the bottom one, leaving out the empty ones.
pub open spec fn shelves_from(focus: Item, t: int) -> Seq<Seq<Item>>
    decreases 3 - t,
{
    if t > 2 {
        Seq::empty()
    } else if on_shelf(focus, t).len() > 0 {
        seq![on_shelf(focus, t)] + shelves_from(focus, t + 1)
    } else {
        shelves_from(focus, t + 1)
    }
}

/// Every shelf of the rig around `focus`, topmost first.
pub open spec fn shelves(focus: Item) -> Seq<Seq<Item>> {
    shelves_from(focus, -2)
}

/// Everything on the rig, shelf by shelf: node `i` is the `i`-th of these.
pub open spec fn laid(focus: Item) -> Seq<Item> {
    shelves(focus).flatten()
}

/// One item, placed.
#[derive(Debug, Clone, Copy, PartialEq, Eq, Structural)]
pub struct Node {
    pub item: Item,
    /// Which shelf it landed on. Lower numbers are higher up and are the things made
    /// *from* what is below them; the focus is `0`.
    pub tier: i32,
}

/// One recipe line, drawn as a string from the part up to the product.
#[derive(Debug, Clone, Copy, PartialEq, Eq, Structural)]
pub struct Wire {
    /// Index of the ingredient node, always on a lower shelf than `to`.
    pub from: usize,
    pub to: usize,
    /// How many of `from` one `to` costs.
    pub need: u32,
}

/// Where `item` first sits among the nodes, when it is there.
pub open spec fn node_of(nodes: Seq<Item>, item: Item) -> int {
    choose|i: int| 0 <= i < nodes.len() && nodes[i] == item && forall|j: int| 0 <= j < i ==> nodes[j] != item
}

/// The strings into the first `n` nodes: for each node in turn, one per ingredient of its
/// recipe that has a node, in recipe order.
pub open spec fn wires_upto(nodes: Seq<Item>, focus: Item, n: nat) -> Seq<Wire>
    decreases n,
{
    if n == 0 {
        Seq::empty()
    } else {
        wires_upto(nodes, focus, (n - 1) as nat) + wires_into(nodes, focus, (n - 1) as nat)
    }
}

/// The test for a recipe entry whose ingredient has a node.
pub open spec fn has_node(nodes: Seq<Item>) -> spec_fn((Item, u32)) -> bool {
    |e: (Item, u32)| nodes.contains(e.0)
}

/// The string a recipe entry of node `to` is drawn as.
pub open spec fn wire_to(nodes: Seq<Item>, to: nat) -> spec_fn((Item, u32)) -> Wire {
    |e: (Item, u32)| Wire { from: node_of(nodes, e.0) as usize, to: to as usize, need: e.1 }
}

/// The strings into node `to`.
pub open spec fn wires_into(nodes: Seq<Item>, focus: Item, to: nat) -> Seq<Wire> {
    recipe_table(nodes[to as int]).filter(has_node(nodes)).map_values(wire_to(nodes, to))
}

/// What is on each node, in node order.
pub open spec fn node_items(nodes: Seq<Node>) -> Seq<Item> {
    nodes.map_values(|n: Node| n.item)
}

/// The focus, everything it is transitively made of, and everything it goes into.
#[derive(Debug, PartialEq, Eq)]
pub struct Graph {
    pub nodes: Vec<Node>,
    pub wires: Vec<Wire>,
    /// Node indices shelf by shelf, topmost shelf first.
    pub rows: Vec<Vec<usize>>,
    /// Where in `rows` the focus is.
    pub focus: (usize, usize),
}

/// The longest chain from `item` down to `focus`.
fn chain(item: Item, focus: Item) -> (r: Option<i32>)
    ensures
        match r {
            Some(k) => chain_down(item, focus) == Some(k as int),
            None => chain_down(item, focus) is None,
        },
        r is Some ==> 0 <= r->0 <= tier(item),
    decreases tier(item),
{
    if item == focus {
        return Some(0);
    }
    proof {
        lemma_recipe_well_founded(item);
    }
    let recipe = item.recipe();
    let mut best: Option<i32> = None;
    let mut j: usize = 0;
    while j < recipe.len()
        invariant
            j <= recipe@.len(),
            item != focus,
            recipe@ == recipe_table(item),
            forall|k: int| 0 <= k < recipe@.len() ==> tier(#[trigger] recipe@[k].0) < tier(item),
            tier(item) <= top_tier(),
            match best {
                Some(b) => chain_over(recipe@.take(j as int), focus, tier(item)) == Some(b as int) && 1 <= b <= tier(item),
                None => chain_over(recipe@.take(j as int), focus, tier(item)) is None,
            },
        decreases recipe@.len() - j,
    {
        let (g, _) = recipe[j];
        proof {
            assert(recipe@.take(j + 1).drop_last() =~= recipe@.take(j as int));
            assert(recipe@.take(j + 1).last() == recipe@[j as int]);
            assert(tier(recipe@[j as int].0) < tier(item));
        }
        match chain(g, focus) {
            Some(k) => {
                let here = k + 1;
                best = match best {
                    Some(b) => if b >= here {
                        Some(b)
                    } else {
                        Some(here)
                    },
                    None => Some(here),
                };
            },
            None => {},
        }
        j = j + 1;
    }
    assert(recipe@.take(recipe@.len() as int) =~= recipe@);
    best
}

/// Does one `p` take some `x`?
fn takes(p: Item, x: Item) -> (r: bool)
    ensures
        r == needs(p, x),
{
    let recipe = p.recipe();
    let mut j: usize = 0;
    while j < recipe.len()
        invariant
            j <= recipe@.len(),
            recipe@ == recipe_table(p),
            forall|k: int| 0 <= k < j ==> recipe@[k].0 != x,
        decreases recipe@.len() - j,
    {
        if recipe[j].0 == x {
            assert(recipe_table(p)[j as int].0 == x);
            return true;
        }
        j = j + 1;
    }
    false
}

/// The shelf `x` is drawn on around `focus`.
fn shelf_of(x: Item, focus: Item) -> (r: Option<i32>)
    ensures
        match r {
            Some(v) => shelf(x, focus) == Some(v as int),
            None => shelf(x, focus) is None,
        },
        r is Some ==> -2 <= r->0 && r->0 + tier(x) <= 2,
    decreases (top_tier() - tier(x)) as nat,
{
    proof {
        lemma_recipe_well_founded(x);
    }
    let up: Option<i32> = match chain(x, focus) {
        Some(k) => Some(-k),
        None => None,
    };
    let mut below: Option<i32> = None;
    let mut k: usize = 0;
    while k < ITEM_COUNT
        invariant
            k <= ITEM_COUNT,
            tier(x) <= top_tier(),
            match below {
                Some(b) => under(x, focus, k as nat, tier(x)) == Some(b as int) && -1 <= b && b + tier(x) <= 2,
                None => under(x, focus, k as nat, tier(x)) is None,
            },
        decreases ITEM_COUNT - k,
    {
        let p = Item::from_index(k);
        proof {
            lemma_recipe_well_founded(p);
        }
        if tier_of(x) < tier_of(p) && takes(p, x) {
            match shelf_of(p, focus) {
                Some(v) => {
                    let here = v + 1;
                    below = match below {
                        Some(b) => if b >= here {
                            Some(b)
                        } else {
                            Some(here)
                        },
                        None => Some(here),
                    };
                },
                None => {},
            }
        }
        k = k + 1;
    }
    match (up, below) {
        (Some(a), Some(b)) => Some(if a >= b { a } else { b }),
        (Some(a), None) => Some(a),
        (None, _) => below,
    }
}

/// How many crafts an item is from the ground, along its longest chain.
fn tier_of(item: Item) -> (r: u32)
    ensures
        r == tier(item),
{
    match item {
        Item::Cushion | Item::Nail => 1,
        Item::Hammer | Item::Drill | Item::Handgun | Item::Rifle | Item::Parachute | Item::Car => 2,
        _ => 0,
    }
}

/// The shelves above `t` and from `t` on are all of them.
proof fn lemma_shelves_split(focus: Item, t: int)
    requires
        -2 <= t <= 3,
    ensures
        shelves_upto(focus, t) + shelves_from(focus, t) == shelves(focus),
    decreases t + 2,
{
    if t == -2 {
        assert(shelves_upto(focus, t) + shelves_from(focus, t) =~= shelves(focus));
    } else {
        lemma_shelves_split(focus, t - 1);
        if on_shelf(focus, t - 1).len() > 0 {
            assert(shelves_upto(focus, t - 1) + shelves_from(focus, t - 1) =~= shelves_upto(
                focus,
                t,
            ) + shelves_from(focus, t));
        }
    }
}

/// A chain down to the focus is never longer than the tiers it crosses.
proof fn lemma_chain_bound(x: Item, focus: Item)
    ensures
        chain_down(x, focus) is Some ==> tier(focus) + chain_down(x, focus)->0 <= tier(x),
        chain_down(x, focus) is Some ==> chain_down(x, focus)->0 >= 0,
    decreases tier(x), 1nat, 0nat,
{
    if x != focus {
        lemma_recipe_well_founded(x);
        lemma_chain_over_bound(recipe_table(x), focus, tier(x));
    }
}

proof fn lemma_chain_over_bound(r: Seq<(Item, u32)>, focus: Item, bound: nat)
    ensures
        chain_over(r, focus, bound) is Some ==> tier(focus) + chain_over(r, focus, bound)->0 <= bound,
        chain_over(r, focus, bound) is Some ==> chain_over(r, focus, bound)->0 >= 1,
    decreases bound, 0nat, r.len(),
{
    if r.len() > 0 {
        lemma_chain_over_bound(r.drop_last(), focus, bound);
        if tier(r.last().0) < bound {
            lemma_chain_bound(r.last().0, focus);
        }
    }
}

/// A recipe's chain is at least one longer than any of its ingredients' chains.
proof fn lemma_chain_over_ge(r: Seq<(Item, u32)>, focus: Item, bound: nat, j: int)
    requires
        0 <= j < r.len(),
        tier(r[j].0) < bound,
        chain_down(r[j].0, focus) is Some,
    ensures
        chain_over(r, focus, bound) is Some,
        chain_over(r, focus, bound)->0 >= chain_down(r[j].0, focus)->0 + 1,
    decreases r.len(),
{
    if j < r.len() - 1 {
        assert(r.drop_last()[j] == r[j]);
        lemma_chain_over_ge(r.drop_last(), focus, bound, j);
    }
}

/// What takes something made from the focus is made from the focus too, by a longer chain.
proof fn lemma_chain_up(p: Item, x: Item, focus: Item)
    requires
        needs(p, x),
        chain_down(x, focus) is Some,
    ensures
        chain_down(p, focus) is Some,
        chain_down(p, focus)->0 >= chain_down(x, focus)->0 + 1,
{
    lemma_recipe_well_founded(p);
    let j = choose|j: int| 0 <= j < recipe_table(p).len() && #[trigger] recipe_table(p)[j].0 == x;
    lemma_chain_bound(x, focus);
    if p == focus {
        assert(tier(x) < tier(p));
    }
    lemma_chain_over_ge(recipe_table(p), focus, tier(p), j);
}

/// No item takes one of the first `k` items to a shelf above `-c`, when everything that
/// takes `x` is made from the focus by a chain at least `c` long.
proof fn lemma_under_le(x: Item, focus: Item, k: nat, c: int)
    requires
        chain_down(x, focus) == Some(c - 1),
        k <= ITEM_COUNT,
    ensures
        under(x, focus, k, tier(x)) is Some ==> under(x, focus, k, tier(x))->0 <= -(c - 1),
    decreases (top_tier() - tier(x)) as nat, 0nat, k,
{
    if k > 0 {
        lemma_under_le(x, focus, (k - 1) as nat, c);
        let p = item_at(k - 1);
        lemma_recipe_well_founded(p);
        lemma_recipe_well_founded(x);
        if tier(x) < tier(p) <= top_tier() && needs(p, x) {
            lemma_chain_up(p, x, focus);
            lemma_made_from_focus(p, focus);
        }
    }
}

/// Everything made from the focus hangs above it, exactly as many shelves up as its
/// longest chain down to it takes: a part shows what it goes into.
pub proof fn lemma_made_from_focus(x: Item, focus: Item)
    requires
        chain_down(x, focus) is Some,
    ensures
        shelf(x, focus) == Some(-chain_down(x, focus)->0),
    decreases (top_tier() - tier(x)) as nat, 1nat, 0nat,
{
    lemma_recipe_well_founded(x);
    lemma_under_le(x, focus, ITEM_COUNT as nat, chain_down(x, focus)->0 + 1);
}

/// An item's shelf is at least one below the shelf of each of the first `k` items that
/// takes it.
proof fn lemma_under_ge(x: Item, focus: Item, k: nat, p: Item)
    requires
        k <= ITEM_COUNT,
        item_index(p) < k,
        needs(p, x),
        shelf(p, focus) is Some,
    ensures
        under(x, focus, k, tier(x)) is Some,
        under(x, focus, k, tier(x))->0 >= shelf(p, focus)->0 + 1,
    decreases k,
{
    lemma_index_inverse(p);
    lemma_recipe_well_founded(p);
    let j = choose|j: int| 0 <= j < recipe_table(p).len() && #[trigger] recipe_table(p)[j].0 == x;
    assert(tier(recipe_table(p)[j].0) < tier(p));
    if item_index(p) < k - 1 {
        lemma_under_ge(x, focus, (k - 1) as nat, p);
    }
}

/// Every string runs upward: whatever takes something on the rig, that something is on
/// the rig too, on a lower shelf.
pub proof fn lemma_string_runs_upward(p: Item, x: Item, focus: Item)
    requires
        needs(p, x),
        shelf(p, focus) is Some,
    ensures
        shelf(x, focus) is Some,
        shelf(x, focus)->0 > shelf(p, focus)->0,
{
    lemma_index_inverse(p);
    lemma_under_ge(x, focus, ITEM_COUNT as nat, p);
}

/// The focus sits on the middle shelf.
pub proof fn lemma_focus_in_the_middle(focus: Item)
    ensures
        shelf(focus, focus) == Some(0int),
{
    lemma_made_from_focus(focus, focus);
}

/// Keeping some of a list with no repeats keeps it without repeats.
proof fn lemma_filter_no_dup(s: Seq<Item>, p: spec_fn(Item) -> bool)
    requires
        s.no_duplicates(),
    ensures
        s.filter(p).no_duplicates(),
    decreases s.len(),
{
    reveal_with_fuel(Seq::filter, 1);
    if s.len() > 0 {
        let front = s.drop_last();
        assert forall|i: int, j: int| 0 <= i < front.len() && 0 <= j < front.len() && i != j implies front[i] != front[j] by {
            assert(front[i] == s[i] && front[j] == s[j]);
        }
        lemma_filter_no_dup(front, p);
        if p(s.last()) {
            if front.filter(p).contains(s.last()) {
                front.lemma_filter_contains_rev(p, s.last());
                let k = choose|k: int| 0 <= k < front.len() && front[k] == s.last();
                assert(s[k] == s[s.len() - 1]);
            }
            let f = front.filter(p);
            assert forall|i: int, j: int| 0 <= i < f.push(s.last()).len() && 0 <= j < f.push(s.last()).len() && i != j implies f.push(s.last())[i] != f.push(s.last())[j] by {
                if i < f.len() && j < f.len() {
                } else if i < f.len() {
                    assert(f.contains(f[i]));
                } else if j < f.len() {
                    assert(f.contains(f[j]));
                }
            }
        }
    }
}

/// The shelves from `t` down hold each item at most once, and only items on shelf `t` or
/// lower.
proof fn lemma_shelves_from_distinct(focus: Item, t: int)
    requires
        -2 <= t <= 3,
    ensures
        shelves_from(focus, t).flatten().no_duplicates(),
        forall|i: int|
            0 <= i < shelves_from(focus, t).flatten().len() ==> shelf(
                #[trigger] shelves_from(focus, t).flatten()[i],
                focus,
            ) is Some && shelf(shelves_from(focus, t).flatten()[i], focus)->0 >= t,
    decreases 3 - t,
{
    if t <= 2 {
        lemma_shelves_from_distinct(focus, t + 1);
        let rest = shelves_from(focus, t + 1);
        let row = on_shelf(focus, t);
        if row.len() > 0 {
            assert forall|i: int, j: int| 0 <= i < all_items().len() && 0 <= j < all_items().len() && i != j implies all_items()[i] != all_items()[j] by {
                lemma_at_inverse(i);
                lemma_at_inverse(j);
            }
            lemma_filter_no_dup(all_items(), on_tier(focus, t));
            assert((seq![row] + rest).drop_first() =~= rest);
            assert((seq![row] + rest).flatten() == row + rest.flatten());
            assert forall|i: int| 0 <= i < row.len() implies shelf(#[trigger] row[i], focus) == Some(t) by {
                all_items().lemma_filter_pred(on_tier(focus, t), i);
            }
            vstd::seq_lib::lemma_no_dup_in_concat(row, rest.flatten());
            assert forall|i: int| 0 <= i < (row + rest.flatten()).len() implies shelf(
                #[trigger] (row + rest.flatten())[i],
                focus,
            ) is Some && shelf((row + rest.flatten())[i], focus)->0 >= t by {
                if i < row.len() {
                } else {
                    assert((row + rest.flatten())[i] == rest.flatten()[i - row.len()]);
                }
            }
        }
    } else {
        assert(shelves_from(focus, t).flatten() =~= Seq::<Item>::empty());
    }
}

/// No item is laid out twice, whatever is in the middle: a cursor cannot be in two places,
/// and a bead row that counted one of two copies would be a lie.
pub proof fn lemma_each_item_once(focus: Item)
    ensures
        laid(focus).no_duplicates(),
{
    lemma_shelves_from_distinct(focus, -2);
}

/// The index of the first node holding `item`, if any does.
fn find_node(nodes: &Vec<Node>, item: Item) -> (r: Option<usize>)
    ensures
        match r {
            Some(i) => i < nodes@.len() && node_of(node_items(nodes@), item) == i
                && node_items(nodes@).contains(item),
            None => !node_items(nodes@).contains(item),
        },
{
    let ghost items = node_items(nodes@);
    let mut i: usize = 0;
    while i < nodes.len()
        invariant
            i <= nodes@.len(),
            items == node_items(nodes@),
            forall|j: int| 0 <= j < i ==> items[j] != item,
        decreases nodes@.len() - i,
    {
        if nodes[i].item == item {
            proof {
                assert(items[i as int] == item);
                let c = node_of(items, item);
                assert(0 <= i < items.len() && items[i as int] == item && forall|j: int| 0 <= j < i ==> items[j] != item);
                if c != i {
                    if c < i {
                        assert(items[c] != item);
                    } else {
                        assert(items[i as int] != item);
                    }
                }
            }
            return Some(i);
        }
        i = i + 1;
    }
    None
}

impl Graph {
    /// Lays the neighbourhood of `focus` out.
    ///
    /// Depth is the *longest* path from the focus rather than the shortest, which is the
    /// one decision that makes this a graph layout: stone is reachable from the car in one
    /// hop and in two, and taking the longer one puts it below the nail that also needs
    /// it, so both strings run upward and neither item is drawn twice.
    pub fn around(focus: Item) -> (r: Graph)
        ensures
            node_items(r.nodes@) == laid(focus),
            forall|i: int|
                0 <= i < r.nodes@.len() ==> shelf(#[trigger] r.nodes@[i].item, focus) == Some(
                    r.nodes@[i].tier as int,
                ),
            r.rows@.len() == shelves(focus).len(),
            forall|k: int|
                0 <= k < r.rows@.len() ==> (#[trigger] r.rows@[k])@.len() == shelves(focus)[k].len(),
            forall|k: int, c: int|
                0 <= k < r.rows@.len() && 0 <= c < r.rows@[k]@.len() ==> #[trigger] r.rows@[k]@[c]
                    < r.nodes@.len() && r.nodes@[r.rows@[k]@[c] as int].item == shelves(focus)[k][c],
            r.wires@ == wires_upto(laid(focus), focus, laid(focus).len()),
            r.focus.0 < r.rows@.len(),
            r.focus.1 < r.rows@[r.focus.0 as int]@.len(),
            r.nodes@[r.rows@[r.focus.0 as int]@[r.focus.1 as int] as int].item == focus,
    {
        let mut tiers: Vec<Option<i32>> = Vec::new();
        let mut i: usize = 0;
        while i < ITEM_COUNT
            invariant
                i <= ITEM_COUNT,
                tiers@.len() == i,
                forall|j: int|
                    0 <= j < i ==> match #[trigger] tiers@[j] {
                        Some(v) => shelf(item_at(j), focus) == Some(v as int),
                        None => shelf(item_at(j), focus) is None,
                    },
            decreases ITEM_COUNT - i,
        {
            tiers.push(shelf_of(Item::from_index(i), focus));
            i = i + 1;
        }
        let mut nodes: Vec<Node> = Vec::new();
        let mut rows: Vec<Vec<usize>> = Vec::new();
        let mut focus_at: (usize, usize) = (0, 0);
        let mut found = false;
        proof {
            lemma_focus_in_the_middle(focus);
            lemma_index_inverse(focus);
        }
        let mut t: i32 = -2;
        while t <= 2
            invariant
                -2 <= t <= 3,
                shelf(focus, focus) == Some(0int),
                item_at(item_index(focus)) == focus,
                0 <= item_index(focus) < ITEM_COUNT,
                t > 0 ==> found,
                found ==> focus_at.0 < rows@.len() && focus_at.1 < rows@[focus_at.0 as int]@.len()
                    && rows@[focus_at.0 as int]@[focus_at.1 as int] < nodes@.len() && nodes@[rows@[focus_at.0 as int]@[focus_at.1 as int] as int].item == focus,
                tiers@.len() == ITEM_COUNT,
                forall|j: int|
                    0 <= j < ITEM_COUNT ==> match #[trigger] tiers@[j] {
                        Some(v) => shelf(item_at(j), focus) == Some(v as int),
                        None => shelf(item_at(j), focus) is None,
                    },
                node_items(nodes@) == shelves_upto(focus, t as int).flatten(),
                forall|n: int|
                    0 <= n < nodes@.len() ==> shelf(#[trigger] nodes@[n].item, focus) == Some(
                        nodes@[n].tier as int,
                    ),
                rows@.len() == shelves_upto(focus, t as int).len(),
                forall|k: int|
                    0 <= k < rows@.len() ==> (#[trigger] rows@[k])@.len() == shelves_upto(
                        focus,
                        t as int,
                    )[k].len(),
                forall|k: int, c: int|
                    0 <= k < rows@.len() && 0 <= c < rows@[k]@.len() ==> #[trigger] rows@[k]@[c]
                        < nodes@.len() && nodes@[rows@[k]@[c] as int].item == shelves_upto(
                        focus,
                        t as int,
                    )[k][c],
            decreases 3 - t,
        {
            let ghost start = nodes@.len();
            let ghost before = nodes@;
            let ghost pred = on_tier(focus, t as int);
            let ghost rows_before = rows@;
            let ghost found_before = found;
            let ghost focus_before = focus_at;
            let mut row: Vec<usize> = Vec::new();
            let mut j: usize = 0;
            while j < ITEM_COUNT
                invariant
                    j <= ITEM_COUNT,
                    -2 <= t <= 2,
                    shelf(focus, focus) == Some(0int),
                    item_at(item_index(focus)) == focus,
                    0 <= item_index(focus) < ITEM_COUNT,
                    rows@.len() == rows_before.len(),
                    rows@ == rows_before,
                    t > 0 ==> found,
                    t == 0 && j > item_index(focus) ==> found,
                    found && !found_before ==> focus_at.0 == rows@.len() && focus_at.1 < row@.len()
                        && nodes@[start + focus_at.1].item == focus,
                    found_before ==> found && focus_at == focus_before,
                    found_before ==> focus_at.0 < rows@.len() && focus_at.1 < rows@[focus_at.0 as int]@.len()
                        && rows@[focus_at.0 as int]@[focus_at.1 as int] < start && nodes@[rows@[focus_at.0 as int]@[focus_at.1 as int] as int].item == focus,
                    tiers@.len() == ITEM_COUNT,
                    forall|q: int|
                        0 <= q < ITEM_COUNT ==> match #[trigger] tiers@[q] {
                            Some(v) => shelf(item_at(q), focus) == Some(v as int),
                            None => shelf(item_at(q), focus) is None,
                        },
                    pred == on_tier(focus, t as int),
                    nodes@.len() == start + row@.len(),
                    nodes@.take(start as int) == before,
                    forall|n: int|
                        0 <= n < nodes@.len() ==> shelf(#[trigger] nodes@[n].item, focus) == Some(
                            nodes@[n].tier as int,
                        ),
                    node_items(nodes@.skip(start as int)) == all_items().take(j as int).filter(pred),
                    forall|c: int| 0 <= c < row@.len() ==> #[trigger] row@[c] == start + c,
                decreases ITEM_COUNT - j,
            {
                let it = Item::from_index(j);
                proof {
                    reveal_with_fuel(Seq::filter, 1);
                    assert(all_items().take(j + 1).drop_last() =~= all_items().take(j as int));
                    assert(all_items().take(j + 1).last() == it);
                }
                match tiers[j] {
                    Some(v) => {
                        if v == t {
                            let ghost old_nodes = nodes@;
                            if it == focus && !found {
                                focus_at = (rows.len(), row.len());
                                found = true;
                            }
                            row.push(nodes.len());
                            nodes.push(Node { item: it, tier: v });
                            proof {
                                assert(nodes@.take(start as int) =~= old_nodes.take(start as int));
                                assert(nodes@.skip(start as int) =~= old_nodes.skip(start as int).push(
                                    Node { item: it, tier: v },
                                ));
                                assert(node_items(nodes@.skip(start as int)) =~= node_items(old_nodes.skip(start as int)).push(it));
                            }
                        }
                    },
                    None => {},
                }
                j = j + 1;
            }
            proof {
                assert(all_items().take(ITEM_COUNT as int) =~= all_items());
                let seg = on_shelf(focus, t as int);
                assert(node_items(nodes@.skip(start as int)) == seg);
                assert(nodes@ =~= before + nodes@.skip(start as int));
                assert(node_items(nodes@) =~= node_items(before) + seg);
            }
            if row.len() > 0 {
                let ghost old_rows = rows@;
                rows.push(row);
                proof {
                    let seg = on_shelf(focus, t as int);
                    shelves_upto(focus, t as int).lemma_flatten_push(seg);
                    assert(shelves_upto(focus, t + 1) == shelves_upto(focus, t as int).push(seg));
                    assert forall|k: int, c: int|
                        0 <= k < rows@.len() && 0 <= c < rows@[k]@.len() implies #[trigger] rows@[k]@[c]
                            < nodes@.len() && nodes@[rows@[k]@[c] as int].item == shelves_upto(
                            focus,
                            t + 1,
                        )[k][c] by {
                        if k < old_rows.len() {
                            assert(rows@[k] == old_rows[k]);
                            assert(nodes@[rows@[k]@[c] as int] == before[rows@[k]@[c] as int]);
                        } else {
                            assert(rows@[k]@[c] == start + c);
                            assert(nodes@.skip(start as int)[c] == nodes@[start + c]);
                            assert(node_items(nodes@.skip(start as int))[c] == seg[c]);
                        }
                    }
                }
            } else {
                proof {
                    assert(nodes@ =~= before);
                    assert(shelves_upto(focus, t + 1) == shelves_upto(focus, t as int));
                }
            }
            t = t + 1;
        }
        proof {
            lemma_shelves_split(focus, 3);
            assert(shelves_upto(focus, 3) + shelves_from(focus, 3) =~= shelves_upto(focus, 3));
        }
        let ghost laid_items = laid(focus);
        let mut wires: Vec<Wire> = Vec::new();
        let mut to: usize = 0;
        while to < nodes.len()
            invariant
                to <= nodes@.len(),
                node_items(nodes@) == laid_items,
                laid_items == laid(focus),
                wires@ == wires_upto(laid_items, focus, to as nat),
            decreases nodes@.len() - to,
        {
            let product = nodes[to].item;
            let recipe = product.recipe();
            let ghost keep = has_node(laid_items);
            let ghost make = wire_to(laid_items, to as nat);
            let ghost base = wires@;
            assert(laid_items[to as int] == product);
            let mut j: usize = 0;
            while j < recipe.len()
                invariant
                    j <= recipe@.len(),
                    recipe@ == recipe_table(product),
                    node_items(nodes@) == laid_items,
                    to < nodes@.len(),
                    keep == has_node(laid_items),
                    make == wire_to(laid_items, to as nat),
                    wires@ == base + recipe@.take(j as int).filter(keep).map_values(make),
                decreases recipe@.len() - j,
            {
                let (g, need) = recipe[j];
                proof {
                    reveal_with_fuel(Seq::filter, 1);
                    assert(recipe@.take(j + 1).drop_last() =~= recipe@.take(j as int));
                    assert(recipe@.take(j + 1).last() == recipe@[j as int]);
                }
                match find_node(&nodes, g) {
                    Some(from) => {
                        let ghost before = wires@;
                        wires.push(Wire { from, to, need });
                        proof {
                            let f = recipe@.take(j as int).filter(keep);
                            assert(recipe@.take(j + 1).filter(keep) == f.push((g, need)));
                            assert(f.push((g, need)).map_values(make) =~= f.map_values(make).push(make((g, need))));
                            assert(wires@ =~= base + recipe@.take(j + 1).filter(keep).map_values(make));
                        }
                    },
                    None => {
                        proof {
                            assert(recipe@.take(j + 1).filter(keep) == recipe@.take(j as int).filter(keep));
                        }
                    },
                }
                j = j + 1;
            }
            proof {
                assert(recipe@.take(recipe@.len() as int) =~= recipe@);
                assert(wires_into(laid_items, focus, to as nat) == recipe@.filter(keep).map_values(make));
            }
            to = to + 1;
        }
        Graph { nodes, wires, rows, focus: focus_at }
    }
}

impl Graph {
    /// The item under a cursor on the rig.
    pub fn item_at(&self, cursor: (usize, usize)) -> (r: Item)
        requires
            cursor.0 < self.rows@.len(),
            cursor.1 < self.rows@[cursor.0 as int]@.len(),
            self.rows@[cursor.0 as int]@[cursor.1 as int] < self.nodes@.len(),
        ensures
            r == self.nodes@[self.rows@[cursor.0 as int]@[cursor.1 as int] as int].item,
    {
        self.nodes[self.rows[cursor.0][cursor.1]].item
    }
}

/// The next single craft that gets a player with pile `s` closer to `want`: `want` itself
/// if it can be made now, and otherwise the first ingredient they are short of whose own
/// chain has a next step.
pub open spec fn next_step_spec(s: Seq<u32>, want: Item) -> Option<Item>
    decreases tier(want), 1nat, 0nat,
{
    if can_craft_spec(s, want) {
        Some(want)
    } else {
        next_among(s, recipe_table(want), tier(want))
    }
}

/// The first entry of a recipe that is short and has a next step, and that step.
pub open spec fn next_among(s: Seq<u32>, r: Seq<(Item, u32)>, bound: nat) -> Option<Item>
    decreases bound, 0nat, r.len(),
{
    if r.len() == 0 {
        None
    } else {
        let here = if count_of(s, r[0].0) < r[0].1 && tier(r[0].0) < bound {
            next_step_spec(s, r[0].0)
        } else {
            None
        };
        if here is Some {
            here
        } else {
            next_among(s, r.drop_first(), bound)
        }
    }
}

/// Whatever the next step is, it can be paid for right now: holding the button never asks
/// for a craft that fails.
pub proof fn lemma_next_step_affordable(s: Seq<u32>, want: Item)
    ensures
        next_step_spec(s, want) is Some ==> can_craft_spec(s, next_step_spec(s, want)->0),
    decreases tier(want), 1nat, 0nat,
{
    if !can_craft_spec(s, want) {
        lemma_next_among_affordable(s, recipe_table(want), tier(want));
    }
}

proof fn lemma_next_among_affordable(s: Seq<u32>, r: Seq<(Item, u32)>, bound: nat)
    ensures
        next_among(s, r, bound) is Some ==> can_craft_spec(s, next_among(s, r, bound)->0),
    decreases bound, 0nat, r.len(),
{
    if r.len() > 0 {
        if count_of(s, r[0].0) < r[0].1 && tier(r[0].0) < bound {
            lemma_next_step_affordable(s, r[0].0);
        }
        lemma_next_among_affordable(s, r.drop_first(), bound);
    }
}

/// Holding the button goes on past what has to be dug up: if any ingredient `want` is short
/// of has a next step of its own, then `want` has a next step too. Nothing is given up
/// while some part of the chain can still be made now.
pub proof fn lemma_next_step_tries_every_short_part(s: Seq<u32>, want: Item, j: int)
    requires
        0 <= j < recipe_table(want).len(),
        count_of(s, recipe_table(want)[j].0) < recipe_table(want)[j].1,
        next_step_spec(s, recipe_table(want)[j].0) is Some,
    ensures
        next_step_spec(s, want) is Some,
{
    lemma_recipe_well_founded(want);
    if !can_craft_spec(s, want) {
        lemma_next_among_finds(s, recipe_table(want), tier(want), j);
    }
}

/// The next step is always toward the thing asked for: the thing itself when it can be made
/// now, and otherwise something down its recipe.
pub proof fn lemma_next_step_is_toward(s: Seq<u32>, want: Item)
    ensures
        can_craft_spec(s, want) ==> next_step_spec(s, want) == Some(want),
        next_step_spec(s, want) is Some && next_step_spec(s, want) != Some(want) ==> made_of(
            want,
            next_step_spec(s, want)->0,
        ),
    decreases tier(want), 1nat, 0nat,
{
    if !can_craft_spec(s, want) {
        lemma_recipe_well_founded(want);
        let r = recipe_table(want);
        lemma_next_among_toward(s, r, tier(want));
        if next_step_spec(s, want) is Some {
            let x = next_step_spec(s, want)->0;
            let k = choose|k: int| 0 <= k < r.len() && (r[k].0 == x || made_of(#[trigger] r[k].0, x));
            lemma_made_of_entry(r, x, tier(want), k);
        }
    }
}

proof fn lemma_next_among_toward(s: Seq<u32>, r: Seq<(Item, u32)>, bound: nat)
    requires
        forall|k: int| 0 <= k < r.len() ==> tier(#[trigger] r[k].0) < bound,
    ensures
        next_among(s, r, bound) is Some ==> exists|k: int|
            0 <= k < r.len() && (r[k].0 == next_among(s, r, bound)->0 || made_of(
                #[trigger] r[k].0,
                next_among(s, r, bound)->0,
            )),
    decreases bound, 0nat, r.len(),
{
    if r.len() > 0 {
        let here = if count_of(s, r[0].0) < r[0].1 && tier(r[0].0) < bound {
            next_step_spec(s, r[0].0)
        } else {
            None
        };
        if here is Some {
            lemma_next_step_is_toward(s, r[0].0);
            assert(r[0].0 == here->0 || made_of(r[0].0, here->0));
        } else {
            assert forall|k: int| 0 <= k < r.drop_first().len() implies tier(#[trigger] r.drop_first()[k].0) < bound by {
                assert(r.drop_first()[k] == r[k + 1]);
            }
            lemma_next_among_toward(s, r.drop_first(), bound);
            if next_among(s, r, bound) is Some {
                let x = next_among(s, r, bound)->0;
                let k = choose|k: int|
                    0 <= k < r.drop_first().len() && (r.drop_first()[k].0 == x || made_of(
                        #[trigger] r.drop_first()[k].0,
                        x,
                    ));
                assert(r.drop_first()[k] == r[k + 1]);
            }
        }
    }
}

/// Something down one entry of a recipe is down the recipe.
proof fn lemma_made_of_entry(r: Seq<(Item, u32)>, j: Item, bound: nat, k: int)
    requires
        0 <= k < r.len(),
        tier(r[k].0) < bound,
        r[k].0 == j || made_of(r[k].0, j),
    ensures
        made_of_any(r, j, bound),
    decreases r.len(),
{
    if k < r.len() - 1 {
        assert(r.drop_last()[k] == r[k]);
        lemma_made_of_entry(r.drop_last(), j, bound, k);
    } else {
        assert(r.last() == r[k]);
    }
}

proof fn lemma_next_among_finds(s: Seq<u32>, r: Seq<(Item, u32)>, bound: nat, j: int)
    requires
        0 <= j < r.len(),
        count_of(s, r[j].0) < r[j].1,
        tier(r[j].0) < bound,
        next_step_spec(s, r[j].0) is Some,
    ensures
        next_among(s, r, bound) is Some,
    decreases j,
{
    if j > 0 {
        let here = if count_of(s, r[0].0) < r[0].1 && tier(r[0].0) < bound {
            next_step_spec(s, r[0].0)
        } else {
            None
        };
        if here is None {
            assert(r.drop_first()[j - 1] == r[j]);
            lemma_next_among_finds(s, r.drop_first(), bound, j - 1);
        }
    }
}

/// The next single craft that gets the player closer to `want`, or nothing if the chain
/// is blocked on something that has to be dug up.
///
/// One press makes one thing, deepest first, so holding the button builds a car from the
/// bottom up and the player watches each step happen.
pub fn next_step(stock: &Inventory, want: Item) -> (r: Option<Item>)
    ensures
        r == next_step_spec(stock@, want),
    decreases tier(want),
{
    if stock.can_craft(want) {
        return Some(want);
    }
    proof {
        lemma_recipe_well_founded(want);
    }
    let recipe = want.recipe();
    assert(recipe@.skip(0) =~= recipe@);
    let mut j: usize = 0;
    while j < recipe.len()
        invariant
            j <= recipe@.len(),
            recipe@ == recipe_table(want),
            !can_craft_spec(stock@, want),
            forall|k: int| 0 <= k < recipe@.len() ==> tier(#[trigger] recipe@[k].0) < tier(want),
            next_step_spec(stock@, want) == next_among(stock@, recipe@.skip(j as int), tier(want)),
        decreases recipe@.len() - j,
    {
        let (part, need) = recipe[j];
        proof {
            assert(recipe@.skip(j as int)[0] == recipe@[j as int]);
            assert(recipe@.skip(j as int).drop_first() =~= recipe@.skip(j + 1));
            assert(tier(recipe@[j as int].0) < tier(want));
        }
        if stock.count(part) < need {
            match next_step(stock, part) {
                Some(step) => {
                    return Some(step);
                },
                None => {},
            }
        }
        j = j + 1;
    }
    assert(recipe@.skip(recipe@.len() as int) =~= Seq::<(Item, u32)>::empty());
    None
}

} // verus!
