//! The crafting screen's two-symbol code pad, as a state machine.
//!
//! The first symbol is a kind of thing, the second is which one of that kind, and the pair
//! opens the recipe of that thing, where one press builds it. Back steps out one symbol at
//! a time, so a mis-press is one press to undo. What a press does is decided here; what the
//! screen looks like while it happens is drawn elsewhere.
use vstd::prelude::*;
use crate::inventory::{Inventory, plan_spec};
use crate::menu::{step, stepped};
use crate::registry::{
    ITEM_COUNT, Item, Kind, all_items, item_index, kind_items_spec, kind_spec, lemma_index_inverse,
    lemma_kind_items, lemma_recipe_well_founded,
    lemma_tier_longest, recipe_table, tier, top_tier,
};

verus! {

/// Keys per row on the second symbol. Seven blocks is the widest kind there is, and four
/// across leaves them big enough to tell apart across a living room.
pub const PICK_COLUMNS: usize = 4;

/// Which of the two symbols is being pressed, or the recipe the pair of them opened.
#[derive(Debug, Clone, Copy, PartialEq, Eq, Structural)]
pub enum Stage {
    /// The first symbol: what kind of thing.
    Kind { cursor: usize },
    /// The second: which one of that kind.
    Pick { kind: Kind, cursor: usize },
    /// Both are in: this is the thing, and this is what it is made of.
    Graph { item: Item },
}

/// The pad this frame: back, confirm, and how far the cursor was pushed across and down.
#[derive(Debug, Clone, Copy, PartialEq, Eq, Structural)]
pub struct Press {
    pub back: bool,
    pub confirm: bool,
    pub across: i32,
    pub step: i32,
}

/// What a press asks of the world around the screen.
#[derive(Debug, Clone, PartialEq, Eq)]
pub enum Outcome {
    /// Nothing beyond the new stage.
    Stay,
    /// Back out of the screen altogether, to the world.
    Leave,
    /// Ask for one of the thing on show, and draw these crafts being made.
    Ask(Vec<Item>),
    /// The press asked for something the pile cannot pay for: shake what is missing.
    Nag,
}

/// Every kind, in the order the first symbol shows them.
pub open spec fn kinds() -> Seq<Kind> {
    seq![Kind::Block, Kind::Part, Kind::Tool, Kind::Gear, Kind::Vehicle]
}

/// Where a kind sits on the first symbol.
pub open spec fn kind_position(kind: Kind) -> nat {
    match kind {
        Kind::Block => 0,
        Kind::Part => 1,
        Kind::Tool => 2,
        Kind::Gear => 3,
        Kind::Vehicle => 4,
    }
}

/// How many keys a row of the second symbol holds: the width the grid is drawn in, and
/// the step one press of up or down takes through it.
pub open spec fn columns_spec(keys: nat) -> nat {
    if keys == 0 {
        1
    } else if keys < PICK_COLUMNS {
        keys
    } else {
        PICK_COLUMNS as nat
    }
}

/// Where an item sits on the second symbol of its own kind.
pub open spec fn pick_position(item: Item) -> nat {
    choose|i: nat| i < kind_items_spec(kind_spec(item)).len() && kind_items_spec(kind_spec(item))[i as int] == item
}

/// The first symbol follows the thumb: a press that does not go back moves the cursor
/// `across` places round the five kinds, confirming or not, and a confirm opens the kind the
/// very same press would have left the cursor on.
pub proof fn lemma_first_symbol_follows_the_thumb(cursor: usize, press: Press, shelf: Seq<u32>, playing: bool)
    requires
        !press.back,
        cursor < 5,
    ensures
        ({
            let still = Press { confirm: false, ..press };
            let sure = Press { confirm: true, ..press };
            let (moved, code) = drive_spec(Stage::Kind { cursor }, still, shelf, playing);
            &&& code == 0
            &&& moved is Kind
            &&& moved->Kind_cursor < 5
            &&& (moved->Kind_cursor as int - cursor as int - press.across as int) % 5 == 0
            &&& drive_spec(Stage::Kind { cursor }, sure, shelf, playing) == (
                Stage::Pick { kind: kinds()[moved->Kind_cursor as int], cursor: 0 },
                0int,
            )
        }),
{
    let c = stepped(cursor as int, 5, press.across as int);
    vstd::arithmetic::div_mod::lemma_mod_bound(cursor as int + press.across as int, 5);
    vstd::arithmetic::div_mod::lemma_fundamental_div_mod(cursor as int + press.across as int, 5);
    let q = (cursor as int + press.across as int) / 5;
    assert(c - cursor as int - press.across as int == -q * 5) by (nonlinear_arith)
        requires
            cursor as int + press.across as int == 5 * q + c,
    ;
    vstd::arithmetic::div_mod::lemma_mod_multiples_basic(-q, 5);
}

/// Back takes back exactly one symbol: confirming where the cursor stands and then pressing
/// back returns to the very stage the confirm was pressed on, cursor and all.
pub proof fn lemma_back_undoes_a_symbol(cursor: usize, kind: Kind, at: usize, shelf: Seq<u32>, playing: bool)
    ensures
        ({
            let sure = Press { back: false, confirm: true, across: 0, step: 0 };
            let back = Press { back: true, confirm: false, across: 0, step: 0 };
            &&& cursor < 5 ==> drive_spec(
                drive_spec(Stage::Kind { cursor }, sure, shelf, playing).0,
                back,
                shelf,
                playing,
            ).0 == Stage::Kind { cursor }
            &&& at < kind_items_spec(kind).len() ==> drive_spec(
                drive_spec(Stage::Pick { kind, cursor: at }, sure, shelf, playing).0,
                back,
                shelf,
                playing,
            ).0 == Stage::Pick { kind, cursor: at }
        }),
{
    lemma_kind_items();
    if cursor < 5 {
        vstd::arithmetic::div_mod::lemma_small_mod(cursor as nat, 5);
    }
    let items = kind_items_spec(kind);
    if at < items.len() {
        vstd::arithmetic::div_mod::lemma_small_mod(at as nat, items.len());
        let item = items[at as int];
        assert(kind_spec(item) == kind);
        lemma_pick_position(item);
        let p = pick_position(item);
        assert(items[p as int] == items[at as int]);
        assert(p == at);
        let sure = Press { back: false, confirm: true, across: 0, step: 0 };
        assert(stepped(at as int, items.len() as int, 0) == at);
        assert(sure.step * columns_spec(items.len()) == 0);
        assert(picked(at, items.len(), sure) == at);
        assert(drive_spec(Stage::Pick { kind, cursor: at }, sure, shelf, playing).0 == Stage::Graph { item });
    }
}

/// An item is on the second symbol of its kind, exactly once.
pub proof fn lemma_pick_position(item: Item)
    ensures
        pick_position(item) < kind_items_spec(kind_spec(item)).len(),
        kind_items_spec(kind_spec(item))[pick_position(item) as int] == item,
        forall|j: int|
            0 <= j < kind_items_spec(kind_spec(item)).len() && kind_items_spec(kind_spec(item))[j] == item
                ==> j == pick_position(item),
{
    lemma_kind_items();
    let s = kind_items_spec(kind_spec(item));
    let w: nat = match item {
        Item::Grass => 0,
        Item::Dirt => 1,
        Item::Stone => 2,
        Item::Sand => 3,
        Item::Wood => 4,
        Item::Leaves => 5,
        Item::Cushion => 6,
        Item::Nail => 0,
        Item::Hammer => 0,
        Item::Drill => 1,
        Item::Handgun => 2,
        Item::Rifle => 3,
        Item::Parachute => 0,
        Item::Car => 0,
    };
    assert(w < s.len() && s[w as int] == item);
}

/// Where the cursor on the second symbol lands after a press: across first, then a row at
/// a time down the grid.
pub open spec fn picked(cursor: usize, keys: nat, press: Press) -> int {
    let across = stepped(cursor as int, keys as int, press.across as int);
    stepped(across, keys as int, press.step * columns_spec(keys))
}

/// What a press does to the screen, and what it asks of the world.
pub open spec fn drive_spec(stage: Stage, press: Press, shelf: Seq<u32>, playing: bool) -> (Stage, int) {
    if press.back {
        match stage {
            Stage::Kind { .. } => (stage, 1),
            Stage::Pick { kind, .. } => (Stage::Kind { cursor: kind_position(kind) as usize }, 0),
            Stage::Graph { item } => (
                Stage::Pick { kind: kind_spec(item), cursor: pick_position(item) as usize },
                0,
            ),
        }
    } else {
        match stage {
            Stage::Kind { cursor } => {
                let c = stepped(cursor as int, 5, press.across as int);
                if press.confirm {
                    (Stage::Pick { kind: kinds()[c], cursor: 0 }, 0)
                } else {
                    (Stage::Kind { cursor: c as usize }, 0)
                }
            },
            Stage::Pick { kind, cursor } => {
                let c = picked(cursor, kind_items_spec(kind).len(), press);
                if press.confirm {
                    (Stage::Graph { item: kind_items_spec(kind)[c] }, 0)
                } else {
                    (Stage::Pick { kind, cursor: c as usize }, 0)
                }
            },
            Stage::Graph { .. } => {
                if press.confirm && !playing {
                    let item = stage->item;
                    if plan_spec(shelf, item).short.len() == 0 {
                        (stage, 2)
                    } else {
                        (stage, 3)
                    }
                } else {
                    (stage, 0)
                }
            },
        }
    }
}

/// The outcome [`drive_spec`] numbers: 0 stays, 1 leaves, 2 asks, 3 nags.
pub open spec fn outcome_matches(o: Outcome, code: int, stage: Stage, shelf: Seq<u32>) -> bool {
    match o {
        Outcome::Stay => code == 0,
        Outcome::Leave => code == 1,
        Outcome::Ask(steps) => code == 2 && steps@ == plan_spec(shelf, stage->item).steps,
        Outcome::Nag => code == 3,
    }
}

impl Stage {
    /// What the code currently spells: the kind, and the item, as far as they are pressed.
    pub fn code(&self) -> (r: (Option<Kind>, Option<Item>))
        ensures
            r == (match *self {
                Stage::Kind { .. } => (None, None),
                Stage::Pick { kind, .. } => (Some(kind), None),
                Stage::Graph { item } => (Some(kind_spec(item)), Some(item)),
            }),
    {
        match *self {
            Stage::Kind { .. } => (None, None),
            Stage::Pick { kind, .. } => (Some(kind), None),
            Stage::Graph { item } => (Some(item.kind()), Some(item)),
        }
    }
}

/// A build being drawn: what was made, in the order it was made. How many of its steps
/// have finished being drawn is a matter of the clock, and is handed in.
#[derive(Debug, Clone, PartialEq, Eq)]
pub struct Built {
    pub steps: Vec<Item>,
}

/// Of a build's steps, the ones finished once `done` have played: all of them, where `done`
/// runs past the end.
pub open spec fn played(steps: Seq<Item>, done: int) -> Seq<Item> {
    if done < steps.len() {
        steps.take(done)
    } else {
        steps
    }
}

/// Is a step the making of `item`?
pub open spec fn making(item: Item) -> spec_fn(Item) -> bool {
    |x: Item| x == item
}

/// How many of the played steps made `item`.
pub open spec fn made_spec(steps: Seq<Item>, done: int, item: Item) -> nat {
    played(steps, done).filter(making(item)).len()
}

impl Built {
    /// How many of `item` this build has finished making once `done` steps have played.
    pub fn made(&self, done: usize, item: Item) -> (r: usize)
        ensures
            r == made_spec(self.steps@, done as int, item),
    {
        let n = if done < self.steps.len() {
            done
        } else {
            self.steps.len()
        };
        let ghost pred = making(item);
        let mut count: usize = 0;
        let mut i: usize = 0;
        while i < n
            invariant
                n <= self.steps@.len(),
                n == played(self.steps@, done as int).len(),
                i <= n,
                pred == making(item),
                count == self.steps@.take(i as int).filter(pred).len(),
                count <= i,
            decreases n - i,
        {
            proof {
                let pre = self.steps@.take(i as int);
                let x = self.steps@[i as int];
                assert(self.steps@.take(i + 1) =~= pre + seq![x]);
                Seq::<Item>::filter_distributes_over_add(pre, seq![x], pred);
                reveal_with_fuel(Seq::filter, 2);
                assert(seq![x].drop_last() =~= Seq::<Item>::empty());
            }
            if self.steps[i] == item {
                count = count + 1;
            }
            i = i + 1;
        }
        proof {
            assert(self.steps@.take(n as int) =~= played(self.steps@, done as int));
        }
        count
    }

    /// The step being drawn once `done` have played, or nothing once they all have.
    pub fn doing(&self, done: usize) -> (r: Option<Item>)
        ensures
            r == (if done < self.steps@.len() {
                Some(self.steps@[done as int])
            } else {
                None::<Item>
            }),
    {
        if done < self.steps.len() {
            Some(self.steps[done])
        } else {
            None
        }
    }
}

/// A build plays out one step at a time: one more step played credits its thing with one
/// more, and nothing else with anything; once every step has played, nothing changes.
pub proof fn lemma_one_step_at_a_time(steps: Seq<Item>, done: nat, item: Item)
    ensures
        made_spec(steps, (done + 1) as int, item) == made_spec(steps, done as int, item) + if done
            < steps.len() && steps[done as int] == item {
            1nat
        } else {
            0nat
        },
        done >= steps.len() ==> made_spec(steps, done as int, item) == steps.filter(making(item)).len(),
{
    let pred = making(item);
    if done < steps.len() {
        let pre = steps.take(done as int);
        let x = steps[done as int];
        assert(played(steps, (done + 1) as int) =~= pre + seq![x]);
        assert(played(steps, done as int) =~= pre);
        Seq::<Item>::filter_distributes_over_add(pre, seq![x], pred);
        reveal_with_fuel(Seq::filter, 2);
        assert(seq![x].drop_last() =~= Seq::<Item>::empty());
    }
}

/// How many keys a row of the second symbol holds.
pub fn columns(keys: usize) -> (r: usize)
    ensures
        r == columns_spec(keys as nat),
{
    if keys == 0 {
        1
    } else if keys < PICK_COLUMNS {
        keys
    } else {
        PICK_COLUMNS
    }
}

/// One frame of the pad on the crafting screen.
///
/// `playing` says a build is still being drawn: a press is ignored until it has played
/// out, because on a peer the host's answer may not have arrived yet, and a second press
/// would be planned against a stale pile.
pub fn drive(stage: Stage, press: Press, shelf: &Inventory, playing: bool) -> (r: (Stage, Outcome))
    requires
        stage is Pick ==> i32::MIN <= press.step * columns_spec(
            kind_items_spec(stage->kind).len(),
        ) <= i32::MAX,
    ensures
        r.0 == drive_spec(stage, press, shelf@, playing).0,
        outcome_matches(r.1, drive_spec(stage, press, shelf@, playing).1, stage, shelf@),
{
    proof {
        lemma_kind_items();
    }
    if press.back {
        return match stage {
            Stage::Kind { .. } => (stage, Outcome::Leave),
            Stage::Pick { kind, .. } => {
                let all = Kind::all();
                let mut c: usize = 0;
                while c < 5 && all[c] != kind
                    invariant
                        c <= 5,
                        all@ == kinds(),
                        forall|j: int| 0 <= j < c ==> all@[j] != kind,
                    decreases 5 - c,
                {
                    c = c + 1;
                }
                (Stage::Kind { cursor: c }, Outcome::Stay)
            },
            Stage::Graph { item } => {
                let kind = item.kind();
                let items = kind.items();
                proof {
                    lemma_pick_position(item);
                }
                let mut c: usize = 0;
                while c < items.len() && items[c] != item
                    invariant
                        c <= items@.len(),
                        items@ == kind_items_spec(kind_spec(item)),
                        forall|j: int| 0 <= j < c ==> items@[j] != item,
                    decreases items@.len() - c,
                {
                    c = c + 1;
                }
                (Stage::Pick { kind, cursor: c }, Outcome::Stay)
            },
        };
    }
    match stage {
        Stage::Kind { cursor } => {
            let all = Kind::all();
            let c = step(cursor, all.len(), press.across);
            if press.confirm {
                (Stage::Pick { kind: all[c], cursor: 0 }, Outcome::Stay)
            } else {
                (Stage::Kind { cursor: c }, Outcome::Stay)
            }
        },
        Stage::Pick { kind, cursor } => {
            let items = kind.items();
            let n = items.len();
            let across = step(cursor, n, press.across);
            let c = step(across, n, press.step * (columns(n) as i32));
            if press.confirm {
                (Stage::Graph { item: items[c] }, Outcome::Stay)
            } else {
                (Stage::Pick { kind, cursor: c }, Outcome::Stay)
            }
        },
        Stage::Graph { item } => {
            if press.confirm && !playing {
                let plan = shelf.plan(item);
                if plan.short.len() == 0 {
                    (stage, Outcome::Ask(plan.steps))
                } else {
                    (stage, Outcome::Nag)
                }
            } else {
                (stage, Outcome::Stay)
            }
        },
    }
}

/// Everything that goes into `item`, depth first in recipe order, each once, after what
/// `found` already holds.
pub open spec fn walk(item: Item, found: Seq<Item>) -> Seq<Item>
    decreases tier(item), 1nat, 0nat,
{
    if found.contains(item) {
        found
    } else {
        walk_all(recipe_table(item), found.push(item), tier(item))
    }
}

/// [`walk`] over each entry of a recipe in turn.
pub open spec fn walk_all(r: Seq<(Item, u32)>, found: Seq<Item>, bound: nat) -> Seq<Item>
    decreases bound, 0nat, r.len(),
{
    if r.len() == 0 {
        found
    } else if tier(r[0].0) < bound {
        walk_all(r.drop_first(), walk(r[0].0, found), bound)
    } else {
        found
    }
}

/// Everything that goes into `want`, once each, in the order the screen lays it out.
pub open spec fn gathered(want: Item) -> Seq<Item> {
    walk(want, Seq::empty())
}

/// Nothing twice, and everything that goes into something listed is listed too (what
/// `base` held aside).
pub open spec fn closed_over(s: Seq<Item>, base: Seq<Item>) -> bool {
    &&& s.no_duplicates()
    &&& forall|k: int| 0 <= k < base.len() ==> s[k] == base[k]
    &&& base.len() <= s.len()
    &&& forall|k: int, j: int|
        base.len() <= k < s.len() && 0 <= j < recipe_table(s[k]).len() ==> s.contains(
            (#[trigger] recipe_table(#[trigger] s[k])[j]).0,
        )
}

/// Walking keeps what was found, adds the item, repeats nothing, and leaves out nothing
/// any newly found thing is made of.
proof fn lemma_walk(item: Item, found: Seq<Item>)
    requires
        found.no_duplicates(),
    ensures
        closed_over(walk(item, found), found),
        walk(item, found).contains(item),
    decreases tier(item), 1nat, 0nat,
{
    if found.contains(item) {
        assert(closed_over(found, found));
    } else {
        lemma_recipe_well_founded(item);
        let start = found.push(item);
        assert(start.no_duplicates()) by {
            assert forall|a: int, b: int| 0 <= a < start.len() && 0 <= b < start.len() && a != b implies start[a] != start[b] by {
                if a == found.len() {
                    assert(found.contains(start[b]) || b == found.len());
                } else if b == found.len() {
                    assert(found.contains(start[a]));
                }
            }
        }
        lemma_walk_all(recipe_table(item), start, tier(item));
        let out = walk(item, found);
        assert(out[found.len() as int] == item);
        assert forall|k: int, j: int|
            found.len() <= k < out.len() && 0 <= j < recipe_table(out[k]).len() implies out.contains(
                (#[trigger] recipe_table(#[trigger] out[k])[j]).0,
            ) by {
            if k == found.len() {
                assert(out[k] == item);
                assert(recipe_table(item).contains(recipe_table(item)[j]));
            }
        }
    }
}

proof fn lemma_walk_all(r: Seq<(Item, u32)>, found: Seq<Item>, bound: nat)
    requires
        found.no_duplicates(),
        forall|j: int| 0 <= j < r.len() ==> tier(#[trigger] r[j].0) < bound,
    ensures
        closed_over(walk_all(r, found, bound), found),
        forall|j: int| 0 <= j < r.len() ==> walk_all(r, found, bound).contains(#[trigger] r[j].0),
        forall|k: int| 0 <= k < found.len() ==> walk_all(r, found, bound).contains(#[trigger] found[k]),
    decreases bound, 0nat, r.len(),
{
    if r.len() == 0 {
        assert(closed_over(found, found));
    } else {
        let mid = walk(r[0].0, found);
        lemma_walk(r[0].0, found);
        assert forall|j: int| 0 <= j < r.drop_first().len() implies tier(#[trigger] r.drop_first()[j].0) < bound by {
            assert(r.drop_first()[j] == r[j + 1]);
        }
        lemma_walk_all(r.drop_first(), mid, bound);
        let out = walk_all(r, found, bound);
        assert forall|k: int, j: int|
            found.len() <= k < out.len() && 0 <= j < recipe_table(out[k]).len() implies out.contains(
                (#[trigger] recipe_table(#[trigger] out[k])[j]).0,
            ) by {
            if k < mid.len() {
                assert(out[k] == mid[k]);
                assert(mid.contains(recipe_table(mid[k])[j].0));
                let w = choose|w: int| 0 <= w < mid.len() && mid[w] == recipe_table(mid[k])[j].0;
                assert(out.contains(mid[w]));
            }
        }
        assert forall|j: int| 0 <= j < r.len() implies out.contains(#[trigger] r[j].0) by {
            if j == 0 {
                let w = choose|w: int| 0 <= w < mid.len() && mid[w] == r[0].0;
                assert(out.contains(mid[w]));
            } else {
                assert(r.drop_first()[j - 1] == r[j]);
            }
        }
        assert forall|k: int| 0 <= k < found.len() implies out.contains(#[trigger] found[k]) by {
            assert(mid[k] == found[k]);
            assert(out.contains(mid[k]));
        }
    }
}

/// One item in a recipe graph, and where it sits.
#[derive(Clone, Copy, PartialEq, Eq, Debug, Structural)]
pub struct Spot {
    pub item: Item,
    /// Rows above the ground. Everything with no recipe is row zero.
    pub row: usize,
    /// Position within the row, left to right.
    pub col: usize,
}

/// So many of `from` go into one `to`.
#[derive(Clone, Copy, PartialEq, Eq, Debug, Structural)]
pub struct Belt {
    pub from: usize,
    pub to: usize,
    pub count: u32,
}

/// A recipe graph, laid out.
#[derive(Clone, PartialEq, Eq, Debug)]
pub struct Web {
    pub spots: Vec<Spot>,
    pub belts: Vec<Belt>,
    pub rows: usize,
    /// The busiest row, which is what decides how big a node can be drawn.
    pub widest: usize,
}

/// Where an item sits in a list that holds it.
pub open spec fn pos_of(s: Seq<Item>, item: Item) -> int {
    choose|i: int| 0 <= i < s.len() && s[i] == item
}

/// How many of the first `i` items of `s` stand on row `d`.
pub open spec fn on_row_before(s: Seq<Item>, i: int, d: nat) -> nat {
    s.take(i).filter(|x: Item| tier(x) == d).len()
}

/// The spot of the `i`-th item of `s`.
pub open spec fn spot_of(s: Seq<Item>, i: int) -> Spot {
    Spot { item: s[i], row: tier(s[i]) as usize, col: on_row_before(s, i, tier(s[i])) as usize }
}

/// The belt a recipe entry of the `to`-th item is drawn as.
pub open spec fn belt_into(s: Seq<Item>, to: int) -> spec_fn((Item, u32)) -> Belt {
    |e: (Item, u32)| Belt { from: pos_of(s, e.0) as usize, to: to as usize, count: e.1 }
}

/// The belts into the first `n` items, item by item, each in recipe order.
pub open spec fn belts_upto(s: Seq<Item>, n: int) -> Seq<Belt>
    decreases n,
{
    if n <= 0 {
        Seq::empty()
    } else {
        belts_upto(s, n - 1) + recipe_table(s[n - 1]).map_values(belt_into(s, n - 1))
    }
}

/// The highest row anything of `s` stands on.
pub open spec fn top_row(s: Seq<Item>) -> nat
    decreases s.len(),
{
    if s.len() == 0 {
        0
    } else if tier(s.last()) > top_row(s.drop_last()) {
        tier(s.last())
    } else {
        top_row(s.drop_last())
    }
}

/// The most things on any one of the rows below `d`.
pub open spec fn busiest(s: Seq<Item>, d: nat) -> nat
    decreases d,
{
    if d == 0 {
        0
    } else {
        let here = s.filter(|x: Item| tier(x) == (d - 1) as nat).len();
        if here > busiest(s, (d - 1) as nat) {
            here
        } else {
            busiest(s, (d - 1) as nat)
        }
    }
}

/// Does the list hold the item?
fn listed(found: &Vec<Item>, item: Item) -> (r: bool)
    ensures
        r == found@.contains(item),
{
    let mut i: usize = 0;
    while i < found.len()
        invariant
            i <= found@.len(),
            forall|k: int| 0 <= k < i ==> found@[k] != item,
        decreases found@.len() - i,
    {
        if found[i] == item {
            assert(found@[i as int] == item);
            return true;
        }
        i = i + 1;
    }
    false
}

/// Where the item sits in a list that holds it once.
fn position(found: &Vec<Item>, item: Item) -> (r: usize)
    requires
        found@.contains(item),
        found@.no_duplicates(),
    ensures
        r < found@.len(),
        found@[r as int] == item,
        r == pos_of(found@, item),
{
    let mut i: usize = 0;
    while i < found.len()
        invariant
            i <= found@.len(),
            found@.contains(item),
            found@.no_duplicates(),
            forall|k: int| 0 <= k < i ==> found@[k] != item,
        decreases found@.len() - i,
    {
        if found[i] == item {
            proof {
                let p = pos_of(found@, item);
                assert(0 <= i < found@.len() && found@[i as int] == item);
                if p != i {
                    assert(found@[p] == found@[i as int]);
                }
            }
            return i;
        }
        i = i + 1;
    }
    proof {
        let k = choose|k: int| 0 <= k < found@.len() && found@[k] == item;
    }
    0
}

/// Everything that goes into `item` not already found, depth first in recipe order.
fn walk_into(item: Item, found: &mut Vec<Item>)
    ensures
        final(found)@ == walk(item, old(found)@),
    decreases tier(item),
{
    if listed(found, item) {
        return;
    }
    found.push(item);
    proof {
        lemma_recipe_well_founded(item);
    }
    let recipe = item.recipe();
    let ghost start = found@;
    assert(recipe@.skip(0) =~= recipe@);
    let mut j: usize = 0;
    while j < recipe.len()
        invariant
            j <= recipe@.len(),
            recipe@ == recipe_table(item),
            forall|k: int| 0 <= k < recipe@.len() ==> tier(#[trigger] recipe@[k].0) < tier(item),
            walk_all(recipe@, start, tier(item)) == walk_all(recipe@.skip(j as int), found@, tier(item)),
        decreases recipe@.len() - j,
    {
        let g = recipe[j].0;
        proof {
            assert(recipe@.skip(j as int)[0] == recipe@[j as int]);
            assert(recipe@.skip(j as int).drop_first() =~= recipe@.skip(j + 1));
            assert(tier(recipe@[j as int].0) < tier(item));
        }
        walk_into(g, found);
        j = j + 1;
    }
    assert(recipe@.skip(recipe@.len() as int) =~= Seq::<(Item, u32)>::empty());
}

/// The row of an item.
fn row_of(item: Item) -> (r: usize)
    ensures
        r == tier(item),
{
    match item {
        Item::Cushion | Item::Nail => 1,
        Item::Hammer | Item::Drill | Item::Handgun | Item::Rifle | Item::Parachute | Item::Car => 2,
        _ => 0,
    }
}

/// Heights where every item stands at least one above each of its ingredients, and none
/// above its longest chain, are the longest chains.
proof fn lemma_heights_settled(found: Seq<Item>, h: Seq<usize>, k: int)
    requires
        h.len() == found.len(),
        0 <= k < found.len(),
        found.no_duplicates(),
        forall|q: int, j: int|
            0 <= q < found.len() && 0 <= j < recipe_table(found[q]).len() ==> found.contains(
                (#[trigger] recipe_table(#[trigger] found[q])[j]).0,
            ),
        forall|q: int| 0 <= q < found.len() ==> #[trigger] h[q] <= tier(found[q]),
        forall|q: int, j: int|
            0 <= q < found.len() && 0 <= j < recipe_table(found[q]).len() ==> h[q] >= h[pos_of(
                found,
                (#[trigger] recipe_table(#[trigger] found[q])[j]).0,
            )] + 1,
    ensures
        h[k] == tier(found[k]),
    decreases tier(found[k]),
{
    let item = found[k];
    lemma_tier_longest(item);
    lemma_recipe_well_founded(item);
    if recipe_table(item).len() > 0 {
        let w = choose|w: int| 0 <= w < recipe_table(item).len() && tier(
            #[trigger] recipe_table(item)[w].0,
        ) + 1 == tier(item);
        let g = recipe_table(item)[w].0;
        assert(found.contains(recipe_table(found[k])[w].0));
        let p = pos_of(found, g);
        assert(0 <= p < found.len() && found[p] == g);
        lemma_heights_settled(found, h, p);
        assert(h[k] >= h[p] + 1);
    }
}

/// Heights by repeated relaxation over the items actually on screen: a shared ingredient
/// is then visited once instead of once per path into it. It settles in as many passes as
/// the graph is deep.
fn heights(found: &Vec<Item>) -> (r: Vec<usize>)
    requires
        closed_over(found@, Seq::empty()),
    ensures
        r@.len() == found@.len(),
        forall|i: int| 0 <= i < found@.len() ==> #[trigger] r@[i] == tier(found@[i]),
{
    let n = found.len();
    let mut h: Vec<usize> = Vec::new();
    let mut i: usize = 0;
    while i < n
        invariant
            n == found@.len(),
            i <= n,
            h@.len() == i,
            forall|k: int| 0 <= k < i ==> #[trigger] h@[k] == 0,
        decreases n - i,
    {
        h.push(0);
        i = i + 1;
    }
    let mut pass: usize = 0;
    let mut settled = false;
    while pass < n && !settled
        invariant
            n == found@.len(),
            closed_over(found@, Seq::empty()),
            h@.len() == n,
            pass <= n,
            forall|k: int| 0 <= k < n ==> #[trigger] h@[k] <= tier(found@[k]),
            forall|k: int|
                0 <= k < n ==> #[trigger] h@[k] >= if tier(found@[k]) <= pass {
                    tier(found@[k]) as int
                } else {
                    pass as int
                },
            settled ==> forall|k: int| 0 <= k < n ==> #[trigger] h@[k] == tier(found@[k]),
        decreases n - pass,
    {
        let mut moved = false;
        let ghost start = h@;
        let mut i: usize = 0;
        while i < n
            invariant
                n == found@.len(),
                closed_over(found@, Seq::empty()),
                h@.len() == n,
                i <= n,
                pass < n,
                forall|k: int| 0 <= k < n ==> #[trigger] h@[k] <= tier(found@[k]),
                forall|k: int| 0 <= k < n ==> #[trigger] h@[k] >= start[k],
                forall|k: int|
                    0 <= k < n ==> #[trigger] start[k] >= if tier(found@[k]) <= pass {
                        tier(found@[k]) as int
                    } else {
                        pass as int
                    },
                forall|k: int|
                    0 <= k < i ==> #[trigger] h@[k] >= if tier(found@[k]) <= pass + 1 {
                        tier(found@[k]) as int
                    } else {
                        pass + 1
                    },
                !moved ==> h@ == start,
                !moved ==> forall|q: int, j: int|
                    0 <= q < i && 0 <= j < recipe_table(found@[q]).len() ==> h@[q] >= h@[pos_of(
                        found@,
                        (#[trigger] recipe_table(#[trigger] found@[q])[j]).0,
                    )] + 1,
            decreases n - i,
        {
            let item = found[i];
            proof {
                lemma_recipe_well_founded(item);
                lemma_tier_longest(item);
            }
            let recipe = item.recipe();
            let mut want: usize = 0;
            let mut j: usize = 0;
            while j < recipe.len()
                invariant
                    n == found@.len(),
                    i < n,
                    item == found@[i as int],
                    closed_over(found@, Seq::empty()),
                    recipe@ == recipe_table(item),
                    h@.len() == n,
                    forall|k: int| 0 <= k < n ==> #[trigger] h@[k] <= tier(found@[k]),
                    j <= recipe@.len(),
                    want <= tier(item),
                    forall|q: int| 0 <= q < j ==> want >= h@[pos_of(found@, (#[trigger] recipe@[q]).0)] + 1,
                    forall|q: int| 0 <= q < recipe@.len() ==> tier((#[trigger] recipe@[q]).0) < tier(item),
                decreases recipe@.len() - j,
            {
                let g = recipe[j].0;
                proof {
                    assert(found@.contains(recipe_table(found@[i as int])[j as int].0));
                }
                let p = position(found, g);
                let up = h[p] + 1;
                if up > want {
                    want = up;
                }
                j = j + 1;
            }
            let ghost d0 = h@;
            proof {
                if recipe_table(item).len() > 0 {
                    let w = choose|w: int| 0 <= w < recipe_table(item).len() && tier(
                        #[trigger] recipe_table(item)[w].0,
                    ) + 1 == tier(item);
                    let g = recipe_table(item)[w].0;
                    assert(found@.contains(recipe_table(found@[i as int])[w].0));
                    let p = pos_of(found@, g);
                    assert(0 <= p < n && found@[p] == g);
                    assert(want >= d0[p] + 1);
                    assert(d0[p] >= start[p]);
                    assert(want >= if tier(item) <= pass + 1 {
                        tier(item) as int
                    } else {
                        pass + 1
                    });
                }
            }
            if want > h[i] {
                h.set(i, want);
                moved = true;
            }
            i = i + 1;
        }
        if !moved {
            settled = true;
            proof {
                assert forall|k: int| 0 <= k < n implies #[trigger] h@[k] == tier(found@[k]) by {
                    lemma_heights_settled(found@, h@, k);
                }
            }
        }
        pass = pass + 1;
    }
    proof {
        if !settled {
            assert forall|k: int| 0 <= k < n implies #[trigger] h@[k] == tier(found@[k]) by {
                lemma_recipe_well_founded(found@[k]);
            }
        }
    }
    h
}

/// Counting one more item of a list by row.
proof fn lemma_on_row_step(s: Seq<Item>, i: int, d: nat)
    requires
        0 <= i < s.len(),
    ensures
        on_row_before(s, i + 1, d) == on_row_before(s, i, d) + if tier(s[i]) == d {
            1nat
        } else {
            0nat
        },
{
    reveal_with_fuel(Seq::filter, 1);
    assert(s.take(i + 1).drop_last() =~= s.take(i));
    assert(s.take(i + 1).last() == s[i]);
}

/// Nothing of a list stands above its highest row.
proof fn lemma_top_row_bounds(s: Seq<Item>)
    ensures
        forall|k: int| 0 <= k < s.len() ==> tier(#[trigger] s[k]) <= top_row(s),
    decreases s.len(),
{
    if s.len() > 0 {
        lemma_top_row_bounds(s.drop_last());
        assert forall|k: int| 0 <= k < s.len() implies tier(#[trigger] s[k]) <= top_row(s) by {
            if k < s.len() - 1 {
                assert(s.drop_last()[k] == s[k]);
            }
        }
    }
}

/// The highest row of a list one longer.
proof fn lemma_top_row_step(s: Seq<Item>, i: int)
    requires
        0 <= i < s.len(),
    ensures
        top_row(s.take(i + 1)) == if tier(s[i]) > top_row(s.take(i)) {
            tier(s[i])
        } else {
            top_row(s.take(i))
        },
{
    assert(s.take(i + 1).drop_last() =~= s.take(i));
    assert(s.take(i + 1).last() == s[i]);
}

/// Everything that goes into `want`, once each, placed on a grid: each thing on the row of
/// its longest chain down to the ground, so a thing is always drawn above everything it is
/// made of, and left to right along its row in the order it was found.
pub fn layout(want: Item) -> (r: Web)
    ensures
        r.spots@.len() == gathered(want).len(),
        forall|i: int| 0 <= i < r.spots@.len() ==> #[trigger] r.spots@[i] == spot_of(gathered(want), i),
        r.belts@ == belts_upto(gathered(want), gathered(want).len() as int),
        r.rows == top_row(gathered(want)) + 1,
        r.widest == busiest(gathered(want), r.rows as nat),
{
    let mut found: Vec<Item> = Vec::new();
    walk_into(want, &mut found);
    proof {
        lemma_walk(want, Seq::empty());
    }
    let n = found.len();
    let h = heights(&found);
    let mut top: usize = 0;
    let mut i: usize = 0;
    while i < n
        invariant
            n == found@.len(),
            h@.len() == n,
            forall|k: int| 0 <= k < n ==> #[trigger] h@[k] == tier(found@[k]),
            i <= n,
            top == top_row(found@.take(i as int)),
            top <= top_tier(),
        decreases n - i,
    {
        proof {
            lemma_top_row_step(found@, i as int);
            lemma_recipe_well_founded(found@[i as int]);
        }
        if h[i] > top {
            top = h[i];
        }
        i = i + 1;
    }
    assert(found@.take(n as int) =~= found@);
    proof {
        lemma_top_row_bounds(found@);
    }
    let rows = top + 1;
    let mut filled: Vec<usize> = Vec::new();
    let mut d: usize = 0;
    while d < rows
        invariant
            d <= rows,
            filled@.len() == d,
            forall|e: int| 0 <= e < d ==> #[trigger] filled@[e] == 0,
        decreases rows - d,
    {
        filled.push(0);
        d = d + 1;
    }
    let mut spots: Vec<Spot> = Vec::new();
    let mut i: usize = 0;
    while i < n
        invariant
            n == found@.len(),
            h@.len() == n,
            forall|k: int| 0 <= k < n ==> #[trigger] h@[k] == tier(found@[k]),
            rows == top_row(found@) + 1,
            forall|k: int| 0 <= k < n ==> tier(#[trigger] found@[k]) < rows,
            i <= n,
            filled@.len() == rows,
            forall|e: int| 0 <= e < rows ==> #[trigger] filled@[e] == on_row_before(found@, i as int, e as nat),
            spots@.len() == i,
            forall|k: int| 0 <= k < i ==> #[trigger] spots@[k] == spot_of(found@, k),
        decreases n - i,
    {
        let row = h[i];
        let col = filled[row];
        spots.push(Spot { item: found[i], row, col });
        proof {
            assert forall|e: int| 0 <= e < rows implies #[trigger] on_row_before(found@, i + 1, e as nat)
                == on_row_before(found@, i as int, e as nat) + if e == row {
                1nat
            } else {
                0nat
            } by {
                lemma_on_row_step(found@, i as int, e as nat);
            }
            assert(on_row_before(found@, i as int, row as nat) <= i) by {
                assert(found@.take(i as int).filter(|x: Item| tier(x) == row as nat).len() <= found@.take(i as int).len()) by {
                    found@.take(i as int).lemma_filter_len(|x: Item| tier(x) == row as nat);
                }
            }
        }
        filled.set(row, col + 1);
        i = i + 1;
    }
    let mut belts: Vec<Belt> = Vec::new();
    let mut to: usize = 0;
    while to < n
        invariant
            n == found@.len(),
            closed_over(found@, Seq::empty()),
            to <= n,
            belts@ == belts_upto(found@, to as int),
        decreases n - to,
    {
        let item = found[to];
        let recipe = item.recipe();
        let ghost base = belts@;
        let mut j: usize = 0;
        while j < recipe.len()
            invariant
                n == found@.len(),
                closed_over(found@, Seq::empty()),
                to < n,
                item == found@[to as int],
                recipe@ == recipe_table(item),
                j <= recipe@.len(),
                belts@ == base + recipe@.take(j as int).map_values(belt_into(found@, to as int)),
            decreases recipe@.len() - j,
        {
            let (g, count) = recipe[j];
            proof {
                assert(found@.contains(recipe_table(found@[to as int])[j as int].0));
            }
            let from = position(&found, g);
            belts.push(Belt { from, to, count });
            proof {
                assert(recipe@.take(j + 1) =~= recipe@.take(j as int).push((g, count)));
                assert(belts@ =~= base + recipe@.take(j + 1).map_values(belt_into(found@, to as int)));
            }
            j = j + 1;
        }
        assert(recipe@.take(recipe@.len() as int) =~= recipe@);
        to = to + 1;
    }
    let mut widest: usize = 0;
    let mut e: usize = 0;
    while e < rows
        invariant
            e <= rows,
            filled@.len() == rows,
            forall|q: int| 0 <= q < rows ==> #[trigger] filled@[q] == on_row_before(found@, n as int, q as nat),
            n == found@.len(),
            widest == busiest(found@, e as nat),
        decreases rows - e,
    {
        proof {
            assert(found@.take(n as int) =~= found@);
        }
        if filled[e] > widest {
            widest = filled[e];
        }
        e = e + 1;
    }
    Web { spots, belts, rows, widest }
}

/// Everything that goes into a thing is drawn once, the thing itself first, and whatever
/// anything drawn is made of is drawn too.
pub proof fn lemma_gathered(want: Item)
    ensures
        gathered(want).no_duplicates(),
        gathered(want).len() >= 1,
        gathered(want)[0] == want,
        forall|k: int, j: int|
            0 <= k < gathered(want).len() && 0 <= j < recipe_table(gathered(want)[k]).len()
                ==> gathered(want).contains(
                (#[trigger] recipe_table(#[trigger] gathered(want)[k])[j]).0,
            ),
{
    lemma_walk(want, Seq::empty());
    lemma_recipe_well_founded(want);
    let start = Seq::<Item>::empty().push(want);
    lemma_walk_all(recipe_table(want), start, tier(want));
    assert(!Seq::<Item>::empty().contains(want));
}

/// Nothing is made out of something beside it: every belt runs from a lower row to a
/// higher one.
pub proof fn lemma_belts_run_upward(want: Item, b: int)
    requires
        0 <= b < belts_upto(gathered(want), gathered(want).len() as int).len(),
    ensures
        ({
            let s = gathered(want);
            let belt = belts_upto(s, s.len() as int)[b];
            &&& 0 <= belt.from < s.len()
            &&& 0 <= belt.to < s.len()
            &&& tier(s[belt.from as int]) < tier(s[belt.to as int])
        }),
{
    lemma_gathered(want);
    let s = gathered(want);
    lemma_distinct_items_few(s);
    lemma_belts_upward(s, s.len() as int, b);
}

/// The picture has the ground at the bottom and the thing asked for alone on top: a thing
/// stands on the bottom row exactly when it is dug up rather than made, and the first thing
/// gathered, the one asked for, stands above everything else in its graph.
pub proof fn lemma_ground_below_want_on_top(want: Item)
    ensures
        ({
            let s = gathered(want);
            &&& s[0] == want
            &&& top_row(s) == tier(want)
            &&& forall|k: int| 0 <= k < s.len() ==> (tier(#[trigger] s[k]) == 0 <==> recipe_table(s[k]).len() == 0)
            &&& forall|k: int| 0 <= k < s.len() ==> (tier(#[trigger] s[k]) == top_row(s) <==> k == 0)
        }),
{
    lemma_gathered(want);
    let s = gathered(want);
    let start = Seq::<Item>::empty().push(want);
    assert(!Seq::<Item>::empty().contains(want));
    lemma_walk_all_tiers(recipe_table(want), start, tier(want));
    assert forall|k: int| 0 <= k < s.len() implies (tier(#[trigger] s[k]) == 0 <==> recipe_table(s[k]).len() == 0) by {
        lemma_recipe_well_founded(s[k]);
    }
    lemma_top_row_first(s);
}

/// The highest row of a list whose first thing stands above all the rest is that thing's.
proof fn lemma_top_row_first(s: Seq<Item>)
    requires
        s.len() > 0,
        forall|k: int| 1 <= k < s.len() ==> tier(#[trigger] s[k]) < tier(s[0]),
    ensures
        top_row(s) == tier(s[0]),
    decreases s.len(),
{
    if s.len() > 1 {
        let d = s.drop_last();
        assert forall|k: int| 1 <= k < d.len() implies tier(#[trigger] d[k]) < tier(d[0]) by {
            assert(d[k] == s[k]);
        }
        lemma_top_row_first(d);
        assert(d[0] == s[0]);
        assert(tier(s[s.len() - 1]) < tier(s[0]));
    } else {
        assert(s.drop_last().len() == 0);
        assert(top_row(s.drop_last()) == 0);
    }
}

/// Walking down from `item` keeps what was found, and whatever it adds stands no higher
/// than `item`.
proof fn lemma_walk_tiers(item: Item, found: Seq<Item>)
    ensures
        found.len() <= walk(item, found).len(),
        forall|k: int| 0 <= k < found.len() ==> #[trigger] walk(item, found)[k] == found[k],
        forall|k: int| found.len() <= k < walk(item, found).len() ==> tier(#[trigger] walk(item, found)[k]) <= tier(item),
    decreases tier(item), 1nat, 0nat,
{
    if !found.contains(item) {
        let start = found.push(item);
        lemma_walk_all_tiers(recipe_table(item), start, tier(item));
        let out = walk(item, found);
        assert forall|k: int| 0 <= k < found.len() implies #[trigger] out[k] == found[k] by {
            assert(out[k] == start[k]);
        }
        assert forall|k: int| found.len() <= k < out.len() implies tier(#[trigger] out[k]) <= tier(item) by {
            if k == found.len() {
                assert(out[k] == start[k]);
            }
        }
    }
}

/// Walking a recipe below `bound` keeps what was found, and adds only things below `bound`.
proof fn lemma_walk_all_tiers(r: Seq<(Item, u32)>, found: Seq<Item>, bound: nat)
    ensures
        found.len() <= walk_all(r, found, bound).len(),
        forall|k: int| 0 <= k < found.len() ==> #[trigger] walk_all(r, found, bound)[k] == found[k],
        forall|k: int| found.len() <= k < walk_all(r, found, bound).len() ==> tier(#[trigger] walk_all(r, found, bound)[k]) < bound,
    decreases bound, 0nat, r.len(),
{
    if r.len() > 0 && tier(r[0].0) < bound {
        let mid = walk(r[0].0, found);
        lemma_walk_tiers(r[0].0, found);
        lemma_walk_all_tiers(r.drop_first(), mid, bound);
        let out = walk_all(r, found, bound);
        assert forall|k: int| 0 <= k < found.len() implies #[trigger] out[k] == found[k] by {
            assert(out[k] == mid[k]);
        }
        assert forall|k: int| found.len() <= k < out.len() implies tier(#[trigger] out[k]) < bound by {
            if k < mid.len() {
                assert(out[k] == mid[k]);
            }
        }
    }
}

/// No list of distinct items is longer than the registry.
proof fn lemma_distinct_items_few(s: Seq<Item>)
    requires
        s.no_duplicates(),
    ensures
        s.len() <= ITEM_COUNT,
{
    s.unique_seq_to_set();
    let every = all_items();
    assert forall|x: Item| s.to_set().contains(x) implies every.to_set().contains(x) by {
        lemma_index_inverse(x);
        assert(every[item_index(x)] == x);
    }
    every.lemma_cardinality_of_set();
    vstd::set_lib::lemma_len_subset(s.to_set(), every.to_set());
}

proof fn lemma_belts_upward(s: Seq<Item>, n: int, b: int)
    requires
        0 <= n <= s.len(),
        s.len() <= ITEM_COUNT,
        0 <= b < belts_upto(s, n).len(),
        forall|k: int, j: int|
            0 <= k < s.len() && 0 <= j < recipe_table(s[k]).len() ==> s.contains(
                (#[trigger] recipe_table(#[trigger] s[k])[j]).0,
            ),
    ensures
        0 <= belts_upto(s, n)[b].from < s.len(),
        0 <= belts_upto(s, n)[b].to < n,
        tier(s[belts_upto(s, n)[b].from as int]) < tier(s[belts_upto(s, n)[b].to as int]),
    decreases n,
{
    let front = belts_upto(s, n - 1);
    if b < front.len() {
        lemma_belts_upward(s, n - 1, b);
    } else {
        let j = b - front.len();
        let r = recipe_table(s[n - 1]);
        lemma_recipe_well_founded(s[n - 1]);
        assert(s.contains(recipe_table(s[n - 1])[j].0));
        let g = r[j].0;
        let p = pos_of(s, g);
        assert(0 <= p < s.len() && s[p] == g);
        assert(tier(r[j].0) < tier(s[n - 1]));
        assert(belts_upto(s, n)[b] == r.map_values(belt_into(s, n - 1))[j]);
        assert(belts_upto(s, n)[b] == belt_into(s, n - 1)(r[j]));
    }
}

} // verus!
