//! Why a plan can be trusted: a plan that comes back with nothing short can be run from
//! the first step to the last, every craft paid for when its turn comes, and running it
//! leaves one more of the thing that was asked for.
//!
//! The planner works on a copy of the pile and never crafts: what it makes is "made and
//! spent in the same breath". The proofs here follow a player's own pile alongside that copy.
//! Whatever the copy still holds, the player's own pile holds too, and on top of that it holds
//! everything that has been taken or made for a recipe that is still being gathered.
use vstd::prelude::*;
use crate::inventory::{
    Planning, all_affordable, apply_crafts, bump, can_craft_spec, count_of, crafted,
    distinct_items, need_in, obtain_list, obtain_rep, obtain_spec, paid, plan_spec, sat_add,
    well_sized, lemma_index_in_range, lemma_need_absent, lemma_paid_formula,
    lemma_paid_frame,
};
use crate::registry::{
    Item, lemma_index_inverse, lemma_recipe_well_founded, most_needed, recipe_table, tier,
    top_tier,
};

verus! {

/// What planning never undoes: the shortfall only grows, crafts are only ever appended,
/// every appended craft is of something below tier `cap`, and the shelf only empties.
pub open spec fn grows_from(before: Planning, after: Planning, cap: nat) -> bool {
    &&& after.short.len() >= before.short.len()
    &&& after.steps.len() >= before.steps.len()
    &&& after.steps.take(before.steps.len() as int) == before.steps
    &&& forall|k: int|
        before.steps.len() <= k < after.steps.len() ==> tier(#[trigger] after.steps[k]) < cap
    &&& well_sized(after.stock)
    &&& forall|y: Item| count_of(after.stock, y) <= count_of(before.stock, y)
}

proof fn lemma_grows_refl(st: Planning, cap: nat)
    requires
        well_sized(st.stock),
    ensures
        grows_from(st, st, cap),
{
    assert(st.steps.take(st.steps.len() as int) =~= st.steps);
}

proof fn lemma_grows_trans(a: Planning, b: Planning, c: Planning, cap: nat)
    requires
        grows_from(a, b, cap),
        grows_from(b, c, cap),
    ensures
        grows_from(a, c, cap),
{
    assert(c.steps.take(a.steps.len() as int) =~= c.steps.take(b.steps.len() as int).take(
        a.steps.len() as int,
    ));
    assert forall|k: int| a.steps.len() <= k < c.steps.len() implies tier(#[trigger] c.steps[k])
        < cap by {
        if k < b.steps.len() {
            assert(c.steps.take(b.steps.len() as int)[k] == c.steps[k]);
            assert(b.steps[k] == c.steps[k]);
        }
    }
}

/// A shortfall list never gets shorter by one more thing going missing, and is never empty
/// after it.
proof fn lemma_bump_len(short: Seq<(Item, u32)>, item: Item)
    ensures
        bump(short, item).len() >= short.len(),
        bump(short, item).len() >= 1,
    decreases short.len(),
{
    if short.len() > 0 && short[0].0 != item {
        lemma_bump_len(short.drop_first(), item);
    }
}

/// Taking one thing off a shelf keeps it a shelf, and empties it by one.
pub(crate) proof fn lemma_take_one(s: Seq<u32>, item: Item)
    requires
        well_sized(s),
        count_of(s, item) >= 1,
    ensures
        well_sized(crate::inventory::taken(s, item, 1)),
        forall|y: Item| count_of(crate::inventory::taken(s, item, 1), y) <= count_of(s, y),
        count_of(crate::inventory::taken(s, item, 1), item) == count_of(s, item) - 1,
        forall|y: Item|
            y != item ==> count_of(crate::inventory::taken(s, item, 1), y) == count_of(s, y),
{
    lemma_index_in_range(item);
    assert forall|y: Item| y != item implies count_of(crate::inventory::taken(s, item, 1), y)
        == count_of(s, y) by {
        lemma_index_in_range(y);
        lemma_index_inverse(y);
        lemma_index_inverse(item);
    }
}

/// Obtaining one thing only ever appends crafts of things no higher than it.
proof fn lemma_obtain_shape(st: Planning, item: Item)
    requires
        well_sized(st.stock),
    ensures
        grows_from(st, obtain_spec(st, item), tier(item) + 1),
    decreases tier(item), 2nat, 0nat,
{
    let out = obtain_spec(st, item);
    if count_of(st.stock, item) >= 1 {
        lemma_take_one(st.stock, item);
        lemma_grows_refl(st, tier(item) + 1);
    } else if recipe_table(item).len() == 0 {
        lemma_bump_len(st.short, item);
        lemma_grows_refl(st, tier(item) + 1);
    } else {
        lemma_recipe_well_founded(item);
        let made = obtain_list(st, recipe_table(item), tier(item));
        lemma_list_shape(st, recipe_table(item), tier(item));
        assert(out.steps == made.steps.push(item));
        assert(out.steps.take(st.steps.len() as int) =~= made.steps.take(st.steps.len() as int));
        assert forall|k: int| st.steps.len() <= k < out.steps.len() implies tier(
            #[trigger] out.steps[k],
        ) < tier(item) + 1 by {
            if k < made.steps.len() {
                assert(out.steps[k] == made.steps[k]);
            }
        }
    }
}

/// Obtaining `n` of one thing only ever appends crafts of things below the bound.
proof fn lemma_rep_shape(st: Planning, item: Item, n: nat, bound: nat)
    requires
        well_sized(st.stock),
    ensures
        grows_from(st, obtain_rep(st, item, n, bound), bound),
    decreases bound, 0nat, n,
{
    if n == 0 || tier(item) >= bound {
        lemma_grows_refl(st, bound);
    } else {
        let mid = obtain_rep(st, item, (n - 1) as nat, bound);
        lemma_rep_shape(st, item, (n - 1) as nat, bound);
        lemma_obtain_shape(mid, item);
        lemma_grows_trans(st, mid, obtain_spec(mid, item), bound);
    }
}

/// Gathering a recipe only ever appends crafts of things below the bound.
proof fn lemma_list_shape(st: Planning, r: Seq<(Item, u32)>, bound: nat)
    requires
        well_sized(st.stock),
    ensures
        grows_from(st, obtain_list(st, r, bound), bound),
    decreases bound, 1nat, r.len(),
{
    if r.len() == 0 {
        lemma_grows_refl(st, bound);
    } else {
        let mid = obtain_list(st, r.drop_last(), bound);
        lemma_list_shape(st, r.drop_last(), bound);
        lemma_rep_shape(mid, r.last().0, r.last().1 as nat, bound);
        lemma_grows_trans(
            st,
            mid,
            obtain_rep(mid, r.last().0, r.last().1 as nat, bound),
            bound,
        );
    }
}

/// The most one recipe being gathered can have pending of one item, counted from the
/// tier of what is being obtained up to the top of the recipe graph.
pub open spec fn pending_cap(t: int) -> int {
    most_needed() * (top_tier() + 1 - t)
}

/// The crafts a planning step added after the ones it started with.
pub open spec fn new_steps(before: Planning, after: Planning) -> Seq<Item> {
    after.steps.skip(before.steps.len() as int)
}

/// The player's own pile holds whatever the planner's shelf holds, and everything pending on top.
pub open spec fn covers(pile: Seq<u32>, shelf: Seq<u32>, pending: spec_fn(Item) -> nat) -> bool {
    forall|y: Item| #[trigger] count_of(pile, y) >= count_of(shelf, y) + pending(y)
}

/// `n` more of `item` pending.
pub open spec fn plus(pending: spec_fn(Item) -> nat, item: Item, n: nat) -> spec_fn(Item) -> nat {
    |y: Item| pending(y) + if y == item { n } else { 0 }
}

/// A whole recipe more pending.
pub open spec fn with_recipe(pending: spec_fn(Item) -> nat, r: Seq<(Item, u32)>) -> spec_fn(
    Item,
) -> nat {
    |y: Item| pending(y) + need_in(r, y)
}

/// Running two lists of crafts one after the other is running the two joined.
proof fn lemma_apply_concat(s: Seq<u32>, a: Seq<Item>, b: Seq<Item>)
    ensures
        apply_crafts(s, a + b) == apply_crafts(apply_crafts(s, a), b),
    decreases b.len(),
{
    if b.len() == 0 {
        assert(a + b =~= a);
    } else {
        assert((a + b).drop_last() =~= a + b.drop_last());
        assert((a + b).last() == b.last());
        lemma_apply_concat(s, a, b.drop_last());
    }
}

/// Two lists of crafts that can each be run from where the other leaves off can be run
/// joined.
proof fn lemma_affordable_concat(s: Seq<u32>, a: Seq<Item>, b: Seq<Item>)
    requires
        all_affordable(s, a),
        all_affordable(apply_crafts(s, a), b),
    ensures
        all_affordable(s, a + b),
{
    assert forall|k: int| 0 <= k < (a + b).len() implies #[trigger] can_craft_spec(
        apply_crafts(s, (a + b).take(k)),
        (a + b)[k],
    ) by {
        if k < a.len() {
            assert((a + b).take(k) =~= a.take(k));
            assert(can_craft_spec(apply_crafts(s, a.take(k)), a[k]));
        } else {
            assert((a + b).take(k) =~= a + b.take(k - a.len()));
            lemma_apply_concat(s, a, b.take(k - a.len()));
            assert(can_craft_spec(apply_crafts(apply_crafts(s, a), b.take(k - a.len())), b[k - a.len()]));
        }
    }
}

/// Crafting keeps a pile a pile.
proof fn lemma_apply_sized(s: Seq<u32>, d: Seq<Item>)
    requires
        well_sized(s),
    ensures
        well_sized(apply_crafts(s, d)),
    decreases d.len(),
{
    if d.len() > 0 {
        lemma_apply_sized(s, d.drop_last());
        let before = apply_crafts(s, d.drop_last());
        lemma_paid_frame(before, recipe_table(d.last()), d.last());
        lemma_index_in_range(d.last());
    }
}

/// In a recipe with no item twice, the need for an entry's item is that entry's count.
proof fn lemma_need_at(r: Seq<(Item, u32)>, j: int)
    requires
        distinct_items(r),
        0 <= j < r.len(),
    ensures
        need_in(r, r[j].0) == r[j].1,
    decreases r.len(),
{
    let front = r.drop_last();
    assert forall|a: int, b: int| 0 <= a < b < front.len() implies front[a].0 != front[b].0 by {
        assert(front[a] == r[a] && front[b] == r[b]);
    }
    if j == r.len() - 1 {
        assert forall|k: int| 0 <= k < front.len() implies front[k].0 != r[j].0 by {
            assert(front[k] == r[k]);
        }
        lemma_need_absent(front, r[j].0);
    } else {
        assert(front[j] == r[j]);
        lemma_need_at(front, j);
    }
}

/// No recipe needs more of one thing than [`most_needed`].
proof fn lemma_need_bound(item: Item, g: Item)
    ensures
        need_in(recipe_table(item), g) <= most_needed(),
{
    let r = recipe_table(item);
    lemma_recipe_well_founded(item);
    if exists|j: int| 0 <= j < r.len() && r[j].0 == g {
        let j = choose|j: int| 0 <= j < r.len() && r[j].0 == g;
        lemma_need_at(r, j);
    } else {
        lemma_need_absent(r, g);
    }
}

/// Where planning adds crafts in two stretches, the crafts it added are the two joined.
proof fn lemma_new_steps_split(a: Planning, b: Planning, c: Planning, cap: nat)
    requires
        grows_from(a, b, cap),
        grows_from(b, c, cap),
    ensures
        new_steps(a, c) == new_steps(a, b) + new_steps(b, c),
{
    assert forall|k: int| 0 <= k < b.steps.len() implies b.steps[k] == c.steps[k] by {
        assert(c.steps.take(b.steps.len() as int)[k] == c.steps[k]);
    }
    assert(new_steps(a, c) =~= new_steps(a, b) + new_steps(b, c));
}

/// The last craft of an obtain: once a recipe is gathered, the thing can be made, and
/// making it turns the gathered recipe into one pending thing.
proof fn lemma_make_last(
    pile: Seq<u32>,
    st: Planning,
    made: Planning,
    item: Item,
    pending: spec_fn(Item) -> nat,
)
    requires
        well_sized(pile),
        recipe_table(item).len() > 0,
        all_affordable(pile, new_steps(st, made)),
        well_sized(made.stock),
        covers(
            apply_crafts(pile, new_steps(st, made)),
            made.stock,
            with_recipe(pending, recipe_table(item)),
        ),
    ensures
        all_affordable(pile, new_steps(st, made).push(item)),
        apply_crafts(pile, new_steps(st, made).push(item)) == crafted(
            apply_crafts(pile, new_steps(st, made)),
            item,
        ),
        count_of(made.stock, item) == 0 && pending(item) < u32::MAX ==> covers(
            apply_crafts(pile, new_steps(st, made).push(item)),
            made.stock,
            plus(pending, item, 1),
        ),
{
    let d = new_steps(st, made);
    let r = recipe_table(item);
    let r1 = apply_crafts(pile, d);
    lemma_recipe_well_founded(item);
    lemma_apply_sized(pile, d);
    assert forall|j: int| 0 <= j < r.len() implies count_of(r1, #[trigger] r[j].0) >= r[j].1 by {
        lemma_need_at(r, j);
        assert(count_of(r1, r[j].0) >= count_of(made.stock, r[j].0) + with_recipe(pending, r)(
            r[j].0,
        ));
    }
    assert(can_craft_spec(r1, item));
    assert(d.push(item).drop_last() =~= d);
    lemma_affordable_concat(pile, d, seq![item]);
    assert(d + seq![item] =~= d.push(item));
    assert(seq![item].take(0) =~= Seq::<Item>::empty());
    if count_of(made.stock, item) == 0 && pending(item) < u32::MAX {
        let out = crafted(r1, item);
        assert forall|y: Item| #[trigger] count_of(out, y) >= count_of(made.stock, y) + plus(
            pending,
            item,
            1,
        )(y) by {
            lemma_paid_formula(r1, r, y);
            lemma_paid_frame(r1, r, y);
            lemma_index_in_range(y);
            lemma_index_in_range(item);
            lemma_index_inverse(y);
            lemma_index_inverse(item);
            assert(count_of(r1, y) >= count_of(made.stock, y) + with_recipe(pending, r)(y));
            if y == item {
                lemma_need_absent(r, item);
            }
        }
    }
}

/// Obtaining one thing with nothing going short: the crafts it adds can be run on the
/// player's own pile, and afterwards the thing is pending on top of what was.
proof fn lemma_obtain_runs(pile: Seq<u32>, st: Planning, item: Item, pending: spec_fn(Item) -> nat)
    requires
        well_sized(pile),
        well_sized(st.stock),
        covers(pile, st.stock, pending),
        forall|y: Item| #[trigger] pending(y) <= pending_cap(tier(item) as int),
        obtain_spec(st, item).short.len() == 0,
    ensures
        all_affordable(pile, new_steps(st, obtain_spec(st, item))),
        covers(
            apply_crafts(pile, new_steps(st, obtain_spec(st, item))),
            obtain_spec(st, item).stock,
            plus(pending, item, 1),
        ),
    decreases tier(item), 2nat, 0nat,
{
    let out = obtain_spec(st, item);
    lemma_recipe_well_founded(item);
    if count_of(st.stock, item) >= 1 {
        lemma_take_one(st.stock, item);
        assert(new_steps(st, out) =~= Seq::<Item>::empty());
        assert(apply_crafts(pile, new_steps(st, out)) == pile);
        assert forall|y: Item| #[trigger] count_of(pile, y) >= count_of(out.stock, y) + plus(
            pending,
            item,
            1,
        )(y) by {
            assert(count_of(pile, y) >= count_of(st.stock, y) + pending(y));
        }
    } else if recipe_table(item).len() == 0 {
        lemma_bump_len(st.short, item);
    } else {
        let r = recipe_table(item);
        let made = obtain_list(st, r, tier(item));
        assert forall|y: Item| #[trigger] pending(y) + need_in(r, y) <= pending_cap(
            tier(item) - 1,
        ) by {
            lemma_need_bound(item, y);
        }
        lemma_list_shape(st, r, tier(item));
        lemma_list_runs(pile, st, r, tier(item), pending);
        lemma_make_last(pile, st, made, item, pending);
        assert(new_steps(st, out) =~= new_steps(st, made).push(item));
        assert(count_of(made.stock, item) <= count_of(st.stock, item));
    }
}

/// Obtaining `n` of one thing with nothing going short: the crafts can be run, and
/// afterwards all `n` are pending.
proof fn lemma_rep_runs(
    pile: Seq<u32>,
    st: Planning,
    item: Item,
    n: nat,
    bound: nat,
    pending: spec_fn(Item) -> nat,
)
    requires
        well_sized(pile),
        well_sized(st.stock),
        tier(item) < bound,
        covers(pile, st.stock, pending),
        forall|y: Item| #[trigger] plus(pending, item, n)(y) <= pending_cap(tier(item) as int),
        obtain_rep(st, item, n, bound).short.len() == 0,
    ensures
        all_affordable(pile, new_steps(st, obtain_rep(st, item, n, bound))),
        covers(
            apply_crafts(pile, new_steps(st, obtain_rep(st, item, n, bound))),
            obtain_rep(st, item, n, bound).stock,
            plus(pending, item, n),
        ),
    decreases bound, 0nat, n,
{
    let out = obtain_rep(st, item, n, bound);
    if n == 0 {
        assert(new_steps(st, out) =~= Seq::<Item>::empty());
        assert forall|y: Item| #[trigger] count_of(pile, y) >= count_of(out.stock, y) + plus(
            pending,
            item,
            n,
        )(y) by {
            assert(count_of(pile, y) >= count_of(st.stock, y) + pending(y));
        }
    } else {
        let m = (n - 1) as nat;
        let mid = obtain_rep(st, item, m, bound);
        let before = plus(pending, item, m);
        lemma_rep_shape(st, item, m, bound);
        lemma_obtain_shape(mid, item);
        assert(mid.short.len() == 0);
        assert forall|y: Item| #[trigger] plus(pending, item, m)(y) <= pending_cap(
            tier(item) as int,
        ) by {
            assert(plus(pending, item, n)(y) <= pending_cap(tier(item) as int));
        }
        lemma_rep_runs(pile, st, item, m, bound, pending);
        let pile1 = apply_crafts(pile, new_steps(st, mid));
        lemma_apply_sized(pile, new_steps(st, mid));
        assert forall|y: Item| #[trigger] before(y) <= pending_cap(tier(item) as int) by {
            assert(plus(pending, item, n)(y) <= pending_cap(tier(item) as int));
        }
        lemma_obtain_runs(pile1, mid, item, before);
        lemma_grows_trans(st, mid, out, bound);
        lemma_new_steps_split(st, mid, out, bound);
        lemma_affordable_concat(pile, new_steps(st, mid), new_steps(mid, out));
        lemma_apply_concat(pile, new_steps(st, mid), new_steps(mid, out));
        assert forall|y: Item| #[trigger] count_of(
            apply_crafts(pile, new_steps(st, out)),
            y,
        ) >= count_of(out.stock, y) + plus(pending, item, n)(y) by {
            assert(count_of(apply_crafts(pile1, new_steps(mid, out)), y) >= count_of(out.stock, y)
                + plus(before, item, 1)(y));
        }
    }
}

/// Gathering a whole recipe with nothing going short: the crafts can be run, and
/// afterwards the whole recipe is pending.
proof fn lemma_list_runs(
    pile: Seq<u32>,
    st: Planning,
    r: Seq<(Item, u32)>,
    bound: nat,
    pending: spec_fn(Item) -> nat,
)
    requires
        well_sized(pile),
        well_sized(st.stock),
        covers(pile, st.stock, pending),
        forall|j: int| 0 <= j < r.len() ==> tier(#[trigger] r[j].0) < bound,
        forall|y: Item| #[trigger] pending(y) + need_in(r, y) <= pending_cap(bound - 1),
        obtain_list(st, r, bound).short.len() == 0,
    ensures
        all_affordable(pile, new_steps(st, obtain_list(st, r, bound))),
        covers(
            apply_crafts(pile, new_steps(st, obtain_list(st, r, bound))),
            obtain_list(st, r, bound).stock,
            with_recipe(pending, r),
        ),
    decreases bound, 1nat, r.len(),
{
    let out = obtain_list(st, r, bound);
    if r.len() == 0 {
        assert(new_steps(st, out) =~= Seq::<Item>::empty());
        assert forall|y: Item| #[trigger] count_of(pile, y) >= count_of(out.stock, y)
            + with_recipe(pending, r)(y) by {
            assert(count_of(pile, y) >= count_of(st.stock, y) + pending(y));
        }
    } else {
        let front = r.drop_last();
        let g = r.last().0;
        let n = r.last().1 as nat;
        let mid = obtain_list(st, front, bound);
        let before = with_recipe(pending, front);
        lemma_list_shape(st, front, bound);
        lemma_rep_shape(mid, g, n, bound);
        assert(mid.short.len() == 0);
        assert forall|j: int| 0 <= j < front.len() implies tier(#[trigger] front[j].0) < bound by {
            assert(front[j] == r[j]);
        }
        assert forall|y: Item| #[trigger] pending(y) + need_in(front, y) <= pending_cap(
            bound - 1,
        ) by {
            assert(pending(y) + need_in(r, y) <= pending_cap(bound - 1));
        }
        lemma_list_runs(pile, st, front, bound, pending);
        let pile1 = apply_crafts(pile, new_steps(st, mid));
        lemma_apply_sized(pile, new_steps(st, mid));
        assert(tier(r[r.len() - 1].0) < bound);
        assert forall|y: Item| #[trigger] plus(before, g, n)(y) <= pending_cap(tier(g) as int) by {
            assert(pending(y) + need_in(r, y) <= pending_cap(bound - 1));
        }
        lemma_rep_runs(pile1, mid, g, n, bound, before);
        lemma_grows_trans(st, mid, out, bound);
        lemma_new_steps_split(st, mid, out, bound);
        lemma_affordable_concat(pile, new_steps(st, mid), new_steps(mid, out));
        lemma_apply_concat(pile, new_steps(st, mid), new_steps(mid, out));
        assert forall|y: Item| #[trigger] count_of(
            apply_crafts(pile, new_steps(st, out)),
            y,
        ) >= count_of(out.stock, y) + with_recipe(pending, r)(y) by {
            assert(count_of(apply_crafts(pile1, new_steps(mid, out)), y) >= count_of(out.stock, y)
                + plus(before, g, n)(y));
        }
    }
}

/// Crafting only things below an item's tier leaves that item's count alone: nothing
/// lower is made of it, and none of it is what is made.
proof fn lemma_apply_frame(s: Seq<u32>, d: Seq<Item>, y: Item)
    requires
        well_sized(s),
        forall|k: int| 0 <= k < d.len() ==> tier(#[trigger] d[k]) < tier(y),
    ensures
        count_of(apply_crafts(s, d), y) == count_of(s, y),
    decreases d.len(),
{
    if d.len() > 0 {
        let front = d.drop_last();
        let x = d.last();
        assert forall|k: int| 0 <= k < front.len() implies tier(#[trigger] front[k]) < tier(y) by {
            assert(front[k] == d[k]);
        }
        assert(tier(d[d.len() - 1]) < tier(y));
        lemma_apply_frame(s, front, y);
        let before = apply_crafts(s, front);
        lemma_apply_sized(s, front);
        if can_craft_spec(before, x) {
            let r = recipe_table(x);
            lemma_recipe_well_founded(x);
            assert forall|j: int| 0 <= j < r.len() implies r[j].0 != y by {
                assert(tier(r[j].0) < tier(x));
            }
            lemma_paid_frame(before, r, y);
            lemma_index_in_range(x);
            lemma_index_in_range(y);
            lemma_index_inverse(x);
            lemma_index_inverse(y);
        }
    }
}

/// A plan with nothing short can be run from its first step to its last: when each craft
/// comes up, the player's pile already holds all of it. Running the whole of it leaves one
/// more of the thing that was asked for, and the count of that thing changes at no step
/// before the last.
pub proof fn lemma_plan_runs(s: Seq<u32>, want: Item)
    requires
        well_sized(s),
        plan_spec(s, want).short.len() == 0,
    ensures
        all_affordable(s, plan_spec(s, want).steps),
        plan_spec(s, want).steps.len() > 0,
        plan_spec(s, want).steps.last() == want,
        count_of(apply_crafts(s, plan_spec(s, want).steps), want) == sat_add(count_of(s, want), 1),
{
    let r = recipe_table(want);
    let start = Planning { stock: s, steps: Seq::empty(), short: Seq::empty() };
    let none = |y: Item| 0nat;
    lemma_recipe_well_founded(want);
    if r.len() == 0 {
        assert(plan_spec(s, want).short.len() == 1);
    } else {
        let made = obtain_list(start, r, tier(want));
        assert forall|y: Item| #[trigger] none(y) + need_in(r, y) <= pending_cap(
            tier(want) - 1,
        ) by {
            lemma_need_bound(want, y);
        }
        lemma_list_shape(start, r, tier(want));
        lemma_list_runs(s, start, r, tier(want), none);
        lemma_make_last(s, start, made, want, none);
        assert(new_steps(start, made) =~= made.steps);
        assert(plan_spec(s, want).steps == made.steps.push(want));
        let pile1 = apply_crafts(s, made.steps);
        lemma_apply_sized(s, made.steps);
        lemma_apply_frame(s, made.steps, want);
        lemma_need_absent(r, want);
        lemma_paid_frame(pile1, r, want);
        lemma_index_in_range(want);
    }
}

} // verus!
