//! What a plan says is short is exactly what is missing.
//!
//! A plan's shortfall lists only things that are dug up, each once and each at least one.
//! Dig up exactly that and the same plan goes through with nothing short; dig up one fewer
//! of any of it and the plan is still short.
//!
//! The proof runs the planner twice side by side, from two piles that differ only in what
//! is dug up. What is made, and so every craft, is decided by the made things on the shelf
//! alone, which the two runs share; each dug-up thing is asked for the same number of times
//! in both, and each time it is either taken off the shelf or counted short.
use vstd::prelude::*;
use crate::inventory::{
    Planning, added, bump, count_of, distinct_items, obtain_list, obtain_rep, obtain_spec,
    plan_spec, well_sized, lemma_bump_at, lemma_index_in_range,
};
use crate::planning::lemma_take_one;
use crate::registry::{
    Item, item_index, lemma_index_inverse, lemma_recipe_well_founded, recipe_table, tier,
};

verus! {

/// Something dug up rather than made.
pub open spec fn dug(g: Item) -> bool {
    recipe_table(g).len() == 0
}

/// How many of `g` a shortfall list asks for, over all its entries.
pub open spec fn short_of(s: Seq<(Item, u32)>, g: Item) -> nat
    decreases s.len(),
{
    if s.len() == 0 {
        0
    } else {
        short_of(s.drop_last(), g) + if s.last().0 == g {
            s.last().1 as nat
        } else {
            0nat
        }
    }
}

/// A pile with every entry of a list added to it, in order, as a player digging it up
/// would.
pub open spec fn supplied(s: Seq<u32>, l: Seq<(Item, u32)>) -> Seq<u32>
    decreases l.len(),
{
    if l.len() == 0 {
        s
    } else {
        added(supplied(s, l.drop_last()), l.last().0, l.last().1)
    }
}

/// A shortfall as a plan leaves it: dug-up things only, each at least one, none twice.
pub open spec fn fair_short(s: Seq<(Item, u32)>) -> bool {
    &&& distinct_items(s)
    &&& forall|j: int| 0 <= j < s.len() ==> dug(#[trigger] s[j].0) && s[j].1 >= 1
}

/// Counting from the front comes to the same.
proof fn lemma_short_of_front(s: Seq<(Item, u32)>, g: Item)
    requires
        s.len() > 0,
    ensures
        short_of(s, g) == short_of(s.drop_first(), g) + if s[0].0 == g {
            s[0].1 as nat
        } else {
            0nat
        },
    decreases s.len(),
{
    let d = s.drop_first();
    if s.len() > 1 {
        lemma_short_of_front(s.drop_last(), g);
        assert(s.drop_last().drop_first() =~= d.drop_last());
        assert(d.last() == s.last());
        assert(s.drop_last()[0] == s[0]);
        assert(short_of(d, g) == short_of(d.drop_last(), g) + if d.last().0 == g {
            d.last().1 as nat
        } else {
            0nat
        });
    } else {
        assert(s.drop_last().len() == 0);
        assert(short_of(s.drop_last(), g) == 0);
        assert(d.len() == 0);
        assert(short_of(d, g) == 0);
        assert(s.last() == s[0]);
    }
}

/// A list with no entry for `g` asks for none of it.
proof fn lemma_short_of_absent(s: Seq<(Item, u32)>, g: Item)
    requires
        forall|j: int| 0 <= j < s.len() ==> s[j].0 != g,
    ensures
        short_of(s, g) == 0,
    decreases s.len(),
{
    if s.len() > 0 {
        assert forall|j: int| 0 <= j < s.drop_last().len() implies s.drop_last()[j].0 != g by {
            assert(s.drop_last()[j] == s[j]);
        }
        lemma_short_of_absent(s.drop_last(), g);
        assert(s.last() == s[s.len() - 1]);
    }
}

/// An entry is part of what its item is asked for.
proof fn lemma_short_of_entry(s: Seq<(Item, u32)>, j: int)
    requires
        0 <= j < s.len(),
    ensures
        short_of(s, s[j].0) >= s[j].1,
    decreases s.len(),
{
    if j < s.len() - 1 {
        assert(s.drop_last()[j] == s[j]);
        lemma_short_of_entry(s.drop_last(), j);
    }
}

/// One more missing `item`, while its count has room, is one more asked for of it and of
/// nothing else.
proof fn lemma_short_of_bump(s: Seq<(Item, u32)>, item: Item, g: Item)
    requires
        short_of(s, item) < u32::MAX,
    ensures
        short_of(bump(s, item), g) == short_of(s, g) + if g == item {
            1nat
        } else {
            0nat
        },
    decreases s.len(),
{
    if s.len() == 0 {
        let one = seq![(item, 1u32)];
        assert(bump(s, item) == one);
        assert(one.drop_last().len() == 0);
        assert(short_of(one.drop_last(), g) == 0);
        assert(one.last() == (item, 1u32));
        assert(short_of(s, g) == 0);
    } else {
        lemma_short_of_front(s, g);
        lemma_short_of_front(s, item);
        let b = bump(s, item);
        if s[0].0 == item {
            assert(s[0].1 < u32::MAX);
            assert(b == s.update(0, (item, (s[0].1 + 1) as u32)));
            assert(b[0] == (item, (s[0].1 + 1) as u32));
            lemma_short_of_front(b, g);
            assert(b.drop_first() =~= s.drop_first());
        } else {
            lemma_short_of_bump(s.drop_first(), item, g);
            assert(b == seq![s[0]] + bump(s.drop_first(), item));
            lemma_short_of_front(b, g);
            assert(b.drop_first() =~= bump(s.drop_first(), item));
        }
    }
}

/// Counting one more missing dug-up thing keeps a shortfall fair.
proof fn lemma_bump_fair(s: Seq<(Item, u32)>, item: Item)
    requires
        fair_short(s),
        dug(item),
    ensures
        fair_short(bump(s, item)),
{
    if exists|k: int| 0 <= k < s.len() && s[k].0 == item {
        let k = choose|k: int| 0 <= k < s.len() && s[k].0 == item;
        assert forall|q: int| 0 <= q < k implies s[q].0 != item by {
            assert(s[q].0 != s[k].0);
        }
        lemma_bump_at(s, item, k);
        let b = bump(s, item);
        assert forall|i: int, j: int| 0 <= i < j < b.len() implies b[i].0 != b[j].0 by {
            assert(b[i].0 == s[i].0);
            assert(b[j].0 == s[j].0);
        }
        assert forall|j: int| 0 <= j < b.len() implies dug(#[trigger] b[j].0) && b[j].1 >= 1 by {
            if j != k {
                assert(b[j] == s[j]);
            }
        }
    } else {
        lemma_bump_at(s, item, s.len() as int);
        let b = bump(s, item);
        assert forall|i: int, j: int| 0 <= i < j < b.len() implies b[i].0 != b[j].0 by {
            if j == s.len() {
                assert(b[i] == s[i]);
            } else {
                assert(b[i] == s[i] && b[j] == s[j]);
            }
        }
        assert forall|j: int| 0 <= j < b.len() implies dug(#[trigger] b[j].0) && b[j].1 >= 1 by {
            if j < s.len() {
                assert(b[j] == s[j]);
            }
        }
    }
}

/// One fewer of one entry is one fewer asked for of its item.
proof fn lemma_short_of_less(s: Seq<(Item, u32)>, k: int, g: Item)
    requires
        0 <= k < s.len(),
        s[k].1 >= 1,
    ensures
        short_of(s.update(k, (s[k].0, (s[k].1 - 1) as u32)), g) + if g == s[k].0 {
            1nat
        } else {
            0nat
        } == short_of(s, g),
    decreases s.len(),
{
    let t = s.update(k, (s[k].0, (s[k].1 - 1) as u32));
    if k == s.len() - 1 {
        assert(t.drop_last() =~= s.drop_last());
    } else {
        lemma_short_of_less(s.drop_last(), k, g);
        assert(t.drop_last() =~= s.drop_last().update(k, (s[k].0, (s[k].1 - 1) as u32)));
        assert(s.drop_last()[k] == s[k]);
    }
}

/// Supplying a list adds what it asks for of each thing, where the sums fit.
proof fn lemma_supplied(s: Seq<u32>, l: Seq<(Item, u32)>)
    requires
        well_sized(s),
        forall|g: Item| #[trigger] count_of(s, g) + short_of(l, g) <= u32::MAX,
    ensures
        well_sized(supplied(s, l)),
        forall|g: Item| #[trigger] count_of(supplied(s, l), g) == count_of(s, g) + short_of(l, g),
    decreases l.len(),
{
    if l.len() > 0 {
        let front = l.drop_last();
        assert forall|g: Item| #[trigger] count_of(s, g) + short_of(front, g) <= u32::MAX by {
            assert(short_of(l, g) >= short_of(front, g));
        }
        lemma_supplied(s, front);
        let before = supplied(s, front);
        let (item, n) = l.last();
        lemma_index_in_range(item);
        assert(supplied(s, l) == added(before, item, n));
        assert forall|g: Item| #[trigger] count_of(supplied(s, l), g) == count_of(s, g) + short_of(l, g) by {
            lemma_index_in_range(g);
            lemma_index_inverse(g);
            lemma_index_inverse(item);
            assert(short_of(l, g) == short_of(front, g) + if item == g {
                n as nat
            } else {
                0nat
            });
            assert(count_of(before, g) == count_of(s, g) + short_of(front, g));
            assert(count_of(before, item) == count_of(s, item) + short_of(front, item));
            assert(count_of(s, item) + short_of(l, item) <= u32::MAX);
            assert(short_of(l, item) == short_of(front, item) + n);
            if g != item {
                assert(item_index(g) != item_index(item));
                assert(count_of(added(before, item, n), g) == count_of(before, g));
            } else {
                assert(count_of(s, item) + short_of(l, item) <= u32::MAX);
            }
        }
    }
}

/// The most of any one thing that obtaining one `item` can ask for: one of a dug-up thing,
/// and sixteen times as much for each row up, since no recipe asks for more than sixteen
/// things in all.
pub open spec fn worst(item: Item) -> nat {
    if tier(item) == 0 {
        1
    } else if tier(item) == 1 {
        16
    } else {
        256
    }
}

/// The most of any one thing that obtaining everything of a recipe can ask for.
pub open spec fn weight(r: Seq<(Item, u32)>) -> nat
    decreases r.len(),
{
    if r.len() == 0 {
        0
    } else {
        weight(r.drop_last()) + r.last().1 as nat * worst(r.last().0)
    }
}

/// A recipe asks for no more than its thing's share.
proof fn lemma_weight(item: Item)
    ensures
        recipe_table(item).len() > 0 ==> weight(recipe_table(item)) <= worst(item),
        worst(item) <= 256,
        worst(item) >= 1,
{
    lemma_recipe_well_founded(item);
    lemma_weight_spelled(recipe_table(item));
    match item {
        Item::Grass => {},
        Item::Dirt => {},
        Item::Stone => {},
        Item::Sand => {},
        Item::Wood => {},
        Item::Leaves => {},
        Item::Cushion => {},
        Item::Nail => {},
        Item::Hammer => {},
        Item::Drill => {},
        Item::Handgun => {},
        Item::Rifle => {},
        Item::Parachute => {},
        Item::Car => {},
    }
}

/// The weight of a recipe of up to three entries, spelled out.
proof fn lemma_weight_spelled(r: Seq<(Item, u32)>)
    requires
        r.len() <= 3,
    ensures
        r.len() == 0 ==> weight(r) == 0,
        r.len() == 1 ==> weight(r) == r[0].1 as nat * worst(r[0].0),
        r.len() == 2 ==> weight(r) == r[0].1 as nat * worst(r[0].0) + r[1].1 as nat * worst(r[1].0),
        r.len() == 3 ==> weight(r) == r[0].1 as nat * worst(r[0].0) + r[1].1 as nat * worst(r[1].0)
            + r[2].1 as nat * worst(r[2].0),
    decreases r.len(),
{
    if r.len() > 0 {
        let f = r.drop_last();
        lemma_weight_spelled(f);
        assert(r.last() == r[r.len() - 1]);
        if r.len() >= 2 {
            assert(f[0] == r[0]);
        }
        if r.len() == 3 {
            assert(f[1] == r[1]);
        }
    }
}

/// What a state of the planner can still give of `g`: what the shelf holds, less what is
/// already counted short.
pub open spec fn net(st: Planning, g: Item) -> int {
    count_of(st.stock, g) - short_of(st.short, g)
}

/// A planner state as planning leaves it: one count per item, a fair shortfall, and
/// nothing counted short while the shelf still holds some of it.
pub open spec fn fair(st: Planning) -> bool {
    &&& well_sized(st.stock)
    &&& fair_short(st.short)
    &&& forall|g: Item| #[trigger] short_of(st.short, g) > 0 ==> count_of(st.stock, g) == 0
}

/// Room to count `w` more of anything short without a count running out.
pub open spec fn room(st: Planning, w: nat) -> bool {
    forall|g: Item| #[trigger] short_of(st.short, g) + w < u32::MAX
}

/// From `x` to `y` nothing came back onto the shelf, and no thing gave more than `w`.
pub open spec fn spent(x: Planning, y: Planning, w: nat) -> bool {
    &&& forall|g: Item| #[trigger] count_of(y.stock, g) <= count_of(x.stock, g)
    &&& forall|g: Item| #[trigger] net(y, g) <= net(x, g) <= net(y, g) + w
}

/// Two runs in step: the same crafts, the same made things on the shelf, and each dug-up
/// thing `c` apart.
pub open spec fn twin(a: Planning, b: Planning, c: spec_fn(Item) -> int) -> bool {
    &&& a.steps == b.steps
    &&& forall|m: Item| !dug(m) ==> #[trigger] count_of(a.stock, m) == count_of(b.stock, m)
    &&& forall|g: Item| dug(g) ==> #[trigger] net(a, g) - net(b, g) == c(g)
}

proof fn lemma_spent_refl(x: Planning)
    ensures
        spent(x, x, 0),
{
}

proof fn lemma_spent_chain(x: Planning, y: Planning, z: Planning, w1: nat, w2: nat)
    requires
        spent(x, y, w1),
        spent(y, z, w2),
    ensures
        spent(x, z, w1 + w2),
{
    assert forall|g: Item| #[trigger] count_of(z.stock, g) <= count_of(x.stock, g) by {
        assert(count_of(y.stock, g) <= count_of(x.stock, g));
    }
    assert forall|g: Item| #[trigger] net(z, g) <= net(x, g) <= net(z, g) + w1 + w2 by {
        assert(net(y, g) <= net(x, g) <= net(y, g) + w1);
        assert(net(z, g) <= net(y, g) <= net(z, g) + w2);
    }
}

/// What room a state has left after spending at most `w1` of it.
proof fn lemma_room_after(x: Planning, y: Planning, w1: nat, w2: nat)
    requires
        spent(x, y, w1),
        room(x, w1 + w2),
    ensures
        room(y, w2),
{
    assert forall|g: Item| #[trigger] short_of(y.short, g) + w2 < u32::MAX by {
        assert(net(y, g) <= net(x, g) <= net(y, g) + w1);
        assert(count_of(y.stock, g) <= count_of(x.stock, g));
        assert(short_of(x.short, g) + w1 + w2 < u32::MAX);
    }
}

/// Obtaining a dug-up thing: either one comes off the shelf or one more is counted short;
/// either way it gives exactly one less, and nothing else changes.
proof fn lemma_obtain_dug(st: Planning, item: Item)
    requires
        fair(st),
        room(st, 1),
        dug(item),
    ensures
        fair(obtain_spec(st, item)),
        obtain_spec(st, item).steps == st.steps,
        forall|g: Item| g != item ==> #[trigger] count_of(obtain_spec(st, item).stock, g) == count_of(st.stock, g),
        forall|g: Item| g != item ==> #[trigger] net(obtain_spec(st, item), g) == net(st, g),
        net(obtain_spec(st, item), item) == net(st, item) - 1,
        spent(st, obtain_spec(st, item), 1),
{
    let out = obtain_spec(st, item);
    if count_of(st.stock, item) >= 1 {
        lemma_take_one(st.stock, item);
        assert(short_of(st.short, item) == 0);
    } else {
        assert(short_of(st.short, item) + 1 < u32::MAX);
        assert forall|g: Item| #[trigger] short_of(out.short, g) == short_of(st.short, g) + if g == item {
            1nat
        } else {
            0nat
        } by {
            lemma_short_of_bump(st.short, item, g);
        }
        lemma_bump_fair(st.short, item);
    }
}

/// Planning one `item` keeps the state fair and gives no more than the item's share.
proof fn lemma_obtain_one(st: Planning, item: Item)
    requires
        fair(st),
        room(st, worst(item)),
    ensures
        fair(obtain_spec(st, item)),
        spent(st, obtain_spec(st, item), worst(item)),
    decreases tier(item), 2nat, 0nat,
{
    lemma_weight(item);
    lemma_recipe_well_founded(item);
    if count_of(st.stock, item) >= 1 {
        lemma_take_one(st.stock, item);
        let out = obtain_spec(st, item);
        assert forall|g: Item| #[trigger] short_of(out.short, g) > 0 implies count_of(out.stock, g) == 0 by {
            assert(short_of(st.short, g) > 0);
        }
        assert forall|g: Item| #[trigger] net(out, g) <= net(st, g) <= net(out, g) + worst(item) by {
            if g != item {
                assert(count_of(out.stock, g) == count_of(st.stock, g));
            }
        }
    } else if dug(item) {
        lemma_obtain_dug(st, item);
        lemma_spent_chain(st, obtain_spec(st, item), obtain_spec(st, item), 1, 0);
    } else {
        let r = recipe_table(item);
        let made = obtain_list(st, r, tier(item));
        lemma_list_one(st, r, tier(item));
        lemma_room_after(st, st, 0, weight(r));
        let out = obtain_spec(st, item);
        assert(out.stock == made.stock && out.short == made.short);
        assert forall|g: Item| #[trigger] net(out, g) <= net(st, g) <= net(out, g) + worst(item) by {
            assert(net(out, g) == net(made, g));
        }
    }
}

/// [`lemma_obtain_one`], `n` times over.
proof fn lemma_rep_one(st: Planning, item: Item, n: nat, bound: nat)
    requires
        fair(st),
        room(st, n * worst(item)),
    ensures
        fair(obtain_rep(st, item, n, bound)),
        spent(st, obtain_rep(st, item, n, bound), n * worst(item)),
    decreases bound, 0nat, n,
{
    let w = worst(item);
    if n == 0 {
        lemma_spent_refl(st);
    } else if tier(item) < bound {
        assert((n - 1) * w + w == n * w) by (nonlinear_arith);
        let mid = obtain_rep(st, item, (n - 1) as nat, bound);
        lemma_room_after(st, st, 0, ((n - 1) * w) as nat);
        lemma_rep_one(st, item, (n - 1) as nat, bound);
        lemma_room_after(st, mid, ((n - 1) * w) as nat, w);
        lemma_obtain_one(mid, item);
        lemma_spent_chain(st, mid, obtain_spec(mid, item), ((n - 1) * w) as nat, w);
    } else {
        lemma_spent_refl(st);
        lemma_spent_chain(st, st, st, 0, n * w);
    }
}

/// [`lemma_obtain_one`] over a whole recipe.
proof fn lemma_list_one(st: Planning, r: Seq<(Item, u32)>, bound: nat)
    requires
        fair(st),
        room(st, weight(r)),
    ensures
        fair(obtain_list(st, r, bound)),
        spent(st, obtain_list(st, r, bound), weight(r)),
    decreases bound, 1nat, r.len(),
{
    if r.len() == 0 {
        lemma_spent_refl(st);
    } else {
        let front = r.drop_last();
        let (g, n) = r.last();
        let w = n as nat * worst(g);
        let mid = obtain_list(st, front, bound);
        lemma_room_after(st, st, 0, weight(front));
        lemma_list_one(st, front, bound);
        lemma_room_after(st, mid, weight(front), w);
        lemma_rep_one(mid, g, n as nat, bound);
        lemma_spent_chain(st, mid, obtain_list(st, r, bound), weight(front), w);
    }
}

/// Less room is still room.
proof fn lemma_room_less(x: Planning, w1: nat, w2: nat)
    requires
        room(x, w1),
        w2 <= w1,
    ensures
        room(x, w2),
{
}

/// Two runs in step stay in step over one `item`.
proof fn lemma_obtain_twin(a: Planning, b: Planning, c: spec_fn(Item) -> int, item: Item)
    requires
        fair(a),
        fair(b),
        room(a, worst(item)),
        room(b, worst(item)),
        twin(a, b, c),
    ensures
        twin(obtain_spec(a, item), obtain_spec(b, item), c),
    decreases tier(item), 2nat, 0nat,
{
    lemma_weight(item);
    lemma_recipe_well_founded(item);
    let a2 = obtain_spec(a, item);
    let b2 = obtain_spec(b, item);
    if dug(item) {
        lemma_room_less(a, worst(item), 1);
        lemma_room_less(b, worst(item), 1);
        lemma_obtain_dug(a, item);
        lemma_obtain_dug(b, item);
        assert forall|m: Item| !dug(m) implies #[trigger] count_of(a2.stock, m) == count_of(b2.stock, m) by {
            assert(count_of(a.stock, m) == count_of(b.stock, m));
        }
        assert forall|g: Item| dug(g) implies #[trigger] net(a2, g) - net(b2, g) == c(g) by {
            assert(net(a, g) - net(b, g) == c(g));
        }
    } else {
        assert(count_of(a.stock, item) == count_of(b.stock, item));
        if count_of(a.stock, item) >= 1 {
            lemma_take_one(a.stock, item);
            lemma_take_one(b.stock, item);
            assert forall|m: Item| !dug(m) implies #[trigger] count_of(a2.stock, m) == count_of(b2.stock, m) by {
                assert(count_of(a.stock, m) == count_of(b.stock, m));
            }
            assert forall|g: Item| dug(g) implies #[trigger] net(a2, g) - net(b2, g) == c(g) by {
                assert(net(a, g) - net(b, g) == c(g));
                assert(g != item);
            }
        } else {
            let r = recipe_table(item);
            lemma_room_less(a, worst(item), weight(r));
            lemma_room_less(b, worst(item), weight(r));
            lemma_list_twin(a, b, c, r, tier(item));
            let ma = obtain_list(a, r, tier(item));
            let mb = obtain_list(b, r, tier(item));
            assert(a2.stock == ma.stock && a2.short == ma.short && b2.stock == mb.stock && b2.short == mb.short);
            assert forall|m: Item| !dug(m) implies #[trigger] count_of(a2.stock, m) == count_of(b2.stock, m) by {
                assert(count_of(ma.stock, m) == count_of(mb.stock, m));
            }
            assert forall|g: Item| dug(g) implies #[trigger] net(a2, g) - net(b2, g) == c(g) by {
                assert(net(ma, g) - net(mb, g) == c(g));
                assert(net(a2, g) == net(ma, g) && net(b2, g) == net(mb, g));
            }
        }
    }
}

/// [`lemma_obtain_twin`], `n` times over.
proof fn lemma_rep_twin(a: Planning, b: Planning, c: spec_fn(Item) -> int, item: Item, n: nat, bound: nat)
    requires
        fair(a),
        fair(b),
        room(a, n * worst(item)),
        room(b, n * worst(item)),
        twin(a, b, c),
    ensures
        twin(obtain_rep(a, item, n, bound), obtain_rep(b, item, n, bound), c),
    decreases bound, 0nat, n,
{
    let w = worst(item);
    if n > 0 && tier(item) < bound {
        assert((n - 1) * w + w == n * w) by (nonlinear_arith);
        let k = (n - 1) as nat;
        lemma_room_less(a, n * w, k * w);
        lemma_room_less(b, n * w, k * w);
        lemma_rep_twin(a, b, c, item, k, bound);
        lemma_rep_one(a, item, k, bound);
        lemma_rep_one(b, item, k, bound);
        let ma = obtain_rep(a, item, k, bound);
        let mb = obtain_rep(b, item, k, bound);
        lemma_room_after(a, ma, k * w, w);
        lemma_room_after(b, mb, k * w, w);
        lemma_obtain_twin(ma, mb, c, item);
    }
}

/// [`lemma_obtain_twin`] over a whole recipe.
proof fn lemma_list_twin(a: Planning, b: Planning, c: spec_fn(Item) -> int, r: Seq<(Item, u32)>, bound: nat)
    requires
        fair(a),
        fair(b),
        room(a, weight(r)),
        room(b, weight(r)),
        twin(a, b, c),
    ensures
        twin(obtain_list(a, r, bound), obtain_list(b, r, bound), c),
    decreases bound, 1nat, r.len(),
{
    if r.len() > 0 {
        let front = r.drop_last();
        let (g, n) = r.last();
        let w = n as nat * worst(g);
        lemma_room_less(a, weight(r), weight(front));
        lemma_room_less(b, weight(r), weight(front));
        lemma_list_twin(a, b, c, front, bound);
        lemma_list_one(a, front, bound);
        lemma_list_one(b, front, bound);
        let ma = obtain_list(a, front, bound);
        let mb = obtain_list(b, front, bound);
        lemma_room_after(a, ma, weight(front), w);
        lemma_room_after(b, mb, weight(front), w);
        lemma_rep_twin(ma, mb, c, g, n as nat, bound);
    }
}

/// A planner state that has done nothing yet, on pile `s`.
pub open spec fn fresh(s: Seq<u32>) -> Planning {
    Planning { stock: s, steps: Seq::empty(), short: Seq::empty() }
}

/// Planning `want` from a pile with a list of dug-up things added to it: the same crafts,
/// and each dug-up thing able to give as much more as the list added.
proof fn lemma_plan_supplied(s: Seq<u32>, want: Item, l: Seq<(Item, u32)>)
    requires
        well_sized(s),
        recipe_table(want).len() > 0,
        forall|j: int| 0 <= j < l.len() ==> dug(#[trigger] l[j].0),
        forall|g: Item| #[trigger] count_of(s, g) + short_of(l, g) <= u32::MAX,
    ensures
        ({
            let r = recipe_table(want);
            let ea = obtain_list(fresh(s), r, tier(want));
            let eb = obtain_list(fresh(supplied(s, l)), r, tier(want));
            &&& fair(ea)
            &&& fair(eb)
            &&& spent(fresh(s), ea, weight(r))
            &&& weight(r) <= 256
            &&& eb.steps == ea.steps
            &&& forall|g: Item| dug(g) ==> #[trigger] net(eb, g) == net(ea, g) + short_of(l, g)
        }),
{
    let r = recipe_table(want);
    let s2 = supplied(s, l);
    lemma_supplied(s, l);
    lemma_weight(want);
    let a = fresh(s);
    let b = fresh(s2);
    assert forall|g: Item| #[trigger] short_of(a.short, g) + weight(r) < u32::MAX by {}
    assert forall|g: Item| #[trigger] short_of(b.short, g) + weight(r) < u32::MAX by {}
    let c = |g: Item| -(short_of(l, g) as int);
    assert forall|m: Item| !dug(m) implies #[trigger] count_of(a.stock, m) == count_of(b.stock, m) by {
        assert forall|j: int| 0 <= j < l.len() implies l[j].0 != m by {
            assert(dug(l[j].0));
        }
        lemma_short_of_absent(l, m);
    }
    assert forall|g: Item| dug(g) implies #[trigger] net(a, g) - net(b, g) == c(g) by {
        assert(count_of(b.stock, g) == count_of(s, g) + short_of(l, g));
    }
    lemma_list_one(a, r, tier(want));
    lemma_list_one(b, r, tier(want));
    lemma_list_twin(a, b, c, r, tier(want));
    let ea = obtain_list(a, r, tier(want));
    let eb = obtain_list(b, r, tier(want));
    assert forall|g: Item| dug(g) implies #[trigger] net(eb, g) == net(ea, g) + short_of(l, g) by {
        assert(net(ea, g) - net(eb, g) == c(g));
    }
}

/// A fair shortfall that asks for none of anything is empty.
proof fn lemma_nothing_short(s: Seq<(Item, u32)>)
    requires
        fair_short(s),
        forall|g: Item| #[trigger] short_of(s, g) == 0,
    ensures
        s.len() == 0,
{
    if s.len() > 0 {
        lemma_short_of_entry(s, 0);
        assert(short_of(s, s[0].0) == 0);
    }
}

/// What a plan says is short is exactly what is missing. Everything it lists is dug up
/// rather than made, at least one of it, and listed once. Dig up exactly that, and the same
/// plan goes through with nothing short; dig up one fewer of any one of it, and the plan is
/// still short.
pub proof fn lemma_shortfall_exact(s: Seq<u32>, want: Item)
    requires
        well_sized(s),
        recipe_table(want).len() > 0,
    ensures
        fair_short(plan_spec(s, want).short),
        plan_spec(supplied(s, plan_spec(s, want).short), want).short.len() == 0,
        plan_spec(supplied(s, plan_spec(s, want).short), want).steps == plan_spec(s, want).steps,
        forall|k: int|
            0 <= k < plan_spec(s, want).short.len() ==> #[trigger] plan_spec(
                supplied(
                    s,
                    plan_spec(s, want).short.update(
                        k,
                        (plan_spec(s, want).short[k].0, (plan_spec(s, want).short[k].1 - 1) as u32),
                    ),
                ),
                want,
            ).short.len() > 0,
{
    let r = recipe_table(want);
    let p = plan_spec(s, want);
    let ea = obtain_list(fresh(s), r, tier(want));
    assert(p.short == ea.short && p.steps == ea.steps.push(want));
    lemma_weight(want);
    assert forall|g: Item| #[trigger] short_of(fresh(s).short, g) + weight(r) < u32::MAX by {}
    lemma_list_one(fresh(s), r, tier(want));
    // What a thing counted short started from: nothing was left of it, and it gave at
    // most a recipe's weight.
    assert forall|g: Item| #[trigger] count_of(s, g) + short_of(p.short, g) <= 256 || short_of(p.short, g) == 0 by {
        if short_of(p.short, g) > 0 {
            assert(count_of(ea.stock, g) == 0);
            assert(net(ea, g) <= net(fresh(s), g) <= net(ea, g) + weight(r));
        }
    }
    let l = p.short;
    assert forall|g: Item| #[trigger] count_of(s, g) + short_of(l, g) <= u32::MAX by {
        assert(count_of(s, g) + short_of(l, g) <= 256 || short_of(l, g) == 0);
    }
    lemma_plan_supplied(s, want, l);
    let eb = obtain_list(fresh(supplied(s, l)), r, tier(want));
    assert(plan_spec(supplied(s, l), want).short == eb.short);
    assert forall|g: Item| #[trigger] short_of(eb.short, g) == 0 by {
        if dug(g) {
            assert(net(eb, g) == net(ea, g) + short_of(l, g));
            if short_of(eb.short, g) > 0 {
                assert(count_of(eb.stock, g) == 0);
            }
        } else {
            assert forall|j: int| 0 <= j < eb.short.len() implies eb.short[j].0 != g by {
                assert(dug(eb.short[j].0));
            }
            lemma_short_of_absent(eb.short, g);
        }
    }
    lemma_nothing_short(eb.short);
    assert forall|k: int| 0 <= k < p.short.len() implies #[trigger] plan_spec(
        supplied(s, p.short.update(k, (p.short[k].0, (p.short[k].1 - 1) as u32))),
        want,
    ).short.len() > 0 by {
        let g0 = l[k].0;
        let lk = l.update(k, (g0, (l[k].1 - 1) as u32));
        assert forall|j: int| 0 <= j < lk.len() implies dug(#[trigger] lk[j].0) by {
            assert(dug(l[j].0));
        }
        assert forall|g: Item| #[trigger] count_of(s, g) + short_of(lk, g) <= u32::MAX by {
            lemma_short_of_less(l, k, g);
            assert(count_of(s, g) + short_of(l, g) <= u32::MAX);
        }
        lemma_plan_supplied(s, want, lk);
        let ek = obtain_list(fresh(supplied(s, lk)), r, tier(want));
        assert(plan_spec(supplied(s, lk), want).short == ek.short);
        lemma_short_of_less(l, k, g0);
        lemma_short_of_entry(l, k);
        assert(count_of(ea.stock, g0) == 0);
        assert(net(ek, g0) == net(ea, g0) + short_of(lk, g0));
        assert(short_of(ek.short, g0) > 0);
        if ek.short.len() == 0 {
            assert(short_of(ek.short, g0) == 0);
        }
    }
}

} // verus!
