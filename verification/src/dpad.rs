//! The d-pad reaches every item from every item.
//!
//! Sideways walks a row round and round; up and down move to what a node goes into or is
//! made of, on the nearest row that has any. Which one of several candidates on that row an
//! up or down press picks is the screen's business, decided by where things are drawn, so
//! everything here holds whatever it picks.
use vstd::prelude::*;
use crate::craftgraph::{
    Dir, Graph, all_edges, closest_gap, edge_into, edges_upto, feeds_of, gap, head, lap,
    leaves, lemma_lap_comes_home, nearest_spec, on_nearest, row_fits, sideways_spec, toward,
};
use crate::registry::{
    ITEM_COUNT, item_at, item_index, lemma_index_inverse, lemma_recipe_well_founded,
    recipe_table, tier, top_tier,
};

verus! {

/// The row node `a` stands on.
pub open spec fn depth_of(a: usize) -> nat {
    tier(item_at(a as int))
}

/// Where one press of `dir` from node `a` lands, on rows `rows`, when an up or down press
/// that has candidates goes to `pick(a, dir)`.
pub open spec fn pad_step(
    rows: Seq<Seq<usize>>,
    pick: spec_fn(usize, Dir) -> usize,
    a: usize,
    dir: Dir,
) -> Option<usize> {
    let row = rows[depth_of(a) as int];
    match dir {
        Dir::Left => sideways_spec(row, a, false),
        Dir::Right => sideways_spec(row, a, true),
        _ => if nearest_spec(toward(a as nat, dir), depth_of(a)).len() > 0 {
            Some(pick(a, dir))
        } else {
            None
        },
    }
}

/// A pick the screen may make: whenever an up or down press has candidates, one of them.
pub open spec fn fair_pick(pick: spec_fn(usize, Dir) -> usize) -> bool {
    forall|a: usize, dir: Dir|
        a < ITEM_COUNT && nearest_spec(toward(a as nat, dir), depth_of(a)).len() > 0
            ==> nearest_spec(toward(a as nat, dir), depth_of(a)).contains(#[trigger] pick(a, dir))
}

/// Does the press `dir` from `a` land on something from which `k - 1` more presses reach
/// `b`?
pub open spec fn via(
    rows: Seq<Seq<usize>>,
    pick: spec_fn(usize, Dir) -> usize,
    a: usize,
    dir: Dir,
    b: usize,
    k: nat,
) -> bool
    decreases k, 0nat,
{
    if k == 0 {
        false
    } else {
        match pad_step(rows, pick, a, dir) {
            Some(m) => reaches(rows, pick, m, b, (k - 1) as nat),
            None => false,
        }
    }
}

/// Do exactly `k` presses take the cursor from `a` to `b`?
pub open spec fn reaches(
    rows: Seq<Seq<usize>>,
    pick: spec_fn(usize, Dir) -> usize,
    a: usize,
    b: usize,
    k: nat,
) -> bool
    decreases k, 1nat,
{
    if k == 0 {
        a == b
    } else {
        ||| via(rows, pick, a, Dir::Up, b, k)
        ||| via(rows, pick, a, Dir::Down, b, k)
        ||| via(rows, pick, a, Dir::Left, b, k)
        ||| via(rows, pick, a, Dir::Right, b, k)
    }
}

/// Presses one after another.
proof fn lemma_chain(
    rows: Seq<Seq<usize>>,
    pick: spec_fn(usize, Dir) -> usize,
    a: usize,
    m: usize,
    b: usize,
    k1: nat,
    k2: nat,
)
    requires
        reaches(rows, pick, a, m, k1),
        reaches(rows, pick, m, b, k2),
    ensures
        reaches(rows, pick, a, b, k1 + k2),
    decreases k1,
{
    if k1 > 0 {
        let k = (k1 + k2) as nat;
        if via(rows, pick, a, Dir::Up, m, k1) {
            let n = pad_step(rows, pick, a, Dir::Up)->0;
            lemma_chain(rows, pick, n, m, b, (k1 - 1) as nat, k2);
            assert(via(rows, pick, a, Dir::Up, b, k));
        } else if via(rows, pick, a, Dir::Down, m, k1) {
            let n = pad_step(rows, pick, a, Dir::Down)->0;
            lemma_chain(rows, pick, n, m, b, (k1 - 1) as nat, k2);
            assert(via(rows, pick, a, Dir::Down, b, k));
        } else if via(rows, pick, a, Dir::Left, m, k1) {
            let n = pad_step(rows, pick, a, Dir::Left)->0;
            lemma_chain(rows, pick, n, m, b, (k1 - 1) as nat, k2);
            assert(via(rows, pick, a, Dir::Left, b, k));
        } else {
            let n = pad_step(rows, pick, a, Dir::Right)->0;
            lemma_chain(rows, pick, n, m, b, (k1 - 1) as nat, k2);
            assert(via(rows, pick, a, Dir::Right, b, k));
        }
    }
}

/// One press that lands on `b` reaches it.
proof fn lemma_one_press(rows: Seq<Seq<usize>>, pick: spec_fn(usize, Dir) -> usize, a: usize, dir: Dir, b: usize)
    requires
        pad_step(rows, pick, a, dir) == Some(b),
    ensures
        reaches(rows, pick, a, b, 1),
{
    assert(reaches(rows, pick, b, b, 0));
    assert(via(rows, pick, a, dir, b, 1));
}

/// The rows of a well-formed graph: one per depth, each holding exactly its depth's nodes,
/// and each of them at least two long.
pub open spec fn sound_rows(rows: Seq<Seq<usize>>) -> bool {
    &&& rows.len() == top_tier() + 1
    &&& forall|d: int| 0 <= d <= top_tier() ==> row_fits(#[trigger] rows[d], d as nat)
}

/// Every row has two nodes at least.
proof fn lemma_rows_long(rows: Seq<Seq<usize>>, d: int)
    requires
        sound_rows(rows),
        0 <= d <= top_tier(),
    ensures
        rows[d].len() >= 2,
{
    let row = rows[d];
    assert(row_fits(row, d as nat));
    let (x, y): (usize, usize) = if d == 0 {
        (0, 1)
    } else if d == 1 {
        (6, 7)
    } else {
        (8, 9)
    };
    assert(tier(item_at(x as int)) == d && tier(item_at(y as int)) == d);
    assert(row.contains(x) && row.contains(y));
    if row.len() < 2 {
        let i = choose|i: int| 0 <= i < row.len() && row[i] == x;
        let j = choose|j: int| 0 <= j < row.len() && row[j] == y;
    }
}

/// Right presses walk the whole row: from its `i`-th node, `k` of them land on the
/// `(i + k) % n`-th.
proof fn lemma_laps(rows: Seq<Seq<usize>>, pick: spec_fn(usize, Dir) -> usize, d: int, i: int, k: nat)
    requires
        sound_rows(rows),
        0 <= d <= top_tier(),
        0 <= i < rows[d].len(),
    ensures
        reaches(rows, pick, rows[d][i], lap(rows[d], rows[d][i], k), k),
    decreases k,
{
    let row = rows[d];
    lemma_rows_long(rows, d);
    lemma_lap_comes_home(row, i);
    if k > 0 {
        lemma_laps(rows, pick, d, i, (k - 1) as nat);
        let x = lap(row, row[i], (k - 1) as nat);
        let n = row.len() as int;
        vstd::arithmetic::div_mod::lemma_mod_bound(i + k - 1, n);
        assert(x == row[(i + k - 1) % n]);
        assert(row_fits(row, d as nat));
        assert(depth_of(x) == d);
        assert(pad_step(rows, pick, x, Dir::Right) == sideways_spec(row, x, true));
        lemma_one_press(rows, pick, x, Dir::Right, lap(row, row[i], k));
        lemma_chain(rows, pick, row[i], x, lap(row, row[i], k), (k - 1) as nat, 1);
    }
}

/// Any node of a row reaches any other node of it.
proof fn lemma_along_row(rows: Seq<Seq<usize>>, pick: spec_fn(usize, Dir) -> usize, a: usize, b: usize)
    requires
        sound_rows(rows),
        a < ITEM_COUNT,
        b < ITEM_COUNT,
        depth_of(a) == depth_of(b),
    ensures
        exists|k: nat| reaches(rows, pick, a, b, k),
{
    let d = depth_of(a) as int;
    lemma_recipe_well_founded(item_at(a as int));
    let row = rows[d];
    assert(row_fits(row, d as nat));
    assert(row.contains(a) && row.contains(b));
    let i = choose|i: int| 0 <= i < row.len() && row[i] == a;
    let j = choose|j: int| 0 <= j < row.len() && row[j] == b;
    let n = row.len() as int;
    lemma_rows_long(rows, d);
    lemma_lap_comes_home(row, i);
    let k: nat = if j >= i { (j - i) as nat } else { (j - i + n) as nat };
    lemma_laps(rows, pick, d, i, k);
    if j >= i {
        vstd::arithmetic::div_mod::lemma_small_mod(j as nat, n as nat);
    } else {
        vstd::arithmetic::div_mod::lemma_mod_add_multiples_vanish(j, n);
        vstd::arithmetic::div_mod::lemma_small_mod(j as nat, n as nat);
    }
    assert(lap(row, row[i], k) == row[j]);
}

/// The nearest gap is the least of them, and some candidate stands at it.
proof fn lemma_closest(c: Seq<usize>, here: nat)
    requires
        c.len() > 0,
    ensures
        forall|k: int| 0 <= k < c.len() ==> closest_gap(c, here) <= gap(depth_of(#[trigger] c[k]), here),
        exists|k: int| 0 <= k < c.len() && closest_gap(c, here) == gap(depth_of(#[trigger] c[k]), here),
    decreases c.len(),
{
    if c.len() > 1 {
        let f = c.drop_last();
        lemma_closest(f, here);
        assert forall|k: int| 0 <= k < c.len() implies closest_gap(c, here) <= gap(depth_of(#[trigger] c[k]), here) by {
            if k < c.len() - 1 {
                assert(c[k] == f[k]);
            }
        }
        let w = choose|k: int| 0 <= k < f.len() && closest_gap(f, here) == gap(depth_of(#[trigger] f[k]), here);
        assert(f[w] == c[w]);
        if gap(depth_of(c.last()), here) < closest_gap(f, here) {
            assert(closest_gap(c, here) == gap(depth_of(c[c.len() - 1]), here));
        } else {
            assert(closest_gap(c, here) == gap(depth_of(c[w]), here));
        }
    } else {
        assert(closest_gap(c, here) == gap(depth_of(c[0]), here));
    }
}

/// Where every candidate is a row away or more and one is exactly a row away, the press
/// has candidates, and every one of them is a row away.
proof fn lemma_adjacent(c: Seq<usize>, here: nat, x: usize)
    requires
        c.contains(x),
        gap(depth_of(x), here) == 1,
        forall|k: int| 0 <= k < c.len() ==> gap(depth_of(#[trigger] c[k]), here) >= 1,
    ensures
        nearest_spec(c, here).len() > 0,
        forall|y: usize| #[trigger] nearest_spec(c, here).contains(y) ==> c.contains(y) && gap(depth_of(y), here) == 1,
{
    lemma_closest(c, here);
    let kx = choose|k: int| 0 <= k < c.len() && c[k] == x;
    let w = choose|k: int| 0 <= k < c.len() && closest_gap(c, here) == gap(depth_of(#[trigger] c[k]), here);
    assert(closest_gap(c, here) == 1);
    let p = on_nearest(c, here);
    c.lemma_filter_contains(p, kx);
    assert forall|y: usize| #[trigger] nearest_spec(c, here).contains(y) implies c.contains(y) && gap(depth_of(y), here) == 1 by {
        c.lemma_filter_contains_rev(p, y);
        #[allow(deprecated)]
        c.filter_lemma(p);
        let q = choose|q: int| 0 <= q < c.filter(p).len() && c.filter(p)[q] == y;
        assert(p(c.filter(p)[q]));
    }
}

/// Every arrow runs from a lower row to a higher one, into one of the first `n` nodes.
proof fn lemma_edges_rise(n: nat)
    requires
        n <= ITEM_COUNT,
    ensures
        forall|p: int| 0 <= p < edges_upto(n).len() ==> {
            &&& (#[trigger] edges_upto(n)[p]).to < n
            &&& edges_upto(n)[p].from < ITEM_COUNT
            &&& depth_of(edges_upto(n)[p].from) < depth_of(edges_upto(n)[p].to)
        },
    decreases n,
{
    if n > 0 {
        let m = (n - 1) as nat;
        lemma_edges_rise(m);
        let front = edges_upto(m);
        let r = recipe_table(item_at(m as int));
        lemma_recipe_well_founded(item_at(m as int));
        assert forall|p: int| 0 <= p < edges_upto(n).len() implies {
            &&& (#[trigger] edges_upto(n)[p]).to < n
            &&& edges_upto(n)[p].from < ITEM_COUNT
            &&& depth_of(edges_upto(n)[p].from) < depth_of(edges_upto(n)[p].to)
        } by {
            if p < front.len() {
                assert(edges_upto(n)[p] == front[p]);
            } else {
                let j = p - front.len();
                let e = edges_upto(n)[p];
                assert(e == edge_into(m)(r[j]));
                lemma_index_inverse(r[j].0);
                assert(tier(r[j].0) < tier(item_at(m as int)));
            }
        }
    }
}

/// What a node goes into stands above it.
proof fn lemma_feeds_rise(i: nat)
    requires
        i < ITEM_COUNT,
    ensures
        forall|y: usize| #[trigger] feeds_of(i).contains(y) ==> y < ITEM_COUNT && depth_of(y) > depth_of(i as usize),
{
    lemma_edges_rise(ITEM_COUNT as nat);
    let e = all_edges();
    let f = e.filter(leaves(i));
    assert forall|y: usize| #[trigger] feeds_of(i).contains(y) implies y < ITEM_COUNT && depth_of(y) > depth_of(i as usize) by {
        let q = choose|q: int| 0 <= q < feeds_of(i).len() && feeds_of(i)[q] == y;
        #[allow(deprecated)]
        e.filter_lemma(leaves(i));
        assert(leaves(i)(f[q]));
        e.lemma_filter_contains_rev(leaves(i), f[q]);
        let p = choose|p: int| 0 <= p < e.len() && e[p] == f[q];
        assert(e[p].to < ITEM_COUNT);
    }
}

/// What a node is made of stands below it.
proof fn lemma_needs_fall(i: nat)
    requires
        i < ITEM_COUNT,
    ensures
        forall|y: usize| #[trigger] toward(i, Dir::Down).contains(y) ==> y < ITEM_COUNT && depth_of(y) < depth_of(i as usize),
{
    let r = recipe_table(item_at(i as int));
    lemma_recipe_well_founded(item_at(i as int));
    assert forall|y: usize| #[trigger] toward(i, Dir::Down).contains(y) implies y < ITEM_COUNT && depth_of(y) < depth_of(i as usize) by {
        let q = choose|q: int| 0 <= q < toward(i, Dir::Down).len() && toward(i, Dir::Down)[q] == y;
        assert(y == item_index(r[q].0));
        lemma_index_inverse(r[q].0);
        assert(tier(r[q].0) < tier(item_at(i as int)));
    }
}

/// The arrows into the first `k1` nodes start the arrows into the first `k2`.
proof fn lemma_edges_prefix(k1: nat, k2: nat)
    requires
        k1 <= k2,
    ensures
        edges_upto(k1).len() <= edges_upto(k2).len(),
        forall|p: int| 0 <= p < edges_upto(k1).len() ==> #[trigger] edges_upto(k2)[p] == edges_upto(k1)[p],
    decreases k2,
{
    if k2 > k1 {
        lemma_edges_prefix(k1, (k2 - 1) as nat);
        assert forall|p: int| 0 <= p < edges_upto(k1).len() implies #[trigger] edges_upto(k2)[p] == edges_upto(k1)[p] by {
            assert(edges_upto(k2)[p] == edges_upto((k2 - 1) as nat)[p]);
        }
    }
}

/// The `j`-th ingredient of node `k` goes into `k`.
proof fn lemma_feeds_has(k: nat, j: int)
    requires
        k < ITEM_COUNT,
        0 <= j < recipe_table(item_at(k as int)).len(),
    ensures
        feeds_of(item_index(recipe_table(item_at(k as int))[j].0) as nat).contains(k as usize),
{
    let r = recipe_table(item_at(k as int));
    let i = item_index(r[j].0) as nat;
    lemma_index_inverse(r[j].0);
    let p = edges_upto(k).len() + j;
    let e = edge_into(k)(r[j]);
    assert(edges_upto(k + 1)[p] == e);
    lemma_edges_prefix(k + 1, ITEM_COUNT as nat);
    assert(all_edges()[p] == e);
    assert(leaves(i)(e));
    all_edges().lemma_filter_contains(leaves(i), p);
    let f = all_edges().filter(leaves(i));
    let q = choose|q: int| 0 <= q < f.len() && f[q] == e;
    assert(feeds_of(i)[q] == head()(e));
}

/// An up press from a node with something exactly one row up lands one row up, whatever the
/// screen picks.
proof fn lemma_hop_up(rows: Seq<Seq<usize>>, pick: spec_fn(usize, Dir) -> usize, a: usize, x: usize)
    requires
        fair_pick(pick),
        a < ITEM_COUNT,
        feeds_of(a as nat).contains(x),
        depth_of(x) == depth_of(a) + 1,
    ensures
        pad_step(rows, pick, a, Dir::Up) matches Some(m) && m < ITEM_COUNT && depth_of(m) == depth_of(a) + 1,
{
    let c = toward(a as nat, Dir::Up);
    lemma_feeds_rise(a as nat);
    assert forall|k: int| 0 <= k < c.len() implies gap(depth_of(#[trigger] c[k]), depth_of(a)) >= 1 by {
        assert(c.contains(c[k]));
    }
    lemma_adjacent(c, depth_of(a), x);
    let m = pick(a, Dir::Up);
    assert(nearest_spec(c, depth_of(a)).contains(m));
}

/// A down press from a node with something exactly one row down lands one row down,
/// whatever the screen picks.
proof fn lemma_hop_down(rows: Seq<Seq<usize>>, pick: spec_fn(usize, Dir) -> usize, a: usize, x: usize)
    requires
        fair_pick(pick),
        a < ITEM_COUNT,
        toward(a as nat, Dir::Down).contains(x),
        depth_of(x) + 1 == depth_of(a),
    ensures
        pad_step(rows, pick, a, Dir::Down) matches Some(m) && m < ITEM_COUNT && depth_of(m) + 1 == depth_of(a),
{
    let c = toward(a as nat, Dir::Down);
    lemma_needs_fall(a as nat);
    assert forall|k: int| 0 <= k < c.len() implies gap(depth_of(#[trigger] c[k]), depth_of(a)) >= 1 by {
        assert(c.contains(c[k]));
    }
    lemma_adjacent(c, depth_of(a), x);
    let m = pick(a, Dir::Down);
    assert(nearest_spec(c, depth_of(a)).contains(m));
}

/// The node every row is left from: stone at the bottom, the nail in the middle, the
/// hammer on top. Stone goes into the nail, which goes into the hammer.
pub open spec fn hub(d: nat) -> usize {
    if d == 0 {
        2
    } else if d == 1 {
        7
    } else {
        8
    }
}

/// From any node, a row up or a row down, where there is one.
proof fn lemma_hop(rows: Seq<Seq<usize>>, pick: spec_fn(usize, Dir) -> usize, a: usize, up: bool)
    requires
        sound_rows(rows),
        fair_pick(pick),
        a < ITEM_COUNT,
        up ==> depth_of(a) < top_tier(),
        !up ==> depth_of(a) > 0,
    ensures
        exists|m: usize, k: nat| {
            &&& m < ITEM_COUNT
            &&& depth_of(m) as int == if up { depth_of(a) as int + 1 } else { depth_of(a) as int - 1 }
            &&& #[trigger] reaches(rows, pick, a, m, k)
        },
{
    lemma_recipe_well_founded(item_at(a as int));
    let d = depth_of(a);
    let h = hub(d);
    assert(depth_of(h) == d);
    lemma_along_row(rows, pick, a, h);
    let k1 = choose|k: nat| reaches(rows, pick, a, h, k);
    let dir = if up { Dir::Up } else { Dir::Down };
    if up {
        if d == 0 {
            lemma_feeds_has(7, 0);
            lemma_hop_up(rows, pick, h, 7);
        } else {
            lemma_feeds_has(8, 1);
            lemma_hop_up(rows, pick, h, 8);
        }
    } else {
        if d == 1 {
            assert(toward(7, Dir::Down)[0] == 2);
            lemma_hop_down(rows, pick, h, 2);
        } else {
            assert(toward(8, Dir::Down)[1] == 7);
            lemma_hop_down(rows, pick, h, 7);
        }
    }
    let m = pad_step(rows, pick, h, dir)->0;
    lemma_one_press(rows, pick, h, dir, m);
    lemma_chain(rows, pick, a, h, m, k1, 1);
    assert(reaches(rows, pick, a, m, k1 + 1));
}

/// From any node to any node, row by row.
proof fn lemma_reach(rows: Seq<Seq<usize>>, pick: spec_fn(usize, Dir) -> usize, a: usize, b: usize)
    requires
        sound_rows(rows),
        fair_pick(pick),
        a < ITEM_COUNT,
        b < ITEM_COUNT,
    ensures
        exists|k: nat| reaches(rows, pick, a, b, k),
    decreases gap(depth_of(a), depth_of(b)),
{
    lemma_recipe_well_founded(item_at(a as int));
    lemma_recipe_well_founded(item_at(b as int));
    if depth_of(a) == depth_of(b) {
        lemma_along_row(rows, pick, a, b);
    } else {
        let up = depth_of(a) < depth_of(b);
        lemma_hop(rows, pick, a, up);
        let (m, k1) = choose|m: usize, k: nat| {
            &&& m < ITEM_COUNT
            &&& depth_of(m) as int == if up { depth_of(a) as int + 1 } else { depth_of(a) as int - 1 }
            &&& #[trigger] reaches(rows, pick, a, m, k)
        };
        lemma_reach(rows, pick, m, b);
        let k2 = choose|k: nat| reaches(rows, pick, m, b, k);
        lemma_chain(rows, pick, a, m, b, k1, k2);
    }
}

/// A child who starts anywhere can reach everything with the d-pad alone: from every node
/// of the graph, some run of presses lands on any other, whichever candidate the screen
/// picks for each up or down press.
pub proof fn lemma_d_pad_reaches_everything(g: Graph, pick: spec_fn(usize, Dir) -> usize, a: usize, b: usize)
    requires
        g.wf(),
        fair_pick(pick),
        a < ITEM_COUNT,
        b < ITEM_COUNT,
    ensures
        exists|k: nat| reaches(g.row_list(), pick, a, b, k),
{
    lemma_reach(g.row_list(), pick, a, b);
}

} // verus!
