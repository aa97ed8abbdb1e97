//! The whole recipe graph, row by row: one node per item, ranked by the longest chain
//! down to the ground, and the way a d-pad walks it.
//!
//! **It is a graph, not a tree.** A nail is spent by five different things, and a hammer's
//! two ingredients sit on different rows. The rows are ranked by the *longest* path, so an
//! edge may span more than one row, and a node may have any number of edges either way.
//!
//! Where along its row a node is drawn is worked out by the screen; the order of a row can
//! be set from that, and everything else here is a fact about the recipes themselves.
use vstd::prelude::*;
use crate::registry::{
    ITEM_COUNT, Item, all_items, item_at, item_index, lemma_at_inverse, lemma_index_inverse,
    lemma_recipe_well_founded, lemma_tier_longest, recipe_table, tier, top_tier,
};

verus! {

/// One thing you can make or dig up, and where it stands.
#[derive(Debug)]
pub struct Node {
    pub item: Item,
    /// Which row: `0` is dug out of the ground, and each step up is one more craft away
    /// from it, along the longest chain.
    pub depth: usize,
    /// Nodes this one is an ingredient of.
    pub feeds: Vec<usize>,
    /// What this one is made of, and how many of each.
    pub needs: Vec<(usize, u32)>,
}

/// An ingredient arrow: `count` of `from` go into one `to`.
#[derive(Debug, Clone, Copy, PartialEq, Eq, Structural)]
pub struct Edge {
    pub from: usize,
    pub to: usize,
    pub count: u32,
}

/// Which way the d-pad was pushed.
#[derive(Debug, Clone, Copy, PartialEq, Eq, Structural)]
pub enum Dir {
    /// Towards what this makes.
    Up,
    /// Towards what this is made of.
    Down,
    Left,
    Right,
}

/// The arrow a recipe entry of item `k` is drawn as.
pub open spec fn edge_into(k: nat) -> spec_fn((Item, u32)) -> Edge {
    |e: (Item, u32)| Edge { from: item_index(e.0) as usize, to: k as usize, count: e.1 }
}

/// The arrows into the first `k` items, item by item, each in recipe order.
pub open spec fn edges_upto(k: nat) -> Seq<Edge>
    decreases k,
{
    if k == 0 {
        Seq::empty()
    } else {
        edges_upto((k - 1) as nat) + recipe_table(item_at(k - 1)).map_values(edge_into((k - 1) as nat))
    }
}

/// Every arrow of the graph.
pub open spec fn all_edges() -> Seq<Edge> {
    edges_upto(ITEM_COUNT as nat)
}

/// A recipe entry as a node's need: the ingredient's node, and how many.
pub open spec fn need_entry() -> spec_fn((Item, u32)) -> (usize, u32) {
    |e: (Item, u32)| (item_index(e.0) as usize, e.1)
}

/// What node `i` is made of.
pub open spec fn needs_of(i: nat) -> Seq<(usize, u32)> {
    recipe_table(item_at(i as int)).map_values(need_entry())
}

/// The test for an arrow out of node `i`.
pub open spec fn leaves(i: nat) -> spec_fn(Edge) -> bool {
    |e: Edge| e.from == i
}

/// Where an arrow goes.
pub open spec fn head() -> spec_fn(Edge) -> usize {
    |e: Edge| e.to
}

/// The nodes node `i` is an ingredient of, in arrow order.
pub open spec fn feeds_of(i: nat) -> Seq<usize> {
    all_edges().filter(leaves(i)).map_values(head())
}

/// The test for a node on row `d`.
pub open spec fn at_depth(d: nat) -> spec_fn(usize) -> bool {
    |i: usize| tier(item_at(i as int)) == d
}

/// Every node index, in order.
pub open spec fn indices() -> Seq<usize> {
    Seq::new(ITEM_COUNT as nat, |i: int| i as usize)
}

/// The nodes of row `d`, in item order.
pub open spec fn row_of(d: nat) -> Seq<usize> {
    indices().filter(at_depth(d))
}

/// Is `j` somewhere down the recipe of `i`: an ingredient, or an ingredient of one?
pub open spec fn made_of(i: Item, j: Item) -> bool
    decreases tier(i), 1nat, 0nat,
{
    made_of_any(recipe_table(i), j, tier(i))
}

/// Is `j` an entry of `r`, or down the recipe of one?
pub open spec fn made_of_any(r: Seq<(Item, u32)>, j: Item, bound: nat) -> bool
    decreases bound, 0nat, r.len(),
{
    if r.len() == 0 {
        false
    } else {
        let g = r.last().0;
        made_of_any(r.drop_last(), j, bound) || g == j || (tier(g) < bound && made_of(g, j))
    }
}

/// Node `k` is in the family lit up around node `at`: itself, what it is made of, and what
/// is made of it.
pub open spec fn in_family(at: int, k: int) -> bool {
    k == at || made_of(item_at(at), item_at(k)) || made_of(item_at(k), item_at(at))
}

/// The whole registry as a graph: one node per item, in declaration order.
pub struct Graph {
    nodes: Vec<Node>,
    edges: Vec<Edge>,
    /// Node indices per row.
    rows: Vec<Vec<usize>>,
}

/// A row holds each node of its depth once, and nothing else.
pub open spec fn row_fits(row: Seq<usize>, d: nat) -> bool {
    &&& row.no_duplicates()
    &&& forall|k: int| 0 <= k < row.len() ==> #[trigger] row[k] < ITEM_COUNT && tier(item_at(row[k] as int)) == d
    &&& forall|i: int| 0 <= i < ITEM_COUNT && tier(item_at(i)) == d ==> row.contains(i as usize)
}

impl Graph {
    /// The nodes, in item order.
    pub closed spec fn node_list(&self) -> Seq<Node> {
        self.nodes@
    }

    /// The arrows.
    pub closed spec fn edge_list(&self) -> Seq<Edge> {
        self.edges@
    }

    /// The rows, as they stand now.
    pub closed spec fn row_list(&self) -> Seq<Seq<usize>> {
        self.rows@.map_values(|r: Vec<usize>| r@)
    }

    /// Every node is its item, on the row of its longest chain, with its arrows; and every
    /// row holds exactly the nodes of its depth.
    pub open spec fn wf(&self) -> bool {
        &&& self.node_list().len() == ITEM_COUNT
        &&& forall|i: int|
            0 <= i < ITEM_COUNT ==> {
                &&& (#[trigger] self.node_list()[i]).item == item_at(i)
                &&& self.node_list()[i].depth == tier(item_at(i))
                &&& self.node_list()[i].needs@ == needs_of(i as nat)
                &&& self.node_list()[i].feeds@ == feeds_of(i as nat)
            }
        &&& self.edge_list() == all_edges()
        &&& self.row_list().len() == top_tier() + 1
        &&& forall|d: int| 0 <= d <= top_tier() ==> row_fits(#[trigger] self.row_list()[d], d as nat)
    }
}

/// The longest chain from each node to the ground, by repeated relaxation: each pass lifts
/// every node to one above the highest of its ingredients. The recipes refuse a cycle, so
/// this settles rather than spinning.
fn rank(needs: &Vec<Vec<(usize, u32)>>) -> (r: Vec<usize>)
    requires
        needs@.len() == ITEM_COUNT,
        forall|i: int| 0 <= i < ITEM_COUNT ==> (#[trigger] needs@[i])@ == needs_of(i as nat),
    ensures
        r@.len() == ITEM_COUNT,
        forall|i: int| 0 <= i < ITEM_COUNT ==> #[trigger] r@[i] == tier(item_at(i)),
{
    let n = needs.len();
    let mut depth: Vec<usize> = Vec::new();
    let mut i: usize = 0;
    while i < n
        invariant
            n == ITEM_COUNT,
            i <= n,
            depth@.len() == i,
            forall|k: int| 0 <= k < i ==> #[trigger] depth@[k] == 0,
        decreases n - i,
    {
        depth.push(0);
        i = i + 1;
    }
    let mut pass: usize = 0;
    let mut settled = false;
    while pass < n && !settled
        invariant
            n == ITEM_COUNT,
            needs@.len() == ITEM_COUNT,
            forall|i: int| 0 <= i < ITEM_COUNT ==> (#[trigger] needs@[i])@ == needs_of(i as nat),
            depth@.len() == ITEM_COUNT,
            pass <= n,
            forall|k: int| 0 <= k < ITEM_COUNT ==> #[trigger] depth@[k] <= tier(item_at(k)),
            forall|k: int|
                0 <= k < ITEM_COUNT ==> #[trigger] depth@[k] >= if tier(item_at(k)) <= pass {
                    tier(item_at(k)) as int
                } else {
                    pass as int
                },
            settled ==> forall|k: int| 0 <= k < ITEM_COUNT ==> #[trigger] depth@[k] == tier(item_at(k)),
        decreases n - pass,
    {
        let mut moved = false;
        let ghost start = depth@;
        let mut i: usize = 0;
        while i < n
            invariant
                n == ITEM_COUNT,
                needs@.len() == ITEM_COUNT,
                forall|i: int| 0 <= i < ITEM_COUNT ==> (#[trigger] needs@[i])@ == needs_of(i as nat),
                depth@.len() == ITEM_COUNT,
                i <= n,
                pass < n,
                forall|k: int| 0 <= k < ITEM_COUNT ==> #[trigger] depth@[k] <= tier(item_at(k)),
                forall|k: int| 0 <= k < ITEM_COUNT ==> #[trigger] depth@[k] >= start[k],
                forall|k: int|
                    0 <= k < ITEM_COUNT ==> #[trigger] start[k] >= if tier(item_at(k)) <= pass {
                        tier(item_at(k)) as int
                    } else {
                        pass as int
                    },
                forall|k: int|
                    0 <= k < i ==> #[trigger] depth@[k] >= if tier(item_at(k)) <= pass + 1 {
                        tier(item_at(k)) as int
                    } else {
                        pass + 1
                    },
                !moved ==> depth@ == start,
                !moved ==> forall|k: int, j: int|
                    0 <= k < i && 0 <= j < needs_of(k as nat).len() ==> depth@[k] >= #[trigger] depth@[
                        needs_of(k as nat)[j].0 as int] + 1,
            decreases n - i,
        {
            let item = Item::from_index(i);
            proof {
                lemma_recipe_well_founded(item);
                lemma_tier_longest(item);
            }
            let mine = &needs[i];
            let mut want: usize = 0;
            let mut j: usize = 0;
            while j < mine.len()
                invariant
                    n == ITEM_COUNT,
                    i < n,
                    item == item_at(i as int),
                    mine@ == needs_of(i as nat),
                    depth@.len() == ITEM_COUNT,
                    forall|k: int| 0 <= k < ITEM_COUNT ==> #[trigger] depth@[k] <= tier(item_at(k)),
                    j <= mine@.len(),
                    want <= tier(item),
                    forall|q: int| 0 <= q < j ==> want >= #[trigger] depth@[mine@[q].0 as int] + 1,
                    forall|q: int| 0 <= q < mine@.len() ==> (#[trigger] mine@[q]).0 < ITEM_COUNT
                        && tier(item_at(mine@[q].0 as int)) < tier(item),
                decreases mine@.len() - j,
            {
                let g = mine[j].0;
                let up = depth[g] + 1;
                if up > want {
                    want = up;
                }
                j = j + 1;
            }
            let ghost d0 = depth@;
            proof {
                // The ingredient that sets the tier was at least as high at the start of this
                // pass as the pass count allows, so this node now stands one above that.
                if recipe_table(item).len() > 0 {
                    let w = choose|w: int| 0 <= w < recipe_table(item).len() && tier(
                        #[trigger] recipe_table(item)[w].0,
                    ) + 1 == tier(item);
                    let g = recipe_table(item)[w].0;
                    lemma_index_inverse(g);
                    let gi = item_index(g);
                    assert(mine@[w].0 == gi);
                    assert(want >= d0[gi] + 1);
                    assert(d0[gi] >= start[gi]);
                    assert(start[gi] >= if tier(item_at(gi)) <= pass {
                        tier(item_at(gi)) as int
                    } else {
                        pass as int
                    });
                    assert(want >= if tier(item) <= pass + 1 {
                        tier(item) as int
                    } else {
                        pass + 1
                    });
                }
            }
            if want > depth[i] {
                depth.set(i, want);
                moved = true;
            }
            i = i + 1;
        }
        if !moved {
            settled = true;
            proof {
                lemma_settled(depth@);
            }
        }
        pass = pass + 1;
    }
    depth
}

/// A depth assignment where every node already stands at least one above each of its
/// ingredients, and no node above its longest chain, is the longest chain.
proof fn lemma_settled(depth: Seq<usize>)
    requires
        depth.len() == ITEM_COUNT,
        forall|k: int| 0 <= k < ITEM_COUNT ==> #[trigger] depth[k] <= tier(item_at(k)),
        forall|k: int, j: int|
            0 <= k < ITEM_COUNT && 0 <= j < needs_of(k as nat).len() ==> depth[k] >= #[trigger] depth[
                needs_of(k as nat)[j].0 as int] + 1,
    ensures
        forall|k: int| 0 <= k < ITEM_COUNT ==> #[trigger] depth[k] == tier(item_at(k)),
{
    assert forall|k: int| 0 <= k < ITEM_COUNT implies #[trigger] depth[k] == tier(item_at(k)) by {
        lemma_settled_at(depth, k);
    }
}

proof fn lemma_settled_at(depth: Seq<usize>, k: int)
    requires
        depth.len() == ITEM_COUNT,
        0 <= k < ITEM_COUNT,
        forall|k: int| 0 <= k < ITEM_COUNT ==> #[trigger] depth[k] <= tier(item_at(k)),
        forall|k: int, j: int|
            0 <= k < ITEM_COUNT && 0 <= j < needs_of(k as nat).len() ==> depth[k] >= #[trigger] depth[
                needs_of(k as nat)[j].0 as int] + 1,
    ensures
        depth[k] >= tier(item_at(k)),
    decreases tier(item_at(k)),
{
    let item = item_at(k);
    lemma_tier_longest(item);
    lemma_recipe_well_founded(item);
    if recipe_table(item).len() > 0 {
        let w = choose|w: int| 0 <= w < recipe_table(item).len() && tier(
            #[trigger] recipe_table(item)[w].0,
        ) + 1 == tier(item);
        let g = recipe_table(item)[w].0;
        lemma_index_inverse(g);
        assert(needs_of(k as nat)[w].0 == item_index(g));
        lemma_settled_at(depth, item_index(g));
        assert(depth[k] >= depth[needs_of(k as nat)[w].0 as int] + 1);
    }
}

/// Keeping some of a list with no repeats keeps it without repeats.
proof fn lemma_filter_distinct<A>(s: Seq<A>, p: spec_fn(A) -> bool)
    requires
        s.no_duplicates(),
    ensures
        s.filter(p).no_duplicates(),
    decreases s.len(),
{
    reveal_with_fuel(Seq::filter, 1);
    if s.len() > 0 {
        let front = s.drop_last();
        assert forall|i: int, j: int| 0 <= i < front.len() && 0 <= j < front.len() && i != j implies front[i] != front[j] by {
            assert(front[i] == s[i] && front[j] == s[j]);
        }
        lemma_filter_distinct(front, p);
        if p(s.last()) {
            if front.filter(p).contains(s.last()) {
                front.lemma_filter_contains_rev(p, s.last());
                let k = choose|k: int| 0 <= k < front.len() && front[k] == s.last();
                assert(s[k] == s[s.len() - 1]);
            }
            let f = front.filter(p);
            assert forall|i: int, j: int| 0 <= i < f.push(s.last()).len() && 0 <= j < f.push(s.last()).len() && i != j implies f.push(s.last())[i] != f.push(s.last())[j] by {
                if i < f.len() && j < f.len() {
                } else if i < f.len() {
                    assert(f.contains(f[i]));
                } else if j < f.len() {
                    assert(f.contains(f[j]));
                }
            }
        }
    }
}

/// Row `d` in item order holds each node of depth `d` once, and nothing else.
proof fn lemma_row_of_fits(d: nat)
    ensures
        row_fits(row_of(d), d),
{
    let all = indices();
    assert forall|i: int, j: int| 0 <= i < all.len() && 0 <= j < all.len() && i != j implies all[i] != all[j] by {}
    lemma_filter_distinct(all, at_depth(d));
    assert forall|k: int| 0 <= k < row_of(d).len() implies #[trigger] row_of(d)[k] < ITEM_COUNT && tier(item_at(row_of(d)[k] as int)) == d by {
        all.lemma_filter_pred(at_depth(d), k);
        all.lemma_filter_contains_rev(at_depth(d), row_of(d)[k]);
    }
    assert forall|i: int| 0 <= i < ITEM_COUNT && tier(item_at(i)) == d implies row_of(d).contains(i as usize) by {
        assert(all[i] == i as usize);
        all.lemma_filter_contains(at_depth(d), i);
    }
}

/// The arrows out of a node, in arrow order, are where they go.
fn feeds_from(edges: &Vec<Edge>, i: usize) -> (r: Vec<usize>)
    ensures
        r@ == edges@.filter(leaves(i as nat)).map_values(head()),
{
    let mut r: Vec<usize> = Vec::new();
    let mut k: usize = 0;
    while k < edges.len()
        invariant
            k <= edges@.len(),
            r@ == edges@.take(k as int).filter(leaves(i as nat)).map_values(head()),
        decreases edges@.len() - k,
    {
        let e = edges[k];
        proof {
            reveal_with_fuel(Seq::filter, 1);
            assert(edges@.take(k + 1).drop_last() =~= edges@.take(k as int));
            assert(edges@.take(k + 1).last() == e);
        }
        if e.from == i {
            let ghost f = edges@.take(k as int).filter(leaves(i as nat));
            r.push(e.to);
            proof {
                assert(f.push(e).map_values(head()) =~= f.map_values(head()).push(e.to));
            }
        }
        k = k + 1;
    }
    assert(edges@.take(edges@.len() as int) =~= edges@);
    r
}

/// What one item is made of, as nodes.
fn needs_for(k: usize) -> (r: Vec<(usize, u32)>)
    requires
        k < ITEM_COUNT,
    ensures
        r@ == needs_of(k as nat),
{
    let recipe = Item::from_index(k).recipe();
    let mut r: Vec<(usize, u32)> = Vec::new();
    let mut j: usize = 0;
    while j < recipe.len()
        invariant
            j <= recipe@.len(),
            recipe@ == recipe_table(item_at(k as int)),
            r@ == recipe@.take(j as int).map_values(need_entry()),
        decreases recipe@.len() - j,
    {
        let (g, c) = recipe[j];
        r.push((g.index(), c));
        proof {
            assert(recipe@.take(j + 1) =~= recipe@.take(j as int).push((g, c)));
            assert(r@ =~= recipe@.take(j + 1).map_values(need_entry()));
        }
        j = j + 1;
    }
    assert(recipe@.take(recipe@.len() as int) =~= recipe@);
    r
}

impl Graph {
    /// The whole registry, laid out. One node per item, in declaration order, so a node
    /// index is an item's index and nothing has to map between the two.
    pub fn of_registry() -> (r: Graph)
        ensures
            r.wf(),
            forall|d: int| 0 <= d <= top_tier() ==> #[trigger] r.row_list()[d] == row_of(d as nat),
    {
        let mut needs: Vec<Vec<(usize, u32)>> = Vec::new();
        let mut edges: Vec<Edge> = Vec::new();
        let mut k: usize = 0;
        while k < ITEM_COUNT
            invariant
                k <= ITEM_COUNT,
                needs@.len() == k,
                forall|i: int| 0 <= i < k ==> (#[trigger] needs@[i])@ == needs_of(i as nat),
                edges@ == edges_upto(k as nat),
            decreases ITEM_COUNT - k,
        {
            let recipe = Item::from_index(k).recipe();
            let ghost base = edges@;
            let mut j: usize = 0;
            while j < recipe.len()
                invariant
                    k < ITEM_COUNT,
                    j <= recipe@.len(),
                    recipe@ == recipe_table(item_at(k as int)),
                    edges@ == base + recipe@.take(j as int).map_values(edge_into(k as nat)),
                decreases recipe@.len() - j,
            {
                let (g, c) = recipe[j];
                edges.push(Edge { from: g.index(), to: k, count: c });
                proof {
                    assert(recipe@.take(j + 1) =~= recipe@.take(j as int).push((g, c)));
                    assert(edges@ =~= base + recipe@.take(j + 1).map_values(edge_into(k as nat)));
                }
                j = j + 1;
            }
            assert(recipe@.take(recipe@.len() as int) =~= recipe@);
            needs.push(needs_for(k));
            k = k + 1;
        }
        let depth = rank(&needs);
        let mut nodes: Vec<Node> = Vec::new();
        let mut i: usize = 0;
        while i < ITEM_COUNT
            invariant
                i <= ITEM_COUNT,
                edges@ == all_edges(),
                depth@.len() == ITEM_COUNT,
                forall|q: int| 0 <= q < ITEM_COUNT ==> #[trigger] depth@[q] == tier(item_at(q)),
                nodes@.len() == i,
                forall|q: int|
                    0 <= q < i ==> {
                        &&& (#[trigger] nodes@[q]).item == item_at(q)
                        &&& nodes@[q].depth == tier(item_at(q))
                        &&& nodes@[q].needs@ == needs_of(q as nat)
                        &&& nodes@[q].feeds@ == feeds_of(q as nat)
                    },
            decreases ITEM_COUNT - i,
        {
            let node = Node {
                item: Item::from_index(i),
                depth: depth[i],
                feeds: feeds_from(&edges, i),
                needs: needs_for(i),
            };
            nodes.push(node);
            i = i + 1;
        }
        let mut rows: Vec<Vec<usize>> = Vec::new();
        let mut d: usize = 0;
        while d < 3
            invariant
                d <= 3,
                depth@.len() == ITEM_COUNT,
                forall|q: int| 0 <= q < ITEM_COUNT ==> #[trigger] depth@[q] == tier(item_at(q)),
                rows@.len() == d,
                forall|e: int| 0 <= e < d ==> (#[trigger] rows@[e])@ == row_of(e as nat),
            decreases 3 - d,
        {
            let mut row: Vec<usize> = Vec::new();
            let mut q: usize = 0;
            while q < ITEM_COUNT
                invariant
                    d < 3,
                    q <= ITEM_COUNT,
                    depth@.len() == ITEM_COUNT,
                    forall|q: int| 0 <= q < ITEM_COUNT ==> #[trigger] depth@[q] == tier(item_at(q)),
                    row@ == indices().take(q as int).filter(at_depth(d as nat)),
                decreases ITEM_COUNT - q,
            {
                proof {
                    reveal_with_fuel(Seq::filter, 1);
                    assert(indices().take(q + 1).drop_last() =~= indices().take(q as int));
                    assert(indices().take(q + 1).last() == q);
                }
                if depth[q] == d {
                    row.push(q);
                }
                q = q + 1;
            }
            assert(indices().take(ITEM_COUNT as int) =~= indices());
            rows.push(row);
            d = d + 1;
        }
        let r = Graph { nodes, edges, rows };
        proof {
            assert forall|d: int| 0 <= d <= top_tier() implies #[trigger] r.row_list()[d] == row_of(d as nat) by {
                assert(r.row_list()[d] == r.rows@[d]@);
            }
            assert forall|d: int| 0 <= d <= top_tier() implies row_fits(#[trigger] r.row_list()[d], d as nat) by {
                assert(r.row_list()[d] == r.rows@[d]@);
                lemma_row_of_fits(d as nat);
            }
        }
        r
    }

    /// The nodes, in item order.
    pub fn nodes(&self) -> (r: &[Node])
        ensures
            r@ == self.node_list(),
    {
        self.nodes.as_slice()
    }

    /// The arrows: for each item in turn, one per entry of its recipe.
    pub fn edges(&self) -> (r: &[Edge])
        ensures
            r@ == self.edge_list(),
    {
        self.edges.as_slice()
    }

    /// The rows, deepest last.
    pub fn rows(&self) -> (r: &[Vec<usize>])
        ensures
            r@.map_values(|v: Vec<usize>| v@) == self.row_list(),
    {
        self.rows.as_slice()
    }
}

/// Where a node sits in a row.
pub open spec fn pos_in(row: Seq<usize>, at: usize) -> int {
    choose|i: int| 0 <= i < row.len() && row[i] == at
}

/// The neighbour of the node at position `i` of a row, one step right or left, wrapping.
pub open spec fn beside(row: Seq<usize>, i: int, right: bool) -> Option<usize> {
    let n = row.len() as int;
    if n < 2 {
        None
    } else if right {
        Some(row[(i + 1) % n])
    } else {
        Some(row[(i + n - 1) % n])
    }
}

/// Where a sideways press from `at` lands on its row.
pub open spec fn sideways_spec(row: Seq<usize>, at: usize, right: bool) -> Option<usize> {
    beside(row, pos_in(row, at), right)
}

/// In a row without repeats, a node's position is the one it is at.
proof fn lemma_pos_in(row: Seq<usize>, i: int)
    requires
        row.no_duplicates(),
        0 <= i < row.len(),
    ensures
        pos_in(row, row[i]) == i,
{
    let p = pos_in(row, row[i]);
    assert(0 <= i < row.len() && row[i] == row[i]);
}

/// Sideways always works on a row of two or more and wraps: pressing right as many times as
/// the row is long comes back home, from anywhere on it.
pub proof fn lemma_lap_comes_home(row: Seq<usize>, i: int)
    requires
        row.no_duplicates(),
        2 <= row.len(),
        0 <= i < row.len(),
    ensures
        forall|k: nat| #[trigger] lap(row, row[i], k) == row[(i + k) % (row.len() as int)],
        lap(row, row[i], row.len()) == row[i],
{
    assert forall|k: nat| #[trigger] lap(row, row[i], k) == row[(i + k) % (row.len() as int)] by {
        lemma_lap(row, i, k);
    }
    lemma_lap(row, i, row.len());
    vstd::arithmetic::div_mod::lemma_mod_add_multiples_vanish(i, row.len() as int);
    vstd::arithmetic::div_mod::lemma_small_mod(i as nat, row.len());
}

/// Where `k` right presses from `at` land.
pub open spec fn lap(row: Seq<usize>, at: usize, k: nat) -> usize
    decreases k,
{
    if k == 0 {
        at
    } else {
        match sideways_spec(row, lap(row, at, (k - 1) as nat), true) {
            Some(next) => next,
            None => at,
        }
    }
}

proof fn lemma_lap(row: Seq<usize>, i: int, k: nat)
    requires
        row.no_duplicates(),
        2 <= row.len(),
        0 <= i < row.len(),
    ensures
        lap(row, row[i], k) == row[(i + k) % (row.len() as int)],
    decreases k,
{
    let n = row.len() as int;
    if k == 0 {
        vstd::arithmetic::div_mod::lemma_small_mod(i as nat, n as nat);
    } else {
        lemma_lap(row, i, (k - 1) as nat);
        let p = (i + k - 1) % n;
        vstd::arithmetic::div_mod::lemma_mod_bound(i + k - 1, n);
        lemma_pos_in(row, p);
        vstd::arithmetic::div_mod::lemma_add_mod_noop(i + k - 1, 1, n);
        vstd::arithmetic::div_mod::lemma_small_mod(1, n as nat);
    }
}

/// A press one way and then the other puts the cursor back where it was.
pub proof fn lemma_sideways_undone(row: Seq<usize>, i: int)
    requires
        row.no_duplicates(),
        2 <= row.len(),
        0 <= i < row.len(),
    ensures
        sideways_spec(row, sideways_spec(row, row[i], true)->0, false) == Some(row[i]),
        sideways_spec(row, sideways_spec(row, row[i], false)->0, true) == Some(row[i]),
{
    let n = row.len() as int;
    lemma_pos_in(row, i);
    let r = (i + 1) % n;
    let l = (i + n - 1) % n;
    vstd::arithmetic::div_mod::lemma_mod_bound(i + 1, n);
    vstd::arithmetic::div_mod::lemma_mod_bound(i + n - 1, n);
    lemma_pos_in(row, r);
    lemma_pos_in(row, l);
    if i + 1 < n {
        vstd::arithmetic::div_mod::lemma_small_mod((i + 1) as nat, n as nat);
        vstd::arithmetic::div_mod::lemma_mod_add_multiples_vanish(i, n);
        vstd::arithmetic::div_mod::lemma_small_mod(i as nat, n as nat);
    } else {
        vstd::arithmetic::div_mod::lemma_mod_self_0(n);
        vstd::arithmetic::div_mod::lemma_mod_add_multiples_vanish(n - 1, n);
        vstd::arithmetic::div_mod::lemma_small_mod((n - 1) as nat, n as nat);
    }
    if i > 0 {
        vstd::arithmetic::div_mod::lemma_mod_add_multiples_vanish(i - 1, n);
        vstd::arithmetic::div_mod::lemma_small_mod((i - 1) as nat, n as nat);
        vstd::arithmetic::div_mod::lemma_small_mod(i as nat, n as nat);
    } else {
        vstd::arithmetic::div_mod::lemma_small_mod((n - 1) as nat, n as nat);
        vstd::arithmetic::div_mod::lemma_mod_self_0(n);
    }
}

/// How many rows apart two depths are.
pub open spec fn gap(a: nat, b: nat) -> nat {
    if a >= b {
        (a - b) as nat
    } else {
        (b - a) as nat
    }
}

/// The fewest rows any of `c` is from row `here`.
pub open spec fn closest_gap(c: Seq<usize>, here: nat) -> nat
    decreases c.len(),
{
    if c.len() == 0 {
        0
    } else if c.len() == 1 {
        gap(tier(item_at(c[0] as int)), here)
    } else {
        let rest = closest_gap(c.drop_last(), here);
        let last = gap(tier(item_at(c.last() as int)), here);
        if last < rest {
            last
        } else {
            rest
        }
    }
}

/// The test for standing on one of the nearest rows.
pub open spec fn on_nearest(c: Seq<usize>, here: nat) -> spec_fn(usize) -> bool {
    |x: usize| gap(tier(item_at(x as int)), here) == closest_gap(c, here)
}

/// Of the nodes offered, those on the nearest row, in the order offered.
pub open spec fn nearest_spec(c: Seq<usize>, here: nat) -> Seq<usize> {
    c.filter(on_nearest(c, here))
}

/// Where an up or a down press from node `at` may go: what it goes into, or what it is
/// made of.
pub open spec fn toward(at: nat, dir: Dir) -> Seq<usize> {
    match dir {
        Dir::Up => feeds_of(at),
        Dir::Down => needs_of(at).map_values(|e: (usize, u32)| e.0),
        _ => Seq::empty(),
    }
}

/// Is one list the other, reordered?
pub open spec fn rearranges(order: Seq<usize>, row: Seq<usize>) -> bool {
    &&& order.len() == row.len()
    &&& order.no_duplicates()
    &&& forall|k: int| 0 <= k < order.len() ==> row.contains(#[trigger] order[k])
}

/// A reordering of a row without repeats holds exactly what the row holds.
proof fn lemma_rearranged_fits(order: Seq<usize>, row: Seq<usize>, d: nat)
    requires
        rearranges(order, row),
        row_fits(row, d),
    ensures
        row_fits(order, d),
{
    assert forall|k: int| 0 <= k < order.len() implies #[trigger] order[k] < ITEM_COUNT && tier(item_at(order[k] as int)) == d by {
        assert(row.contains(order[k]));
    }
    assert forall|i: int| 0 <= i < ITEM_COUNT && tier(item_at(i)) == d implies order.contains(i as usize) by {
        assert(row.contains(i as usize));
        // `order` is `row.len()` distinct members of `row`, so it misses none of them.
        if !order.contains(i as usize) {
            let m = row.to_set();
            let o = order.to_set();
            order.unique_seq_to_set();
            row.unique_seq_to_set();
            assert(o.subset_of(m.remove(i as usize))) by {
                assert forall|x: usize| o.contains(x) implies m.remove(i as usize).contains(x) by {
                    let k = choose|k: int| 0 <= k < order.len() && order[k] == x;
                    assert(row.contains(order[k]));
                }
            }
            vstd::set_lib::lemma_len_subset(o, m.remove(i as usize));
            assert(m.contains(i as usize));
        }
    }
}

/// Is `j` an entry of the first `k` of `r`, or down the recipe of one?
fn made_of_exec(i: Item, j: Item) -> (r: bool)
    ensures
        r == made_of(i, j),
    decreases tier(i),
{
    proof {
        lemma_recipe_well_founded(i);
    }
    let recipe = i.recipe();
    let mut found = false;
    let mut k: usize = 0;
    while k < recipe.len()
        invariant
            k <= recipe@.len(),
            recipe@ == recipe_table(i),
            forall|q: int| 0 <= q < recipe@.len() ==> tier(#[trigger] recipe@[q].0) < tier(i),
            found == made_of_any(recipe@.take(k as int), j, tier(i)),
        decreases recipe@.len() - k,
    {
        let g = recipe[k].0;
        proof {
            assert(recipe@.take(k + 1).drop_last() =~= recipe@.take(k as int));
            assert(recipe@.take(k + 1).last().0 == g);
            assert(tier(recipe@[k as int].0) < tier(i));
        }
        if !found {
            found = g == j || made_of_exec(g, j);
        }
        k = k + 1;
    }
    assert(recipe@.take(recipe@.len() as int) =~= recipe@);
    found
}

impl Graph {
    /// Everything `at` is made of, everything made from it, and itself: the part of the
    /// graph worth lighting up while the cursor is on it.
    pub fn family(&self, at: usize) -> (r: Vec<bool>)
        requires
            at < ITEM_COUNT,
        ensures
            r@.len() == ITEM_COUNT,
            forall|k: int| 0 <= k < ITEM_COUNT ==> #[trigger] r@[k] == in_family(at as int, k),
    {
        let here = Item::from_index(at);
        let mut r: Vec<bool> = Vec::new();
        let mut k: usize = 0;
        while k < ITEM_COUNT
            invariant
                k <= ITEM_COUNT,
                at < ITEM_COUNT,
                here == item_at(at as int),
                r@.len() == k,
                forall|q: int| 0 <= q < k ==> #[trigger] r@[q] == in_family(at as int, q),
            decreases ITEM_COUNT - k,
        {
            let other = Item::from_index(k);
            let lit = k == at || made_of_exec(here, other) || made_of_exec(other, here);
            r.push(lit);
            k = k + 1;
        }
        r
    }

    /// Where a sideways press from `at` lands: the next node along its row, wrapping, or
    /// nothing on a row of one.
    pub fn sideways(&self, at: usize, right: bool) -> (r: Option<usize>)
        requires
            self.wf(),
            at < ITEM_COUNT,
        ensures
            r == sideways_spec(self.row_list()[tier(item_at(at as int)) as int], at, right),
    {
        let d = self.nodes[at].depth;
        proof {
            lemma_recipe_well_founded(item_at(at as int));
            assert(self.row_list()[d as int] == self.rows@[d as int]@);
            assert(row_fits(self.row_list()[d as int], d as nat));
        }
        let row = &self.rows[d];
        let n = row.len();
        let mut i: usize = 0;
        while i < n && row[i] != at
            invariant
                n == row@.len(),
                i <= n,
                row@.contains(at),
                forall|q: int| 0 <= q < i ==> row@[q] != at,
            decreases n - i,
        {
            i = i + 1;
        }
        proof {
            if i == n {
                let k = choose|k: int| 0 <= k < row@.len() && row@[k] == at;
            }
            lemma_pos_in(row@, i as int);
        }
        if n < 2 {
            return None;
        }
        if right {
            Some(row[(i + 1) % n])
        } else {
            let back = if i == 0 {
                n - 1
            } else {
                i - 1
            };
            proof {
                if i == 0 {
                    vstd::arithmetic::div_mod::lemma_small_mod((n - 1) as nat, n as nat);
                } else {
                    vstd::arithmetic::div_mod::lemma_mod_add_multiples_vanish(i - 1, n as int);
                    vstd::arithmetic::div_mod::lemma_small_mod((i - 1) as nat, n as nat);
                }
            }
            Some(row[back])
        }
    }

    /// Of the nodes an up or down press from `at` could reach, the ones on the nearest row,
    /// in arrow order; the screen picks the least sideways travel among them, so a press
    /// moves the picture as little as it can while still moving.
    pub fn nearest_row(&self, at: usize, dir: Dir) -> (r: Vec<usize>)
        requires
            self.wf(),
            at < ITEM_COUNT,
        ensures
            r@ == nearest_spec(toward(at as nat, dir), tier(item_at(at as int))),
    {
        let node = &self.nodes[at];
        let mut cands: Vec<usize> = Vec::new();
        match dir {
            Dir::Up => {
                let mut k: usize = 0;
                while k < node.feeds.len()
                    invariant
                        k <= node.feeds@.len(),
                        cands@ == node.feeds@.take(k as int),
                    decreases node.feeds@.len() - k,
                {
                    cands.push(node.feeds[k]);
                    k = k + 1;
                    assert(cands@ =~= node.feeds@.take(k as int));
                }
                assert(node.feeds@.take(node.feeds@.len() as int) =~= node.feeds@);
            },
            Dir::Down => {
                let mut k: usize = 0;
                while k < node.needs.len()
                    invariant
                        k <= node.needs@.len(),
                        cands@ == node.needs@.take(k as int).map_values(|e: (usize, u32)| e.0),
                    decreases node.needs@.len() - k,
                {
                    cands.push(node.needs[k].0);
                    k = k + 1;
                    assert(cands@ =~= node.needs@.take(k as int).map_values(|e: (usize, u32)| e.0));
                }
                assert(node.needs@.take(node.needs@.len() as int) =~= node.needs@);
            },
            _ => {},
        }
        proof {
            assert(cands@ =~= toward(at as nat, dir));
            assert forall|k: int| 0 <= k < cands@.len() implies #[trigger] cands@[k] < ITEM_COUNT by {
                match dir {
                    Dir::Up => {
                        let f = all_edges().filter(leaves(at as nat));
                        all_edges().lemma_filter_contains_rev(leaves(at as nat), f[k]);
                        lemma_edges_in_range(ITEM_COUNT as nat);
                    },
                    Dir::Down => {
                        lemma_recipe_well_founded(item_at(at as int));
                        lemma_index_inverse(recipe_table(item_at(at as int))[k].0);
                    },
                    _ => {},
                }
            }
        }
        let here = node.depth;
        let mut best: usize = 0;
        let mut k: usize = 0;
        while k < cands.len()
            invariant
                k <= cands@.len(),
                forall|q: int| 0 <= q < cands@.len() ==> #[trigger] cands@[q] < ITEM_COUNT,
                here == tier(item_at(at as int)),
                k > 0 ==> best == closest_gap(cands@.take(k as int), here as nat),
                k == 0 ==> best == 0,
            decreases cands@.len() - k,
        {
            let c = cands[k];
            let cd = tier_at(c);
            let g = if cd >= here {
                cd - here
            } else {
                here - cd
            };
            proof {
                assert(cands@.take(k + 1).drop_last() =~= cands@.take(k as int));
                assert(cands@.take(k + 1).last() == c);
                if k == 0 {
                    assert(cands@.take(1)[0] == c);
                }
            }
            if k == 0 || g < best {
                best = g;
            }
            k = k + 1;
        }
        assert(cands@.take(cands@.len() as int) =~= cands@);
        let ghost keep = on_nearest(cands@, here as nat);
        let mut r: Vec<usize> = Vec::new();
        let mut k: usize = 0;
        while k < cands.len()
            invariant
                k <= cands@.len(),
                forall|q: int| 0 <= q < cands@.len() ==> #[trigger] cands@[q] < ITEM_COUNT,
                here == tier(item_at(at as int)),
                best == closest_gap(cands@, here as nat),
                keep == on_nearest(cands@, here as nat),
                r@ == cands@.take(k as int).filter(keep),
            decreases cands@.len() - k,
        {
            let c = cands[k];
            let cd = tier_at(c);
            let g = if cd >= here {
                cd - here
            } else {
                here - cd
            };
            proof {
                reveal_with_fuel(Seq::filter, 1);
                assert(cands@.take(k + 1).drop_last() =~= cands@.take(k as int));
                assert(cands@.take(k + 1).last() == c);
            }
            if g == best {
                r.push(c);
            }
            k = k + 1;
        }
        assert(cands@.take(cands@.len() as int) =~= cands@);
        r
    }

    /// Puts a row in a new order, the one the screen laid it out in, if that order is the
    /// same nodes rearranged; otherwise leaves the graph as it was and says so.
    pub fn reorder_row(&mut self, d: usize, order: Vec<usize>) -> (r: bool)
        requires
            old(self).wf(),
        ensures
            final(self).wf(),
            final(self).node_list() == old(self).node_list(),
            final(self).edge_list() == old(self).edge_list(),
            r == (d < old(self).row_list().len() && rearranges(order@, old(self).row_list()[d as int])),
            r ==> final(self).row_list() == old(self).row_list().update(d as int, order@),
            !r ==> final(self).row_list() == old(self).row_list(),
    {
        if d >= self.rows.len() {
            return false;
        }
        proof {
            assert(self.row_list()[d as int] == self.rows@[d as int]@);
        }
        let fits = {
            let row = &self.rows[d];
            if order.len() != row.len() {
                false
            } else {
                let mut ok = true;
                let mut k: usize = 0;
                while k < order.len() && ok
                    invariant
                        k <= order@.len(),
                        ok ==> forall|q: int| 0 <= q < k ==> row@.contains(#[trigger] order@[q]),
                        ok ==> forall|p: int, q: int| 0 <= p < q < k ==> order@[p] != order@[q],
                        !ok ==> !rearranges(order@, row@),
                        order@.len() == row@.len(),
                    decreases order@.len() - k + if ok { 1int } else { 0 },
                {
                    let x = order[k];
                    let mut inside = false;
                    let mut q: usize = 0;
                    while q < row.len()
                        invariant
                            q <= row@.len(),
                            inside == row@.take(q as int).contains(x),
                        decreases row@.len() - q,
                    {
                        proof {
                            assert(row@.take(q + 1) =~= row@.take(q as int).push(row@[q as int]));
                            row@.take(q as int).lemma_push_to_set_commute(row@[q as int]);
                            assert(row@.take(q + 1).contains(x) == (row@.take(q as int).contains(x) || row@[q as int] == x)) by {
                                if row@.take(q + 1).contains(x) {
                                    let w = choose|w: int| 0 <= w < q + 1 && #[trigger] row@.take(q + 1)[w] == x;
                                    if w < q {
                                        assert(row@.take(q as int)[w] == x);
                                    }
                                }
                                if row@.take(q as int).contains(x) {
                                    let w = choose|w: int| 0 <= w < q && #[trigger] row@.take(q as int)[w] == x;
                                    assert(row@.take(q + 1)[w] == x);
                                }
                                if row@[q as int] == x {
                                    assert(row@.take(q + 1)[q as int] == x);
                                }
                            }
                        }
                        if row[q] == x {
                            inside = true;
                        }
                        q = q + 1;
                    }
                    assert(row@.take(row@.len() as int) =~= row@);
                    let mut again = false;
                    let mut p: usize = 0;
                    while p < k
                        invariant
                            p <= k,
                            k < order@.len(),
                            x == order@[k as int],
                            again == exists|w: int| 0 <= w < p && order@[w] == x,
                        decreases k - p,
                    {
                        if order[p] == x {
                            again = true;
                        }
                        p = p + 1;
                    }
                    if !inside || again {
                        ok = false;
                        proof {
                            if again {
                                let w = choose|w: int| 0 <= w < k && order@[w] == x;
                                assert(order@[w] == order@[k as int]);
                            }
                        }
                    }
                    k = k + 1;
                }
                proof {
                    if ok {
                        assert forall|p: int, q: int| 0 <= p < order@.len() && 0 <= q < order@.len() && p != q implies order@[p] != order@[q] by {
                            if p < q {
                            } else {
                            }
                        }
                    }
                }
                ok
            }
        };
        if !fits {
            return false;
        }
        let ghost before = self.rows@;
        proof {
            lemma_rearranged_fits(order@, self.row_list()[d as int], d as nat);
        }
        self.rows.set(d, order);
        proof {
            assert(self.row_list() =~= old(self).row_list().update(d as int, self.rows@[d as int]@));
            assert forall|e: int| 0 <= e <= top_tier() implies row_fits(#[trigger] self.row_list()[e], e as nat) by {
                if e != d {
                    assert(self.row_list()[e] == old(self).row_list()[e]);
                }
            }
        }
        true
    }
}

/// The row a node stands on.
fn tier_at(i: usize) -> (r: usize)
    requires
        i < ITEM_COUNT,
    ensures
        r == tier(item_at(i as int)),
{
    match Item::from_index(i) {
        Item::Cushion | Item::Nail => 1,
        Item::Hammer | Item::Drill | Item::Handgun | Item::Rifle | Item::Parachute | Item::Car => 2,
        _ => 0,
    }
}

/// Every arrow joins two nodes.
proof fn lemma_edges_in_range(k: nat)
    requires
        k <= ITEM_COUNT,
    ensures
        forall|q: int| 0 <= q < edges_upto(k).len() ==> (#[trigger] edges_upto(k)[q]).to < ITEM_COUNT
            && edges_upto(k)[q].from < ITEM_COUNT,
    decreases k,
{
    if k > 0 {
        lemma_edges_in_range((k - 1) as nat);
        let r = recipe_table(item_at(k - 1));
        assert forall|q: int| 0 <= q < edges_upto(k).len() implies (#[trigger] edges_upto(k)[q]).to < ITEM_COUNT
            && edges_upto(k)[q].from < ITEM_COUNT by {
            let a = edges_upto((k - 1) as nat);
            if q >= a.len() {
                lemma_index_inverse(r[q - a.len()].0);
            }
        }
    }
}

} // verus!
