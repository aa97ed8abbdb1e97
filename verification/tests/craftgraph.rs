use blockgame::craftgraph::{Dir, Graph};
use blockgame::registry::Item;
use std::collections::HashSet;

#[test]
fn every_item_is_a_node_at_its_own_index() {
    let g = Graph::of_registry();
    assert_eq!(g.nodes().len(), Item::all().len());
    for item in Item::all().iter() {
        assert_eq!(g.nodes()[item.index()].item, *item);
    }
}

#[test]
fn what_you_dig_up_is_the_bottom_row_and_what_you_make_stands_on_it() {
    let g = Graph::of_registry();
    for node in g.nodes() {
        let gathered = node.item.recipe().is_empty();
        assert_eq!(node.depth == 0, gathered, "{:?} is on row {}", node.item, node.depth);
    }
    for edge in g.edges() {
        assert!(
            g.nodes()[edge.from].depth < g.nodes()[edge.to].depth,
            "{:?} feeds {:?} without being under it",
            g.nodes()[edge.from].item,
            g.nodes()[edge.to].item
        );
    }
}

/// One thing spent by many, and one thing made of ingredients at different distances from
/// the ground.
#[test]
fn the_recipes_are_already_a_graph() {
    let g = Graph::of_registry();
    assert!(g.nodes().iter().any(|n| n.feeds.len() > 1), "nothing is an ingredient of more than one thing");
    assert!(
        g.nodes().iter().any(|n| {
            let depths: HashSet<usize> = n.needs.iter().map(|(i, _)| g.nodes()[*i].depth).collect();
            depths.len() > 1
        }),
        "no recipe reaches across more than one row"
    );
}

#[test]
fn sideways_wraps_round_its_row_and_comes_home() {
    let g = Graph::of_registry();
    for row in g.rows() {
        if row.len() < 2 {
            continue;
        }
        let start = row[0];
        let mut at = start;
        for _ in 0..row.len() {
            at = g.sideways(at, true).expect("sideways always moves");
        }
        assert_eq!(at, start, "a lap around the row does not come back");
    }
}

#[test]
fn the_lit_family_is_what_it_is_made_of_and_what_it_makes() {
    let g = Graph::of_registry();
    let family = g.family(Item::Nail.index());
    assert!(family[Item::Nail.index()], "the cursor is in its own family");
    assert!(family[Item::Stone.index()], "a nail is made of stone");
    assert!(family[Item::Car.index()], "a car is made of nails");
    assert!(!family[Item::Sand.index()], "sand has nothing to do with nails");
}

#[test]
fn up_and_down_offer_the_nearest_row_first() {
    let g = Graph::of_registry();
    let up = g.nearest_row(Item::Stone.index(), Dir::Up);
    assert_eq!(up, vec![Item::Nail.index()], "a nail is one row up; everything else two");
    let down = g.nearest_row(Item::Car.index(), Dir::Down);
    assert_eq!(down, vec![Item::Nail.index()], "the nail is the nearest thing a car is made of");
    assert!(g.nearest_row(Item::Sand.index(), Dir::Up).is_empty(), "sand goes into nothing");
    assert!(g.nearest_row(Item::Nail.index(), Dir::Left).is_empty());
}

#[test]
fn a_row_can_be_put_in_screen_order_but_not_changed() {
    let mut g = Graph::of_registry();
    let row: Vec<usize> = g.rows()[1].clone();
    let mut reversed = row.clone();
    reversed.reverse();
    assert!(g.reorder_row(1, reversed.clone()));
    assert_eq!(g.rows()[1], reversed);
    assert!(!g.reorder_row(1, vec![row[0], row[0]]), "a repeat is not a reordering");
    assert!(!g.reorder_row(7, row.clone()), "there is no row seven");
    assert_eq!(g.rows()[1], reversed);
    let start = reversed[0];
    let right = g.sideways(start, true).unwrap();
    assert_eq!(g.sideways(right, false), Some(start));
}

#[test]
fn the_d_pad_reaches_every_item_from_every_item() {
    let g = Graph::of_registry();
    // Whichever candidate the screen picks, first or last, everything is in reach.
    for pick_last in [false, true] {
        for start in 0..g.nodes().len() {
            let mut seen = vec![start];
            let mut stack = vec![start];
            while let Some(at) = stack.pop() {
                let mut next = Vec::new();
                next.extend(g.sideways(at, true));
                next.extend(g.sideways(at, false));
                for dir in [Dir::Up, Dir::Down] {
                    let c = g.nearest_row(at, dir);
                    let pick = if pick_last { c.last() } else { c.first() };
                    next.extend(pick.copied());
                }
                for n in next {
                    if !seen.contains(&n) {
                        seen.push(n);
                        stack.push(n);
                    }
                }
            }
            assert_eq!(seen.len(), g.nodes().len(), "starting on {start} you cannot get everywhere");
        }
    }
}
