use blockgame::forge::{Graph, Node, next_step};
use blockgame::inventory::Inventory;
use blockgame::registry::Item;

#[test]
fn every_string_runs_upward() {
    for focus in Item::all().iter() {
        let g = Graph::around(*focus);
        for wire in &g.wires {
            assert!(
                g.nodes[wire.from].tier > g.nodes[wire.to].tier,
                "{:?} -> {:?} does not go up, with {focus:?} in the middle",
                g.nodes[wire.from].item,
                g.nodes[wire.to].item
            );
        }
    }
}

#[test]
fn a_shared_part_is_one_node_with_two_strings() {
    let g = Graph::around(Item::Car);
    let stones: Vec<&Node> = g.nodes.iter().filter(|n| n.item == Item::Stone).collect();
    assert_eq!(stones.len(), 1, "stone was drawn twice");
    let out = g.wires.iter().filter(|w| g.nodes[w.from].item == Item::Stone).count();
    assert_eq!(out, 2, "stone feeds the car and the nail");
    assert!(
        stones[0].tier > g.nodes.iter().find(|n| n.item == Item::Nail).unwrap().tier,
        "the longer path is what puts stone below the nail"
    );
}

#[test]
fn every_item_appears_at_most_once() {
    for focus in Item::all().iter() {
        let g = Graph::around(*focus);
        let mut seen: Vec<Item> = g.nodes.iter().map(|n| n.item).collect();
        let before = seen.len();
        seen.sort_by_key(|i| i.index());
        seen.dedup();
        assert_eq!(seen.len(), before, "something is drawn twice around {focus:?}");
    }
}

#[test]
fn the_focus_shows_its_whole_ancestry() {
    let g = Graph::around(Item::Car);
    let items: Vec<Item> = g.nodes.iter().map(|n| n.item).collect();
    for wanted in [Item::Car, Item::Wood, Item::Stone, Item::Nail] {
        assert!(items.contains(&wanted), "{wanted:?} is missing");
    }
    assert_eq!(g.nodes[g.rows[g.focus.0][g.focus.1]].item, Item::Car);
}

#[test]
fn a_part_shows_what_it_goes_into() {
    let g = Graph::around(Item::Nail);
    let above: Vec<Item> = g.nodes.iter().filter(|n| n.tier == -1).map(|n| n.item).collect();
    for wanted in [Item::Hammer, Item::Drill, Item::Handgun, Item::Rifle, Item::Car] {
        assert!(above.contains(&wanted), "{wanted:?} is not shown above a nail");
    }
}

#[test]
fn holding_the_button_builds_the_car_from_the_bottom_up() {
    let mut stock = Inventory::default();
    stock.add(Item::Wood, 6);
    stock.add(Item::Stone, 10);

    let mut made = Vec::new();
    while let Some(step) = next_step(&stock, Item::Car) {
        assert!(stock.craft(step));
        made.push(step);
        assert!(made.len() < 40, "the chain did not close");
    }
    assert_eq!(stock.count(Item::Car), 1);
    assert_eq!(made.iter().filter(|i| **i == Item::Nail).count(), 8, "the nails get made first, one press each");
    assert_eq!(made.last(), Some(&Item::Car), "and the car last");
}

#[test]
fn a_chain_that_needs_digging_asks_for_nothing() {
    let stock = Inventory::default();
    assert_eq!(next_step(&stock, Item::Car), None);
    assert_eq!(next_step(&stock, Item::Wood), None, "wood is dug, not made");
}

#[test]
fn the_rig_around_stone_is_laid_out_shelf_by_shelf() {
    let g = Graph::around(Item::Stone);
    let shelf = |item: Item| g.nodes.iter().find(|n| n.item == item).map(|n| n.tier);
    assert_eq!(shelf(Item::Stone), Some(0));
    assert_eq!(shelf(Item::Nail), Some(-1));
    assert_eq!(shelf(Item::Car), Some(-2), "the car is two crafts from stone, through the nail");
    assert_eq!(shelf(Item::Wood), Some(-1), "wood hangs one below the car it goes into");
    assert_eq!(shelf(Item::Sand), None, "sand is nowhere near");
    assert_eq!(g.rows.len(), 3);
    assert_eq!(g.item_at(g.focus), Item::Stone);
    for (k, row) in g.rows.iter().enumerate() {
        for i in row {
            assert_eq!(g.nodes[*i].tier, g.nodes[g.rows[k][0]].tier, "a row is one shelf");
        }
    }
}
