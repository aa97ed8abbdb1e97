use blockgame::inventory::Inventory;
use blockgame::recipes::{Belt, Built, Outcome, Press, Stage, columns, drive, layout};
use blockgame::registry::{Item, Kind};

fn press() -> Press {
    Press { back: false, confirm: false, across: 0, step: 0 }
}

#[test]
fn the_code_fills_up_one_symbol_at_a_time() {
    assert_eq!(Stage::Kind { cursor: 0 }.code(), (None, None));
    assert_eq!(Stage::Pick { kind: Kind::Tool, cursor: 0 }.code(), (Some(Kind::Tool), None));
    assert_eq!(Stage::Graph { item: Item::Car }.code(), (Some(Kind::Vehicle), Some(Item::Car)));
}

#[test]
fn two_symbols_open_a_recipe_and_back_undoes_one_at_a_time() {
    let pile = Inventory::default();
    let (stage, out) = drive(Stage::Kind { cursor: 0 }, Press { across: 2, confirm: true, ..press() }, &pile, false);
    assert_eq!(stage, Stage::Pick { kind: Kind::Tool, cursor: 0 });
    assert_eq!(out, Outcome::Stay);
    let (stage, _) = drive(stage, Press { across: 1, step: 0, confirm: true, ..press() }, &pile, false);
    assert_eq!(stage, Stage::Graph { item: Item::Drill });
    let (stage, _) = drive(stage, Press { back: true, ..press() }, &pile, false);
    assert_eq!(stage, Stage::Pick { kind: Kind::Tool, cursor: 1 });
    let (stage, _) = drive(stage, Press { back: true, ..press() }, &pile, false);
    assert_eq!(stage, Stage::Kind { cursor: 2 });
    let (stage, out) = drive(stage, Press { back: true, ..press() }, &pile, false);
    assert_eq!(out, Outcome::Leave, "backing out of the first symbol is back to the world");
    assert_eq!(stage, Stage::Kind { cursor: 2 });
}

#[test]
fn up_and_down_move_a_whole_row_of_the_grid() {
    let pile = Inventory::default();
    assert_eq!(columns(7), 4);
    assert_eq!(columns(1), 1);
    assert_eq!(columns(0), 1);
    let (stage, _) = drive(Stage::Pick { kind: Kind::Block, cursor: 1 }, Press { step: 1, ..press() }, &pile, false);
    assert_eq!(stage, Stage::Pick { kind: Kind::Block, cursor: 5 });
    let (stage, _) = drive(stage, Press { step: 1, ..press() }, &pile, false);
    assert_eq!(stage, Stage::Pick { kind: Kind::Block, cursor: 2 }, "nine wraps round seven keys to two");
}

#[test]
fn a_press_asks_for_what_the_pile_can_pay_for_and_nags_otherwise() {
    let mut pile = Inventory::default();
    let at_car = Stage::Graph { item: Item::Car };
    let (_, out) = drive(at_car, Press { confirm: true, ..press() }, &pile, false);
    assert_eq!(out, Outcome::Nag);
    pile.add(Item::Wood, 6);
    pile.add(Item::Stone, 10);
    let (stage, out) = drive(at_car, Press { confirm: true, ..press() }, &pile, false);
    assert_eq!(stage, at_car);
    assert_eq!(out, Outcome::Ask([vec![Item::Nail; 8], vec![Item::Car]].concat()));
    let (_, out) = drive(at_car, Press { confirm: true, ..press() }, &pile, true);
    assert_eq!(out, Outcome::Stay, "a press is ignored while the last build is still playing");
}

#[test]
fn a_node_feeding_two_things_is_drawn_once() {
    let web = layout(Item::Car);
    let mut items: Vec<Item> = web.spots.iter().map(|s| s.item).collect();
    let before = items.len();
    items.sort_by_key(|i| i.index());
    items.dedup();
    assert_eq!(items.len(), before, "an item was drawn twice");

    let stone = web.spots.iter().position(|s| s.item == Item::Stone).unwrap();
    let out: Vec<&Belt> = web.belts.iter().filter(|b| b.from == stone).collect();
    assert_eq!(out.len(), 2, "stone feeds the nails and the car itself");
    assert_eq!(out.iter().map(|b| b.count).collect::<Vec<_>>(), vec![2, 1], "two stone into the car, one into a nail");
}

#[test]
fn nothing_is_made_out_of_something_beside_it() {
    for item in Item::all() {
        let web = layout(item);
        for belt in &web.belts {
            assert!(
                web.spots[belt.from].row < web.spots[belt.to].row,
                "{item:?}: {:?} feeds {:?} from the same row or above",
                web.spots[belt.from].item,
                web.spots[belt.to].item
            );
        }
    }
}

#[test]
fn the_ground_is_at_the_bottom_and_your_thing_is_on_top() {
    let web = layout(Item::Car);
    assert_eq!(web.rows, 3, "stone and wood, nails, car");
    for spot in &web.spots {
        assert_eq!(spot.row == 0, spot.item.recipe().is_empty(), "{:?} is on the wrong row", spot.item);
    }
    let top: Vec<Item> = web.spots.iter().filter(|s| s.row == web.rows - 1).map(|s| s.item).collect();
    assert_eq!(top, vec![Item::Car], "only the thing you asked for is up top");
}

#[test]
fn a_gathered_thing_is_one_lonely_node() {
    let web = layout(Item::Grass);
    assert_eq!(web.rows, 1);
    assert_eq!(web.spots.len(), 1);
    assert!(web.belts.is_empty());
}

#[test]
fn every_count_fits_in_dots() {
    for item in Item::all() {
        for (ingredient, n) in item.recipe() {
            assert!(n <= 12, "{item:?} asks for {n} {ingredient:?}");
        }
    }
}

#[test]
fn the_car_is_laid_out_ground_first() {
    let web = layout(Item::Car);
    let spots: Vec<(Item, usize, usize)> = web.spots.iter().map(|s| (s.item, s.row, s.col)).collect();
    assert_eq!(spots, vec![(Item::Car, 2, 0), (Item::Wood, 0, 0), (Item::Stone, 0, 1), (Item::Nail, 1, 0)]);
    assert_eq!(web.widest, 2);
    let belts: Vec<(usize, usize, u32)> = web.belts.iter().map(|b| (b.from, b.to, b.count)).collect();
    assert_eq!(belts, vec![(1, 0, 6), (2, 0, 2), (3, 0, 8), (2, 3, 1)]);
}

#[test]
fn a_build_is_drawn_one_step_at_a_time() {
    let mut shelf = Inventory::default();
    shelf.add(Item::Wood, 6);
    shelf.add(Item::Stone, 10);
    let built = Built { steps: shelf.build(Item::Car) };
    assert_eq!(built.made(0, Item::Nail), 0);
    assert_eq!(built.made(3, Item::Nail), 3);
    assert_eq!(built.made(8, Item::Car), 0, "nails first");
    assert_eq!(built.doing(8), Some(Item::Car));
    assert_eq!(built.doing(20), None, "it finishes");
    assert_eq!((built.made(20, Item::Nail), built.made(20, Item::Car)), (8, 1));
}
