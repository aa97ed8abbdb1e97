use blockgame::inventory::{Craft, Held, Inventory};
use blockgame::registry::{Block, Fall, Item, Use};

#[test]
fn taking_more_than_you_have_takes_nothing() {
    let mut inv = Inventory::default();
    inv.add(Item::Wood, 2);
    assert!(!inv.take(Item::Wood, 3));
    assert_eq!(inv.count(Item::Wood), 2, "a refused take spends nothing");
    assert!(inv.take(Item::Wood, 2));
    assert_eq!(inv.count(Item::Wood), 0);
}

#[test]
fn a_pile_does_not_wrap_round_to_nothing() {
    let mut inv = Inventory::default();
    inv.add(Item::Dirt, u32::MAX);
    inv.add(Item::Dirt, 10);
    assert_eq!(inv.count(Item::Dirt), u32::MAX);
}

/// The whole crafting mechanism: point at a thing, pay for it, have it.
#[test]
fn crafting_spends_the_recipe_and_makes_one() {
    let mut inv = Inventory::default();
    assert!(!inv.craft(Item::Hammer));

    for (ingredient, n) in Item::Hammer.recipe().iter() {
        inv.add(*ingredient, *n);
    }

    assert!(inv.craft(Item::Hammer));
    assert_eq!(inv.count(Item::Hammer), 1);
    for (ingredient, _) in Item::Hammer.recipe().iter() {
        assert_eq!(inv.count(*ingredient), 0, "{ingredient:?} was not paid for");
    }
    assert!(!inv.craft(Item::Hammer), "and you cannot make a second free");
}

/// Missing one ingredient must cost nothing at all.
#[test]
fn a_recipe_you_cannot_afford_costs_nothing() {
    let mut inv = Inventory::default();
    inv.add(Item::Wood, 9);
    assert!(!inv.craft(Item::Hammer), "no nails");
    assert_eq!(inv.count(Item::Wood), 9);
}

/// Gathered things are found, not made.
#[test]
fn what_you_gather_cannot_be_crafted() {
    let mut inv = Inventory::default();
    for item in Item::all().iter() {
        if item.recipe().is_empty() {
            assert!(!inv.craft(*item), "{item:?} is made from nothing");
            assert!(inv.build(*item).is_empty(), "{item:?} was built out of nothing");
        }
    }
    assert_eq!(inv, Inventory::default());
}

/// A pocket full of rock and timber is a car, and nobody has to be told that eight nails
/// come first.
#[test]
fn a_plan_makes_what_the_recipe_needs_before_it_needs_it() {
    let mut inv = Inventory::default();
    inv.add(Item::Wood, 6);
    inv.add(Item::Stone, 10);

    let plan = inv.plan(Item::Car);
    assert!(plan.short.is_empty(), "ten stone and six wood is a car");
    assert_eq!(plan.steps, [vec![Item::Nail; 8], vec![Item::Car]].concat());
    for (i, step) in plan.steps.iter().enumerate() {
        assert!(inv.craft(*step), "step {i} ({step:?}) could not be paid for");
    }
    assert_eq!(inv.count(Item::Car), 1);
    assert_eq!(inv.count(Item::Stone), 0, "every stone went into a nail");
}

/// What is already on the shelf is spent before anything is made.
#[test]
fn a_plan_spends_what_you_already_have() {
    let mut inv = Inventory::default();
    inv.add(Item::Wood, 6);
    inv.add(Item::Stone, 2);
    inv.add(Item::Nail, 8);
    assert_eq!(inv.plan(Item::Car).steps, vec![Item::Car], "nothing to make");
}

/// Short of the raw stuff, the plan says what to go and dig up and how much more of it.
#[test]
fn a_plan_counts_what_is_missing_right_down_to_the_ground() {
    let inv = Inventory::default();
    let plan = inv.plan(Item::Car);
    assert_eq!(
        plan.short,
        vec![(Item::Wood, 6), (Item::Stone, 10)],
        "six wood, and ten stone: two for the frame and one for each nail"
    );
    assert_eq!(
        Inventory::default().plan(Item::Grass).short,
        vec![(Item::Grass, 1)],
        "nothing makes grass: you go and find it"
    );
}

/// A refused build must leave the pile exactly as it was, half-made nails included.
#[test]
fn a_build_you_cannot_afford_spends_nothing() {
    let mut inv = Inventory::default();
    inv.add(Item::Stone, 40);
    let before = inv.clone();
    assert!(inv.build(Item::Car).is_empty(), "no wood");
    assert_eq!(inv, before);
}

/// One press, and the thing is in your hand.
#[test]
fn one_build_walks_the_whole_graph() {
    let mut inv = Inventory::default();
    inv.add(Item::Wood, 6);
    inv.add(Item::Stone, 10);
    let made = inv.build(Item::Car);
    assert_eq!(made.last(), Some(&Item::Car));
    assert_eq!(made.len(), 9, "eight nails and the car");
    assert_eq!(inv.count(Item::Car), 1);
    assert_eq!(inv.count(Item::Nail), 0, "every nail went into the car");
}

/// Dig, make nails, make a car.
#[test]
fn a_car_can_be_built_from_blocks_out_of_the_ground() {
    let mut inv = Inventory::default();
    for (block, n) in [(Block::Wood, 6), (Block::Stone, 10)] {
        let item = Item::placing(block).expect("a gathered block is an item");
        inv.add(item, n);
    }
    for _ in 0..8 {
        assert!(inv.craft(Item::Nail), "a nail is one stone");
    }
    assert!(inv.craft(Item::Car));
    assert_eq!(inv.count(Item::Car), 1);
}

/// Selecting a thing you have none of is how you read its recipe, so it must not also hand
/// you the thing.
#[test]
fn pointing_at_a_rifle_is_not_holding_one() {
    let mut inv = Inventory::default();
    assert_eq!(inv.in_hand(Item::Rifle), None);
    assert_eq!(inv.using(Item::Rifle), Use::BARE_HAND);

    inv.add(Item::Rifle, 1);
    assert_eq!(inv.in_hand(Item::Rifle), Some(Item::Rifle));
    assert_eq!(inv.using(Item::Rifle), Item::Rifle.using());
}

/// The same rule on the way down: a parachute you have not built does not break a fall.
#[test]
fn pointing_at_a_parachute_is_not_holding_one() {
    let mut inv = Inventory::default();
    assert_eq!(inv.falling(Item::Parachute), Fall::UNAIDED);

    inv.add(Item::Parachute, 1);
    assert_eq!(inv.falling(Item::Parachute), Item::Parachute.falling());
    assert_eq!(inv.falling(Item::Rifle), Fall::UNAIDED, "owning one is not holding it either");
}

/// The wire round trip.
#[test]
fn an_inventory_survives_the_wire() {
    let mut inv = Inventory::default();
    inv.add(Item::Nail, 3);
    inv.add(Item::Car, 1);
    assert_eq!(Inventory::from_contents(inv.contents()), inv);
    assert_eq!(
        inv.contents(),
        vec![(Item::Nail, 3), (Item::Car, 1)],
        "empty piles do not ride the wire"
    );
}

/// An update replaces the pile rather than adding to it.
#[test]
fn an_update_replaces_rather_than_accumulates() {
    let mut inv = Inventory::default();
    inv.add(Item::Stone, 40);
    let smaller = Inventory::from_contents(vec![(Item::Stone, 1)]);
    assert_eq!(smaller.count(Item::Stone), 1);
    assert_eq!(Inventory::from_contents(smaller.contents()), smaller, "twice is the same as once");
}

#[test]
fn a_later_entry_for_an_item_wins() {
    let inv = Inventory::from_contents(vec![(Item::Wood, 5), (Item::Sand, 2), (Item::Wood, 1)]);
    assert_eq!(inv.count(Item::Wood), 1);
    assert_eq!(inv.count(Item::Sand), 2);
    assert_eq!(inv.contents(), vec![(Item::Sand, 2), (Item::Wood, 1)]);
}

#[test]
fn a_build_that_goes_ahead_adds_exactly_one_of_the_thing() {
    let mut inv = Inventory::default();
    inv.add(Item::Wood, 2);
    inv.add(Item::Stone, 2);
    inv.add(Item::Hammer, 3);
    let made = inv.build(Item::Hammer);
    assert_eq!(made, vec![Item::Nail, Item::Nail, Item::Hammer]);
    assert_eq!(inv.count(Item::Hammer), 4);
    assert_eq!(inv.count(Item::Wood), 0);
    assert_eq!(inv.count(Item::Stone), 0);
}

#[test]
fn a_plan_with_nothing_short_runs_step_by_step() {
    let mut inv = Inventory::default();
    inv.add(Item::Wood, 10);
    inv.add(Item::Stone, 10);
    inv.add(Item::Leaves, 8);
    for want in [Item::Drill, Item::Handgun, Item::Rifle, Item::Parachute, Item::Cushion] {
        let mut pile = inv.clone();
        let plan = pile.plan(want);
        assert!(plan.short.is_empty(), "{want:?} is affordable");
        for step in &plan.steps {
            assert!(pile.craft(*step), "{step:?} for {want:?}");
        }
        assert_eq!(pile.count(want), inv.count(want) + 1);
    }
}

#[test]
fn a_shortfall_is_counted_once_per_missing_thing() {
    let mut inv = Inventory::default();
    inv.add(Item::Wood, 1);
    let plan = inv.plan(Item::Drill);
    assert_eq!(plan.short, vec![(Item::Wood, 1), (Item::Stone, 7)]);
    assert_eq!(plan.steps.last(), Some(&Item::Drill));
}

#[test]
fn can_craft_is_what_craft_would_do() {
    let mut inv = Inventory::default();
    assert!(!inv.can_craft(Item::Nail));
    inv.add(Item::Stone, 1);
    assert!(inv.can_craft(Item::Nail));
    assert!(!inv.can_craft(Item::Stone), "nothing makes stone");
}

#[test]
fn the_first_thing_selected_is_the_first_item() {
    assert_eq!(Held::default(), Held(Item::Grass));
    assert_eq!(Craft(Item::Car).0, Item::Car);
}

#[test]
fn the_shortfall_is_exactly_what_is_missing() {
    let pile = Inventory::default();
    let plan = pile.plan(Item::Car);
    assert_eq!(plan.short, vec![(Item::Wood, 6), (Item::Stone, 10)]);
    for (item, _) in &plan.short {
        assert!(item.recipe().is_empty(), "{item:?} is made, not dug up");
    }
    let mut dug = pile.copy();
    for (item, n) in &plan.short {
        dug.add(*item, *n);
    }
    let again = dug.plan(Item::Car);
    assert!(again.short.is_empty());
    assert_eq!(again.steps, plan.steps);
    for k in 0..plan.short.len() {
        let mut almost = pile.copy();
        for (j, (item, n)) in plan.short.iter().enumerate() {
            almost.add(*item, if j == k { *n - 1 } else { *n });
        }
        assert!(!almost.plan(Item::Car).short.is_empty(), "one fewer still falls short");
    }
}
