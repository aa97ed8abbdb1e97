use blockgame::chart::{At, Chart, Dir, layout};
use blockgame::registry::Item;

fn dirs() -> [Dir; 4] {
    Dir::all()
}

/// Every item is somewhere, exactly once, with a code of its own.
#[test]
fn every_item_has_one_code_and_no_two_share_one() {
    let chart = Chart::new();
    let mut codes: Vec<&[Dir]> = Item::all().iter().map(|i| chart.code(*i)).collect();
    assert_eq!(codes.len(), Item::COUNT);
    assert!(codes.iter().all(|c| !c.is_empty()));
    codes.sort_by_key(|c| c.iter().map(|d| format!("{d:?}")).collect::<String>());
    codes.dedup();
    assert_eq!(codes.len(), Item::COUNT, "two items answer to one code");
}

/// Today's whole table is one press away or two.
#[test]
fn nothing_is_more_than_two_presses_away() {
    let chart = Chart::new();
    for item in Item::all().iter() {
        assert!(chart.code(*item).len() <= 2, "{item:?} is {} presses in", chart.code(*item).len());
    }
}

/// Walking the code from an empty hand arrives at the thing it names.
#[test]
fn a_code_walks_to_the_thing_it_names() {
    let chart = Chart::new();
    for item in Item::all().iter() {
        let mut at = At::Hand;
        for dir in chart.code(*item) {
            at = chart.step(at, *dir).expect("a code with no star at the end");
        }
        assert_eq!(at, At::On(*item));
    }
}

/// Pressing back the way you came puts you back.
#[test]
fn every_press_can_be_taken_back() {
    let chart = Chart::new();
    let places = std::iter::once(At::Hand).chain(Item::all().into_iter().map(At::On));
    for from in places {
        for dir in dirs() {
            let Some(to) = chart.step(from, dir) else {
                continue;
            };
            assert_eq!(chart.step(to, dir.opposite()), Some(from), "{from:?} pressed {dir:?} does not come back");
        }
    }
}

/// Laying out a shorter table gives every item in it the same code it has in the full one.
#[test]
fn adding_an_item_moves_nobody() {
    let whole = Chart::new();
    let all = Item::all();
    for n in 1..Item::COUNT {
        for star in layout(&all[..n]) {
            assert_eq!(star.code.as_slice(), whole.code(star.item), "{:?} moved when the table was {n} long", star.item);
        }
    }
}

/// The four things one press from the hand, and two codes spelled out.
#[test]
fn the_codes_are_the_ones_that_have_been_learned() {
    let chart = Chart::new();
    assert_eq!(chart.code(Item::Grass), [Dir::Up]);
    assert_eq!(chart.code(Item::Dirt), [Dir::Right]);
    assert_eq!(chart.code(Item::Stone), [Dir::Down]);
    assert_eq!(chart.code(Item::Sand), [Dir::Left]);
    assert_eq!(chart.code(Item::Nail), [Dir::Right, Dir::Up]);
    assert_eq!(chart.code(Item::Car), [Dir::Left, Dir::Up]);
}

/// The lit path is the code.
#[test]
fn the_trail_is_the_presses_that_got_you_there() {
    let chart = Chart::new();
    assert!(chart.on_the_way(Item::Sand, At::On(Item::Car)), "left, then");
    assert!(chart.on_the_way(Item::Car, At::On(Item::Car)));
    assert!(!chart.on_the_way(Item::Grass, At::On(Item::Car)));
    for item in Item::all().iter() {
        assert!(!chart.on_the_way(*item, At::Hand));
    }
}

#[test]
fn a_dead_end_is_none_and_the_hand_is_home() {
    let chart = Chart::new();
    assert_eq!(chart.step(At::On(Item::Car), Dir::Up), None, "nothing hangs past the car");
    assert_eq!(chart.step(At::On(Item::Nail), Dir::Down), Some(At::On(Item::Dirt)));
    assert_eq!(chart.step(At::On(Item::Grass), Dir::Down), Some(At::Hand));
    assert_eq!(chart.with_code(&[Dir::Down, Dir::Left]), Some(Item::Parachute));
    assert_eq!(chart.with_code(&[Dir::Down, Dir::Up]), None);
    assert_eq!(At::default(), At::Hand);
    assert_eq!(At::On(Item::Car).item(), Some(Item::Car));
}

#[test]
fn stars_hang_off_the_star_before_them() {
    let chart = Chart::new();
    assert_eq!(chart.star(Item::Wood).back, At::On(Item::Grass));
    assert_eq!(chart.star(Item::Handgun).back, At::On(Item::Stone));
    assert_eq!(chart.star(Item::Stone).back, At::Hand);
    assert_eq!(chart.code(Item::Parachute), [Dir::Down, Dir::Left]);
}
