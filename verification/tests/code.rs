use blockgame::code::{Code, Dir, KEYS, Note, Pad, arm, at, of};
use blockgame::registry::Item;

/// What a code is drawn as is what pressing it gets you.
#[test]
fn a_code_gets_the_item_it_is_drawn_under() {
    for item in Item::all().iter() {
        assert_eq!(at(of(*item)), Some(*item), "{item:?}");
    }
}

/// Two presses, every time, for everything.
#[test]
fn everything_is_two_presses_away() {
    for item in Item::all().iter() {
        let code = of(*item);
        let mut pad = Pad::default();
        assert_eq!(pad.press(code.arm), None, "the first press picks nothing");
        assert_eq!(pad.press(code.key), Some(*item));
        assert!(pad.arm().is_none(), "the pad shuts on the second press");
    }
}

/// Pitch goes up as the thumb goes up, and left is under right.
#[test]
fn pitch_follows_the_thumb() {
    assert!(Dir::Down.semitone() < Dir::Left.semitone());
    assert!(Dir::Left.semitone() < Dir::Right.semitone());
    assert!(Dir::Right.semitone() < Dir::Up.semitone());
}

/// A press onto one of the pad's spare keys picks nothing and still shuts the pad.
#[test]
fn a_spare_key_picks_nothing_and_still_closes() {
    let mut pad = Pad::default();
    pad.press(Dir::Down);
    assert_eq!(pad.press(Dir::Right), None, "nothing is down-right yet");
    assert!(pad.arm().is_none());
}

/// The completing press marks the key it landed on; an opening press marks none.
#[test]
fn the_completing_press_flashes_its_landing_key() {
    let mut pad = Pad::default();
    pad.press(Dir::Left);
    assert_eq!(pad.struck(), None, "an opening press does not flash a key");
    pad.press(Dir::Up);
    assert_eq!(pad.struck(), Some(Code { arm: Dir::Left, key: Dir::Up }));
}

/// A pause mid-code must not land the stale arm on the first press after resume.
#[test]
fn shut_forgets_a_half_typed_code() {
    let mut pad = Pad::default();
    pad.press(Dir::Left);
    pad.shut();
    assert_eq!(pad.arm(), None);
    assert_eq!(pad.struck(), None);
    assert_eq!(pad.press(Dir::Up), None, "the press after a pause opens an arm");
}

/// Both presses sound, low then high.
#[test]
fn both_presses_strike_a_note() {
    let mut pad = Pad::default();
    pad.press(Dir::Right);
    pad.press(Dir::Up);
    assert_eq!(
        pad.sounded,
        vec![Note { dir: Dir::Right, high: false }, Note { dir: Dir::Up, high: true }]
    );
}

/// Four keys of four arms is sixteen, and the game holds fourteen things.
#[test]
fn the_pad_has_room_and_says_how_much() {
    let spare = Dir::all().iter().flat_map(|a| arm(*a)).filter(Option::is_none).count();
    assert_eq!(spare + Item::COUNT, KEYS * KEYS);
    assert_eq!(spare, 2, "two keys left before the pad needs a third press");
}

#[test]
fn the_ground_is_the_left_arm_in_digging_order() {
    assert_eq!(arm(Dir::Left), [Some(Item::Grass), Some(Item::Dirt), Some(Item::Stone), Some(Item::Sand)]);
    assert_eq!(of(Item::Car), Code { arm: Dir::Down, key: Dir::Up });
    assert_eq!(Dir::Right.index(), 2);
}
