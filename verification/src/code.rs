//! The code: every thing you can hold is two presses of the d-pad, and every code is a
//! tune.
//!
//! Four keys pick one of four arms, four keys pick one of four things on that arm, and
//! sixteen keys is more than the game has to hold. Two presses reach anything, from
//! anything, with no travel in between. The rosette is the single source: the screen is
//! drawn from it, the presses are read against it, and the tune comes out of the same two
//! directions.
use vstd::prelude::*;
use crate::registry::Item;

verus! {

/// Keys on a d-pad, and so the width of every level of a code.
pub const KEYS: usize = 4;

/// One press of the pad, in the order the rosette's rows and columns are drawn.
#[derive(Clone, Copy, PartialEq, Eq, Hash, Debug, Structural)]
pub enum Dir {
    Left,
    Up,
    Right,
    Down,
}

/// Two presses: which arm, then which key on it.
#[derive(Clone, Copy, PartialEq, Eq, Hash, Debug, Structural)]
pub struct Code {
    pub arm: Dir,
    pub key: Dir,
}

/// A note the pad has struck and nobody has played yet. The arm press is the low one; the
/// key press sounds an octave up.
#[derive(Clone, Copy, PartialEq, Eq, Debug, Structural)]
pub struct Note {
    pub dir: Dir,
    pub high: bool,
}

/// Where every item lives on the pad. The arms are families a child already has: the
/// ground you dig, the forest and the soft things it becomes, the four things you swing or
/// fire, and the nail with what eight of them turn into. Two keys are spare.
pub open spec fn rosette(arm: Dir, key: Dir) -> Option<Item> {
    match (arm, key) {
        (Dir::Left, Dir::Left) => Some(Item::Grass),
        (Dir::Left, Dir::Up) => Some(Item::Dirt),
        (Dir::Left, Dir::Right) => Some(Item::Stone),
        (Dir::Left, Dir::Down) => Some(Item::Sand),
        (Dir::Up, Dir::Left) => Some(Item::Wood),
        (Dir::Up, Dir::Up) => Some(Item::Leaves),
        (Dir::Up, Dir::Right) => Some(Item::Cushion),
        (Dir::Up, Dir::Down) => Some(Item::Parachute),
        (Dir::Right, Dir::Left) => Some(Item::Hammer),
        (Dir::Right, Dir::Up) => Some(Item::Drill),
        (Dir::Right, Dir::Right) => Some(Item::Handgun),
        (Dir::Right, Dir::Down) => Some(Item::Rifle),
        (Dir::Down, Dir::Left) => Some(Item::Nail),
        (Dir::Down, Dir::Up) => Some(Item::Car),
        _ => None,
    }
}

/// Every direction, in rosette order.
pub open spec fn dirs() -> Seq<Dir> {
    seq![Dir::Left, Dir::Up, Dir::Right, Dir::Down]
}

/// A direction's place in rosette order.
pub open spec fn dir_index(d: Dir) -> int {
    match d {
        Dir::Left => 0,
        Dir::Up => 1,
        Dir::Right => 2,
        Dir::Down => 3,
    }
}

/// Semitones above the root of the octave: a major pentatonic, so no two keys pressed in
/// any order can sound wrong together. Down lowest, up highest, left below right.
pub open spec fn semitone_spec(d: Dir) -> int {
    match d {
        Dir::Down => 0,
        Dir::Left => 2,
        Dir::Right => 4,
        Dir::Up => 7,
    }
}

impl Dir {
    /// Every direction, in rosette order.
    pub fn all() -> (r: [Dir; KEYS])
        ensures
            r@ == dirs(),
    {
        let r = [Dir::Left, Dir::Up, Dir::Right, Dir::Down];
        assert(r@ =~= dirs());
        r
    }

    /// This direction's place in rosette order.
    pub fn index(self) -> (r: usize)
        ensures
            r == dir_index(self),
    {
        match self {
            Dir::Left => 0,
            Dir::Up => 1,
            Dir::Right => 2,
            Dir::Down => 3,
        }
    }

    /// Semitones above the root of this key's octave.
    pub fn semitone(self) -> (r: i32)
        ensures
            r == semitone_spec(self),
    {
        match self {
            Dir::Down => 0,
            Dir::Left => 2,
            Dir::Right => 4,
            Dir::Up => 7,
        }
    }
}

/// What is behind a code, or nothing for one of the pad's spare keys.
pub fn at(code: Code) -> (r: Option<Item>)
    ensures
        r == rosette(code.arm, code.key),
{
    match (code.arm, code.key) {
        (Dir::Left, Dir::Left) => Some(Item::Grass),
        (Dir::Left, Dir::Up) => Some(Item::Dirt),
        (Dir::Left, Dir::Right) => Some(Item::Stone),
        (Dir::Left, Dir::Down) => Some(Item::Sand),
        (Dir::Up, Dir::Left) => Some(Item::Wood),
        (Dir::Up, Dir::Up) => Some(Item::Leaves),
        (Dir::Up, Dir::Right) => Some(Item::Cushion),
        (Dir::Up, Dir::Down) => Some(Item::Parachute),
        (Dir::Right, Dir::Left) => Some(Item::Hammer),
        (Dir::Right, Dir::Up) => Some(Item::Drill),
        (Dir::Right, Dir::Right) => Some(Item::Handgun),
        (Dir::Right, Dir::Down) => Some(Item::Rifle),
        (Dir::Down, Dir::Left) => Some(Item::Nail),
        (Dir::Down, Dir::Up) => Some(Item::Car),
        _ => None,
    }
}

/// The four things on one arm, in key order: what a player sees the moment they press
/// one direction.
pub fn arm(which: Dir) -> (r: [Option<Item>; KEYS])
    ensures
        forall|k: int| 0 <= k < KEYS ==> #[trigger] r@[k] == rosette(which, dirs()[k]),
{
    let all = Dir::all();
    let r = [
        at(Code { arm: which, key: all[0] }),
        at(Code { arm: which, key: all[1] }),
        at(Code { arm: which, key: all[2] }),
        at(Code { arm: which, key: all[3] }),
    ];
    r
}

/// An item's code, found by reading the rosette in order for the key that holds it.
pub fn of(item: Item) -> (r: Code)
    ensures
        rosette(r.arm, r.key) == Some(item),
{
    let all = Dir::all();
    let mut a: usize = 0;
    while a < KEYS
        invariant
            a <= KEYS,
            all@ == dirs(),
            forall|p: int, q: int| 0 <= p < a && 0 <= q < KEYS ==> rosette(dirs()[p], dirs()[q]) != Some(item),
        decreases KEYS - a,
    {
        let mut k: usize = 0;
        while k < KEYS
            invariant
                a < KEYS,
                k <= KEYS,
                all@ == dirs(),
                forall|q: int| 0 <= q < k ==> rosette(dirs()[a as int], dirs()[q]) != Some(item),
            decreases KEYS - k,
        {
            let code = Code { arm: all[a], key: all[k] };
            if at(code) == Some(item) {
                return code;
            }
            k = k + 1;
        }
        a = a + 1;
    }
    proof {
        // Every item has a key: the rosette holds all fourteen.
        let (p, q): (int, int) = match item {
            Item::Grass => (0, 0),
            Item::Dirt => (0, 1),
            Item::Stone => (0, 2),
            Item::Sand => (0, 3),
            Item::Wood => (1, 0),
            Item::Leaves => (1, 1),
            Item::Cushion => (1, 2),
            Item::Parachute => (1, 3),
            Item::Hammer => (2, 0),
            Item::Drill => (2, 1),
            Item::Handgun => (2, 2),
            Item::Rifle => (2, 3),
            Item::Nail => (3, 0),
            Item::Car => (3, 1),
        };
        assert(rosette(dirs()[p], dirs()[q]) == Some(item));
    }
    Code { arm: Dir::Left, key: Dir::Left }
}

/// No key answers to two items: a code names at most one thing, so the code an item is
/// found under is the only one that gets it.
pub proof fn lemma_one_key_each(a: Code, b: Code)
    requires
        rosette(a.arm, a.key) is Some,
        rosette(a.arm, a.key) == rosette(b.arm, b.key),
    ensures
        a == b,
{
}

/// Two keys of the sixteen are spare: the next two items are free, and the one after that
/// needs a decision.
pub proof fn lemma_two_spare_keys()
    ensures
        forall|a: Dir, k: Dir| rosette(a, k) is None <==> (a == Dir::Down && (k == Dir::Right || k
            == Dir::Down)),
{
}

/// Pitch goes up as the thumb goes up, and left is under right.
pub proof fn lemma_pitch_follows_the_thumb()
    ensures
        semitone_spec(Dir::Down) < semitone_spec(Dir::Left) < semitone_spec(Dir::Right)
            < semitone_spec(Dir::Up),
        forall|a: Dir, b: Dir| a != b ==> #[trigger] semitone_spec(a) != #[trigger] semitone_spec(b),
        forall|d: Dir| 0 <= #[trigger] semitone_spec(d) < 12,
{
}

/// What one press does to a pad open on `open`: the arm it is open on afterwards, and the
/// item a completed code gets.
pub open spec fn press_spec(open: Option<Dir>, dir: Dir) -> (Option<Dir>, Option<Item>) {
    match open {
        None => (Some(dir), None),
        Some(a) => (None, rosette(a, dir)),
    }
}

/// The pad, mid-code.
///
/// **Exactly two presses, always.** The first opens the pad on an arm; the second closes
/// it, whatever it lands on. A press onto one of the spare keys picks nothing and the pad
/// shuts anyway: no cancel button to teach, and no way to be left half-way through a code.
#[derive(Debug)]
pub struct Pad {
    arm: Option<Dir>,
    struck: Option<Code>,
    /// Notes struck and not yet sounded, drained by whoever owns the speaker.
    pub sounded: Vec<Note>,
}

impl Pad {
    /// The arm the pad is open on.
    pub closed spec fn open_on(&self) -> Option<Dir> {
        self.arm
    }

    /// The code the last completing press landed on.
    pub closed spec fn landed(&self) -> Option<Code> {
        self.struck
    }

    /// The notes struck and not yet sounded.
    pub closed spec fn notes(&self) -> Seq<Note> {
        self.sounded@
    }

    /// Feeds one press in. Returns the item once a code completes, and nothing at all on
    /// the first press of the two, or on a code that lands on a spare key.
    pub fn press(&mut self, dir: Dir) -> (r: Option<Item>)
        ensures
            (final(self).open_on(), r) == press_spec(old(self).open_on(), dir),
            match old(self).open_on() {
                None => {
                    &&& final(self).landed() is None
                    &&& final(self).notes() == old(self).notes().push(Note { dir, high: false })
                },
                Some(a) => {
                    &&& final(self).landed() == Some(Code { arm: a, key: dir })
                    &&& final(self).notes() == old(self).notes().push(Note { dir, high: true })
                },
            },
    {
        match self.arm {
            None => {
                self.struck = None;
                self.arm = Some(dir);
                self.sounded.push(Note { dir, high: false });
                None
            },
            Some(arm) => {
                self.arm = None;
                let code = Code { arm, key: dir };
                self.struck = Some(code);
                self.sounded.push(Note { dir, high: true });
                at(code)
            },
        }
    }

    /// The arm the pad is open on, if a code is half typed.
    pub fn arm(&self) -> (r: Option<Dir>)
        ensures
            r == self.open_on(),
    {
        self.arm
    }

    /// The key the last code landed on, while it is still the last thing pressed.
    pub fn struck(&self) -> (r: Option<Code>)
        ensures
            r == self.landed(),
    {
        self.struck
    }

    /// Shuts the pad and forgets a half-typed code: a pause mid-code must not land the
    /// stale arm on the first press after resume.
    pub fn shut(&mut self)
        ensures
            final(self).open_on() is None,
            final(self).landed() is None,
            final(self).notes() == old(self).notes(),
    {
        self.arm = None;
        self.struck = None;
    }
}

impl Default for Pad {
    /// A shut pad that has struck nothing.
    fn default() -> (r: Pad)
        ensures
            r.open_on() is None,
            r.landed() is None,
            r.notes() == Seq::<Note>::empty(),
    {
        Pad { arm: None, struck: None, sounded: Vec::new() }
    }
}

/// Everything is two presses away: from a shut pad, an item's code opens the pad on its
/// arm with the first press, and the second press gets the item and shuts it again.
pub proof fn lemma_two_presses(item: Item, code: Code)
    requires
        rosette(code.arm, code.key) == Some(item),
    ensures
        press_spec(None, code.arm) == (Some(code.arm), None::<Item>),
        press_spec(Some(code.arm), code.key) == (None::<Dir>, Some(item)),
{
}

} // verus!
