//! The constellation: a d-pad code for every item.
//!
//! Your empty hand is the middle of it. Every item in the game hangs off it as a star, one
//! press away or two, and the presses that reach a star **are** its address: stone is down,
//! a nail is right-up, the car is left-up. The keys never move, so a child learns
//! "right, up" the way they learn a jump, and punches it in without looking.
//!
//! The layout is read off the item table and nothing else: the table filled onto a four-way
//! tree, breadth first. A new item takes the next free exit, so it arrives with a code of
//! its own and no existing code moves. Where a star is drawn is the game's business; which
//! presses reach it is decided here.
use vstd::prelude::*;
use crate::registry::{ITEM_COUNT, Item, all_items, item_at, item_index, lemma_at_inverse,
    lemma_index_inverse};

verus! {

/// One press of the d-pad.
#[derive(Clone, Copy, PartialEq, Eq, Debug, Hash, Structural)]
pub enum Dir {
    Up,
    Right,
    Down,
    Left,
}

/// The order the exits off a star are handed out in, and so the order the item table is
/// laid onto the chart.
pub open spec fn dirs() -> Seq<Dir> {
    seq![Dir::Up, Dir::Right, Dir::Down, Dir::Left]
}

/// The press that undoes this one.
pub open spec fn opposite_spec(d: Dir) -> Dir {
    match d {
        Dir::Up => Dir::Down,
        Dir::Right => Dir::Left,
        Dir::Down => Dir::Up,
        Dir::Left => Dir::Right,
    }
}

/// The exits off a star reached by pressing `arrived`: every direction but the way back,
/// in the order [`dirs`] hands them out.
pub open spec fn exits(arrived: Dir) -> Seq<Dir> {
    match arrived {
        Dir::Up => seq![Dir::Up, Dir::Right, Dir::Left],
        Dir::Right => seq![Dir::Up, Dir::Right, Dir::Down],
        Dir::Down => seq![Dir::Right, Dir::Down, Dir::Left],
        Dir::Left => seq![Dir::Up, Dir::Down, Dir::Left],
    }
}

/// Which star the `k`-th star hangs off, for a star that is not one press from the hand.
pub open spec fn parent(k: nat) -> nat {
    ((k - 4) / 3) as nat
}

/// The code of the `k`-th star laid out, breadth first: four off the hand, then three off
/// each star, every one of them through an exit of the star it hangs off.
pub open spec fn code_of(k: nat) -> Seq<Dir>
    decreases k,
{
    if k < 4 {
        seq![dirs()[k as int]]
    } else {
        let p = parent(k);
        code_of(p).push(exits(code_of(p).last())[(k - 4) % 3])
    }
}

/// Where the cursor is: on a star, or back in your own empty hand.
///
/// The hand is a place on the chart and not a fourteenth item, which is what makes "let go
/// of this" a direction rather than a button: you walk back the way you came.
#[derive(Clone, Copy, PartialEq, Eq, Debug, Hash, Structural)]
pub enum At {
    Hand,
    On(Item),
}

/// One press back from the `k`-th star of a table: the hand, or the star it hangs off.
pub open spec fn back_spec(items: Seq<Item>, k: nat) -> At {
    if k < 4 {
        At::Hand
    } else {
        At::On(items[parent(k) as int])
    }
}

/// The item whose code this is, if any item has it.
pub open spec fn named(code: Seq<Dir>) -> Option<Item> {
    if exists|k: nat| k < ITEM_COUNT && #[trigger] code_of(k) == code {
        Some(item_at((choose|k: nat| k < ITEM_COUNT && #[trigger] code_of(k) == code) as int))
    } else {
        None
    }
}

/// Where one press from `at` lands: back the way you came if that is the way you pressed,
/// and otherwise the star whose code is one press longer, if there is one.
pub open spec fn step_spec(at: At, dir: Dir) -> Option<At> {
    let to = |c: Seq<Dir>|
        match named(c) {
            Some(i) => Some(At::On(i)),
            None => None,
        };
    match at {
        At::Hand => to(seq![dir]),
        At::On(item) => {
            let c = code_of(item_index(item) as nat);
            if c.last() == opposite_spec(dir) {
                Some(back_spec(all_items(), item_index(item) as nat))
            } else {
                to(c.push(dir))
            }
        },
    }
}

/// Where a run of presses from the empty hand lands, if every press lands somewhere.
pub open spec fn walk(code: Seq<Dir>) -> Option<At>
    decreases code.len(),
{
    if code.len() == 0 {
        Some(At::Hand)
    } else {
        match walk(code.drop_last()) {
            Some(at) => step_spec(at, code.last()),
            None => None,
        }
    }
}

impl Dir {
    /// Every direction, in the order exits are handed out.
    pub fn all() -> (r: [Dir; 4])
        ensures
            r@ == dirs(),
    {
        let r = [Dir::Up, Dir::Right, Dir::Down, Dir::Left];
        assert(r@ =~= dirs());
        r
    }

    /// The press that undoes this one.
    pub fn opposite(self) -> (r: Dir)
        ensures
            r == opposite_spec(self),
    {
        match self {
            Dir::Up => Dir::Down,
            Dir::Right => Dir::Left,
            Dir::Down => Dir::Up,
            Dir::Left => Dir::Right,
        }
    }
}

impl At {
    /// The item selected, or nothing at all: an empty hand is empty, not "grass you have
    /// none of".
    pub fn item(self) -> (r: Option<Item>)
        ensures
            r == (match self {
                At::Hand => None,
                At::On(i) => Some(i),
            }),
    {
        match self {
            At::Hand => None,
            At::On(item) => Some(item),
        }
    }
}

impl Default for At {
    /// You start with nothing in your hand, because you start with nothing.
    fn default() -> (r: At)
        ensures
            r == At::Hand,
    {
        At::Hand
    }
}

/// One item, placed on the chart, with the presses that reach it.
#[derive(Debug)]
pub struct Star {
    pub item: Item,
    /// The code: the presses from the hand, in order.
    pub code: Vec<Dir>,
    /// One press back down the code.
    pub back: At,
}

/// The `k`-th star of a layout of `items`, as the breadth-first fill puts it.
pub open spec fn star_fits(s: Star, items: Seq<Item>, k: nat) -> bool {
    &&& s.item == items[k as int]
    &&& s.code@ == code_of(k)
    &&& s.back == back_spec(items, k)
}

/// The exits are three different directions, none of them the way back.
pub proof fn lemma_exits(arrived: Dir)
    ensures
        exits(arrived).len() == 3,
        forall|d: Dir| exits(arrived).contains(d) <==> d != opposite_spec(arrived),
        forall|i: int, j: int| 0 <= i < j < 3 ==> exits(arrived)[i] != exits(arrived)[j],
{
    assert forall|d: Dir| exits(arrived).contains(d) <==> d != opposite_spec(arrived) by {
        if d != opposite_spec(arrived) {
            let s = exits(arrived);
            if s[0] == d {
                assert(s.contains(d));
            } else if s[1] == d {
                assert(s.contains(d));
            } else {
                assert(s[2] == d);
                assert(s.contains(d));
            }
        }
    }
}

/// Where a star past the first four sits: the child at slot `(k - 4) % 3` of its parent.
proof fn lemma_parent(k: nat)
    requires
        k >= 4,
    ensures
        parent(k) < k,
        k == 4 + 3 * parent(k) + (k - 4) % 3,
        0 <= (k - 4) % 3 < 3,
{
    vstd::arithmetic::div_mod::lemma_fundamental_div_mod((k - 4) as int, 3);
}

/// A code is never empty, and is one press longer than the code of the star it hangs off.
pub proof fn lemma_code_len(k: nat)
    ensures
        code_of(k).len() >= 1,
        k < 4 <==> code_of(k).len() == 1,
        k >= 4 ==> code_of(k).drop_last() == code_of(parent(k)),
    decreases k,
{
    if k >= 4 {
        lemma_parent(k);
        lemma_code_len(parent(k));
        assert(code_of(k).drop_last() =~= code_of(parent(k)));
    }
}

/// Every star has a code of its own: no two stars, however many there are, answer to the
/// same presses.
pub proof fn lemma_codes_distinct(k1: nat, k2: nat)
    requires
        code_of(k1) == code_of(k2),
    ensures
        k1 == k2,
    decreases k1 + k2,
{
    lemma_code_len(k1);
    lemma_code_len(k2);
    if k1 < 4 && k2 < 4 {
        assert(code_of(k1)[0] == dirs()[k1 as int]);
        assert(code_of(k2)[0] == dirs()[k2 as int]);
    } else if k1 >= 4 && k2 >= 4 {
        lemma_parent(k1);
        lemma_parent(k2);
        lemma_codes_distinct(parent(k1), parent(k2));
        let p = parent(k1);
        lemma_exits(code_of(p).last());
        assert(code_of(k1).last() == exits(code_of(p).last())[(k1 - 4) % 3]);
        assert(code_of(k2).last() == exits(code_of(p).last())[(k2 - 4) % 3]);
    }
}

/// Nothing in today's table is more than two presses from the hand.
pub proof fn lemma_codes_short(k: nat)
    requires
        k < ITEM_COUNT,
    ensures
        1 <= code_of(k).len() <= 2,
{
    lemma_code_len(k);
    if k >= 4 {
        lemma_parent(k);
        lemma_code_len(parent(k));
    }
}

/// The item whose code is the `k`-th code is the `k`-th item.
proof fn lemma_named(k: nat)
    requires
        k < ITEM_COUNT,
    ensures
        named(code_of(k)) == Some(item_at(k as int)),
{
    assert(k < ITEM_COUNT && code_of(k) == code_of(k));
    let j = choose|j: nat| j < ITEM_COUNT && #[trigger] code_of(j) == code_of(k);
    lemma_codes_distinct(j, k);
}

/// A code never leads back the way it came: each press is an exit of the star before it.
proof fn lemma_last_not_back(k: nat)
    requires
        k >= 4,
    ensures
        code_of(k).last() != opposite_spec(code_of(parent(k)).last()),
{
    lemma_parent(k);
    let p = parent(k);
    lemma_exits(code_of(p).last());
    assert(exits(code_of(p).last()).contains(code_of(k).last()));
}

/// Walking an item's code from an empty hand arrives at that item: the child punching in
/// a code they read off the chart gets the thing the chart drew there.
pub proof fn lemma_code_walks(item: Item)
    ensures
        walk(code_of(item_index(item) as nat)) == Some(At::On(item)),
{
    lemma_index_inverse(item);
    lemma_walk_index(item_index(item) as nat);
}

proof fn lemma_walk_index(k: nat)
    requires
        k < ITEM_COUNT,
    ensures
        walk(code_of(k)) == Some(At::On(item_at(k as int))),
    decreases k,
{
    lemma_code_len(k);
    let c = code_of(k);
    lemma_named(k);
    if k < 4 {
        assert(c.drop_last() =~= Seq::<Dir>::empty());
        assert(walk(c.drop_last()) == Some(At::Hand));
        assert(seq![c.last()] =~= c);
        assert(step_spec(At::Hand, c.last()) == Some(At::On(item_at(k as int))));
    } else {
        let p = parent(k);
        lemma_parent(k);
        lemma_walk_index(p);
        lemma_at_inverse(p as int);
        lemma_last_not_back(k);
        assert(code_of(p).last() != opposite_spec(c.last()));
        assert(code_of(p).push(c.last()) =~= c);
        assert(walk(c.drop_last()) == Some(At::On(item_at(p as int))));
        assert(step_spec(At::On(item_at(p as int)), c.last()) == Some(At::On(item_at(k as int))));
    }
}

/// Every press can be taken back: pressing the opposite way from wherever a press landed
/// returns to where it was made. A wrong turn costs nothing, and an empty hand needs no
/// button of its own.
pub proof fn lemma_press_undone(from: At, dir: Dir)
    requires
        step_spec(from, dir) is Some,
    ensures
        step_spec(step_spec(from, dir)->0, opposite_spec(dir)) == Some(from),
{
    let to = step_spec(from, dir)->0;
    match from {
        At::Hand => {
            let k = choose|k: nat| k < ITEM_COUNT && #[trigger] code_of(k) == seq![dir];
            lemma_code_len(k);
            lemma_at_inverse(k as int);
        },
        At::On(item) => {
            let k = item_index(item) as nat;
            lemma_index_inverse(item);
            let c = code_of(k);
            lemma_code_len(k);
            if c.last() == opposite_spec(dir) {
                if k < 4 {
                    assert(c =~= seq![opposite_spec(dir)]);
                    lemma_named(k);
                } else {
                    let p = parent(k);
                    lemma_parent(k);
                    lemma_at_inverse(p as int);
                    lemma_last_not_back(k);
                    assert(code_of(p).push(opposite_spec(dir)) =~= c);
                    lemma_named(k);
                }
            } else {
                let c2 = c.push(dir);
                let k2 = choose|j: nat| j < ITEM_COUNT && #[trigger] code_of(j) == c2;
                lemma_code_len(k2);
                lemma_at_inverse(k2 as int);
                assert(code_of(k2).drop_last() =~= c);
                lemma_codes_distinct(parent(k2), k);
            }
        },
    }
}

/// The item table, laid onto a four-way tree from the hand, breadth first.
///
/// Breadth first is what keeps the codes short, and taking the exits in a fixed order is
/// what keeps them *still*: the code of the `k`-th item depends on `k` alone, so an item
/// appended to the table lands at the outside and every code already learned still reaches
/// what it always reached.
pub fn layout(items: &[Item]) -> (r: Vec<Star>)
    ensures
        r@.len() == items@.len(),
        forall|k: int| 0 <= k < r@.len() ==> star_fits(#[trigger] r@[k], items@, k as nat),
{
    let n = items.len();
    let all = Dir::all();
    let mut stars: Vec<Star> = Vec::new();
    let mut j: usize = 0;
    while j < 4 && stars.len() < n
        invariant
            n == items@.len(),
            all@ == dirs(),
            j <= 4,
            stars@.len() == j,
            j <= n,
            forall|k: int| 0 <= k < stars@.len() ==> star_fits(#[trigger] stars@[k], items@, k as nat),
        decreases 4 - j,
    {
        let mut code: Vec<Dir> = Vec::new();
        code.push(all[j]);
        proof {
            assert(code@ =~= code_of(j as nat));
        }
        stars.push(Star { item: items[j], code, back: At::Hand });
        j = j + 1;
    }
    let mut q: usize = 0;
    while stars.len() < n
        invariant
            n == items@.len(),
            stars@.len() <= n,
            stars@.len() < n ==> stars@.len() == 4 + 3 * q,
            q < stars@.len() || stars@.len() == n,
            forall|k: int| 0 <= k < stars@.len() ==> star_fits(#[trigger] stars@[k], items@, k as nat),
        decreases n - stars@.len(),
    {
        let ghost before = stars@.len();
        let last = stars[q].code[stars[q].code.len() - 1];
        proof {
            lemma_code_len(q as nat);
        }
        let ex: [Dir; 3] = match last {
            Dir::Up => [Dir::Up, Dir::Right, Dir::Left],
            Dir::Right => [Dir::Up, Dir::Right, Dir::Down],
            Dir::Down => [Dir::Right, Dir::Down, Dir::Left],
            Dir::Left => [Dir::Up, Dir::Down, Dir::Left],
        };
        assert(ex@ =~= exits(code_of(q as nat).last()));
        let mut e: usize = 0;
        while e < 3 && stars.len() < n
            invariant
                n == items@.len(),
                q < before,
                before == 4 + 3 * q,
                before < n,
                stars@.len() <= n,
                e <= 3,
                stars@.len() == before + e,
                ex@ == exits(code_of(q as nat).last()),
                forall|k: int| 0 <= k < stars@.len() ==> star_fits(#[trigger] stars@[k], items@, k as nat),
            decreases 3 - e,
        {
            let k = stars.len();
            proof {
                lemma_parent(k as nat);
                assert(parent(k as nat) == q && (k - 4) % 3 == e) by (nonlinear_arith)
                    requires
                        k == 4 + 3 * q + e,
                        e < 3,
                        k == 4 + 3 * parent(k as nat) + (k - 4) % 3,
                        0 <= (k - 4) % 3 < 3,
                ;
            }
            let code = extended(&stars[q].code, ex[e]);
            let from = stars[q].item;
            stars.push(Star { item: items[k], code, back: At::On(from) });
            e = e + 1;
        }
        q = q + 1;
    }
    stars
}

/// A code one press longer.
fn extended(code: &Vec<Dir>, d: Dir) -> (r: Vec<Dir>)
    ensures
        r@ == code@.push(d),
{
    let mut r: Vec<Dir> = Vec::new();
    let mut i: usize = 0;
    while i < code.len()
        invariant
            i <= code@.len(),
            r@ == code@.take(i as int),
        decreases code@.len() - i,
    {
        r.push(code[i]);
        i = i + 1;
        assert(r@ =~= code@.take(i as int));
    }
    r.push(d);
    assert(r@ =~= code@.push(d));
    r
}

/// Do two codes name the same presses?
fn same_code(a: &[Dir], b: &[Dir]) -> (r: bool)
    ensures
        r == (a@ == b@),
{
    if a.len() != b.len() {
        return false;
    }
    let mut i: usize = 0;
    while i < a.len()
        invariant
            a@.len() == b@.len(),
            i <= a@.len(),
            forall|k: int| 0 <= k < i ==> a@[k] == b@[k],
        decreases a@.len() - i,
    {
        if a[i] != b[i] {
            return false;
        }
        i = i + 1;
    }
    assert(a@ =~= b@);
    true
}

/// The chart: every star's code, one star per item, in item order.
pub struct Chart {
    stars: Vec<Star>,
}

impl View for Chart {
    type V = Seq<Star>;

    /// The stars, one per item, in item order.
    closed spec fn view(&self) -> Seq<Star> {
        self.stars@
    }
}

impl Chart {
    /// Every star is where the breadth-first fill of the whole item table puts it.
    #[verifier::type_invariant]
    spec fn laid_out(self) -> bool {
        &&& self.stars@.len() == ITEM_COUNT
        &&& forall|k: int|
            0 <= k < ITEM_COUNT ==> star_fits(#[trigger] self.stars@[k], all_items(), k as nat)
    }

    /// The whole item table, laid out: one star per item, in item order, each where the
    /// breadth-first fill puts it.
    pub fn new() -> (r: Chart)
        ensures
            r@.len() == ITEM_COUNT,
            forall|k: int| 0 <= k < ITEM_COUNT ==> star_fits(#[trigger] r@[k], all_items(), k as nat),
    {
        let items = Item::all();
        let stars = layout(items.as_slice());
        Chart { stars }
    }

    /// The star an item hangs at.
    pub fn star(&self, item: Item) -> (r: &Star)
        ensures
            star_fits(*r, all_items(), item_index(item) as nat),
            r.item == item,
    {
        proof {
            use_type_invariant(self);
            lemma_index_inverse(item);
        }
        &self.stars[item.index()]
    }

    /// The presses that reach an item from the empty hand.
    pub fn code(&self, item: Item) -> (r: &[Dir])
        ensures
            r@ == code_of(item_index(item) as nat),
    {
        self.star(item).code.as_slice()
    }

    /// The item these presses reach, if any.
    pub fn with_code(&self, code: &[Dir]) -> (r: Option<Item>)
        ensures
            r == named(code@),
    {
        proof {
            use_type_invariant(self);
        }
        let mut k: usize = 0;
        while k < self.stars.len()
            invariant
                self.stars@.len() == ITEM_COUNT,
                forall|j: int|
                    0 <= j < ITEM_COUNT ==> star_fits(#[trigger] self.stars@[j], all_items(), j as nat),
                k <= ITEM_COUNT,
                forall|j: nat| j < k ==> #[trigger] code_of(j) != code@,
            decreases ITEM_COUNT - k,
        {
            if same_code(self.stars[k].code.as_slice(), code) {
                proof {
                    assert(star_fits(self.stars@[k as int], all_items(), k as nat));
                    lemma_named(k as nat);
                }
                return Some(self.stars[k].item);
            }
            assert(star_fits(self.stars@[k as int], all_items(), k as nat));
            k = k + 1;
        }
        None
    }

    /// One press. `None` when there is no star that way: a dead end you can see before you
    /// press it, because the chart draws the threads it does have.
    pub fn step(&self, at: At, dir: Dir) -> (r: Option<At>)
        ensures
            r == step_spec(at, dir),
    {
        match at {
            At::Hand => {
                let code = [dir];
                assert(code@ =~= seq![dir]);
                match self.with_code(&code) {
                    Some(i) => Some(At::On(i)),
                    None => None,
                }
            },
            At::On(item) => {
                let star = self.star(item);
                proof {
                    lemma_code_len(item_index(item) as nat);
                }
                let last = star.code[star.code.len() - 1];
                if last == dir.opposite() {
                    return Some(star.back);
                }
                let code = extended(&star.code, dir);
                match self.with_code(code.as_slice()) {
                    Some(i) => Some(At::On(i)),
                    None => None,
                }
            },
        }
    }

    /// Is this star on the way from the hand to `held`? That run of threads is the one
    /// drawn lit: the code, as a path.
    pub fn on_the_way(&self, star: Item, held: At) -> (r: bool)
        ensures
            r == (match held {
                At::Hand => false,
                At::On(item) => code_of(item_index(star) as nat).is_prefix_of(
                    code_of(item_index(item) as nat),
                ),
            }),
    {
        match held.item() {
            None => false,
            Some(item) => {
                let whole = self.code(item);
                let part = self.code(star);
                if part.len() > whole.len() {
                    return false;
                }
                let mut i: usize = 0;
                while i < part.len()
                    invariant
                        part@ == code_of(item_index(star) as nat),
                        whole@ == code_of(item_index(item) as nat),
                        held == At::On(item),
                        part@.len() <= whole@.len(),
                        i <= part@.len(),
                        forall|k: int| 0 <= k < i ==> part@[k] == whole@[k],
                    decreases part@.len() - i,
                {
                    if part[i] != whole[i] {
                        assert(!part@.is_prefix_of(whole@)) by {
                            if part@.is_prefix_of(whole@) {
                                assert(part@[i as int] == whole@.subrange(
                                    0,
                                    part@.len() as int,
                                )[i as int]);
                            }
                        }
                        return false;
                    }
                    i = i + 1;
                }
                assert(whole@.take(part@.len() as int) =~= part@);
                true
            },
        }
    }
}

} // verus!
