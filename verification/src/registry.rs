//! Everything that exists in the game: the things you can hold, the voxels they place, and
//! what each thing is made of.
//!
//! The recipe table is the one place a recipe lives. Everything that plans, draws or pays
//! for a craft reads it from here, so a new recipe is a row in [`recipe_table`] and nothing
//! else changes.
use vstd::prelude::*;

verus! {

/// How many different things there are to hold.
pub const ITEM_COUNT: usize = 14;

/// Something a player can hold: a gathered block, or a thing made out of them.
///
/// Declaration order is meaningful: it is [`Item::index`], the order every table over items
/// is written in, and the order the constellation hands out its exits.
#[derive(Clone, Copy, PartialEq, Eq, Hash, Debug, Structural)]
pub enum Item {
    Grass,
    Dirt,
    Stone,
    Sand,
    Wood,
    Leaves,
    Cushion,
    Nail,
    Hammer,
    Drill,
    Handgun,
    Rifle,
    Parachute,
    Car,
}

/// A voxel. `Air` is the absence of one and `Bedrock` is the floor nobody may break.
#[derive(Clone, Copy, PartialEq, Eq, Hash, Debug, Structural)]
pub enum Block {
    Air,
    Bedrock,
    Grass,
    Dirt,
    Stone,
    Sand,
    Wood,
    Leaves,
    Cushion,
}

/// The first symbol of a crafting code: what sort of thing, before which one.
#[derive(Clone, Copy, PartialEq, Eq, Hash, Debug, Structural)]
pub enum Kind {
    /// A cube: everything that is placed as a voxel.
    Block,
    /// A nail, the part everything else is put together with.
    Part,
    /// Things that are swung or fired.
    Tool,
    /// Things that are worn.
    Gear,
    /// Things that are driven.
    Vehicle,
}

/// What the use button does with a thing in hand. The numbers behind each profile (how
/// far it reaches, how fast it chews, how far it zooms) belong to the game's tuning table;
/// which profile a thing has is decided here.
#[derive(Clone, Copy, PartialEq, Eq, Hash, Debug, Structural)]
pub enum Use {
    BareHand,
    Hammer,
    Drill,
    Handgun,
    Rifle,
}

/// How a player falls with a thing in hand.
#[derive(Clone, Copy, PartialEq, Eq, Hash, Debug, Structural)]
pub enum Fall {
    Unaided,
    Parachute,
}

/// The position of an item in declaration order.
pub open spec fn item_index(item: Item) -> int {
    match item {
        Item::Grass => 0,
        Item::Dirt => 1,
        Item::Stone => 2,
        Item::Sand => 3,
        Item::Wood => 4,
        Item::Leaves => 5,
        Item::Cushion => 6,
        Item::Nail => 7,
        Item::Hammer => 8,
        Item::Drill => 9,
        Item::Handgun => 10,
        Item::Rifle => 11,
        Item::Parachute => 12,
        Item::Car => 13,
    }
}

/// The item at a position of the declaration order.
pub open spec fn item_at(i: int) -> Item {
    if i <= 0 {
        Item::Grass
    } else if i == 1 {
        Item::Dirt
    } else if i == 2 {
        Item::Stone
    } else if i == 3 {
        Item::Sand
    } else if i == 4 {
        Item::Wood
    } else if i == 5 {
        Item::Leaves
    } else if i == 6 {
        Item::Cushion
    } else if i == 7 {
        Item::Nail
    } else if i == 8 {
        Item::Hammer
    } else if i == 9 {
        Item::Drill
    } else if i == 10 {
        Item::Handgun
    } else if i == 11 {
        Item::Rifle
    } else if i == 12 {
        Item::Parachute
    } else {
        Item::Car
    }
}

/// Every item, in declaration order.
pub open spec fn all_items() -> Seq<Item> {
    Seq::new(ITEM_COUNT as nat, |i: int| item_at(i))
}

/// What one of `item` is made of, and how many of each. Empty for a thing that is dug up
/// rather than made.
pub open spec fn recipe_table(item: Item) -> Seq<(Item, u32)> {
    match item {
        Item::Cushion => seq![(Item::Leaves, 4u32)],
        Item::Nail => seq![(Item::Stone, 1u32)],
        Item::Hammer => seq![(Item::Wood, 2u32), (Item::Nail, 2u32)],
        Item::Drill => seq![(Item::Wood, 2u32), (Item::Stone, 3u32), (Item::Nail, 4u32)],
        Item::Handgun => seq![(Item::Wood, 1u32), (Item::Stone, 2u32), (Item::Nail, 2u32)],
        Item::Rifle => seq![(Item::Wood, 4u32), (Item::Stone, 3u32), (Item::Nail, 4u32)],
        Item::Parachute => seq![(Item::Leaves, 8u32), (Item::Wood, 2u32), (Item::Nail, 2u32)],
        Item::Car => seq![(Item::Wood, 6u32), (Item::Stone, 2u32), (Item::Nail, 8u32)],
        _ => Seq::empty(),
    }
}

/// How many crafts an item is away from the ground, along its longest chain: zero for a
/// thing that is dug up, and one more than the highest of its ingredients otherwise.
pub open spec fn tier(item: Item) -> nat {
    match item {
        Item::Cushion | Item::Nail => 1,
        Item::Hammer | Item::Drill | Item::Handgun | Item::Rifle | Item::Parachute
        | Item::Car => 2,
        _ => 0,
    }
}

/// The highest tier anything is on.
pub open spec fn top_tier() -> nat {
    2
}

/// The most of one ingredient any recipe asks for.
pub open spec fn most_needed() -> nat {
    12
}

/// The block an item places, if it is a block at all.
pub open spec fn places_spec(item: Item) -> Option<Block> {
    match item {
        Item::Grass => Some(Block::Grass),
        Item::Dirt => Some(Block::Dirt),
        Item::Stone => Some(Block::Stone),
        Item::Sand => Some(Block::Sand),
        Item::Wood => Some(Block::Wood),
        Item::Leaves => Some(Block::Leaves),
        Item::Cushion => Some(Block::Cushion),
        _ => None,
    }
}

/// The item a voxel is, in a player's pocket, if it is one at all.
pub open spec fn placing_spec(block: Block) -> Option<Item> {
    match block {
        Block::Grass => Some(Item::Grass),
        Block::Dirt => Some(Item::Dirt),
        Block::Stone => Some(Item::Stone),
        Block::Sand => Some(Item::Sand),
        Block::Wood => Some(Item::Wood),
        Block::Leaves => Some(Item::Leaves),
        Block::Cushion => Some(Item::Cushion),
        _ => None,
    }
}

/// The kind an item is listed under on the code pad.
pub open spec fn kind_spec(item: Item) -> Kind {
    match item {
        Item::Nail => Kind::Part,
        Item::Hammer | Item::Drill | Item::Handgun | Item::Rifle => Kind::Tool,
        Item::Parachute => Kind::Gear,
        Item::Car => Kind::Vehicle,
        _ => Kind::Block,
    }
}

/// Everything of a kind, in declaration order.
pub open spec fn kind_items_spec(kind: Kind) -> Seq<Item> {
    all_items().filter(|i: Item| kind_spec(i) == kind)
}

/// The use profile of an item in hand.
pub open spec fn using_spec(item: Item) -> Use {
    match item {
        Item::Hammer => Use::Hammer,
        Item::Drill => Use::Drill,
        Item::Handgun => Use::Handgun,
        Item::Rifle => Use::Rifle,
        _ => Use::BareHand,
    }
}

/// The fall profile of an item in hand.
pub open spec fn falling_spec(item: Item) -> Fall {
    match item {
        Item::Parachute => Fall::Parachute,
        _ => Fall::Unaided,
    }
}

/// Every ingredient of an item is strictly nearer the ground than the item, is asked for
/// at least once and at most [`most_needed`] times, and appears once in the recipe. This is
/// what makes the recipes a graph with no cycle: anything that walks down a recipe stops.
pub proof fn lemma_recipe_well_founded(item: Item)
    ensures
        tier(item) <= top_tier(),
        recipe_table(item).len() == 0 <==> tier(item) == 0,
        forall|j: int|
            0 <= j < recipe_table(item).len() ==> {
                &&& tier(#[trigger] recipe_table(item)[j].0) < tier(item)
                &&& 1 <= recipe_table(item)[j].1 <= most_needed()
                &&& recipe_table(item)[j].0 != item
            },
        forall|j: int, k: int|
            0 <= j < k < recipe_table(item).len() ==> recipe_table(item)[j].0
                != recipe_table(item)[k].0,
{
}

/// What each kind lists, spelled out.
pub proof fn lemma_kind_items()
    ensures
        kind_items_spec(Kind::Block) == seq![
            Item::Grass,
            Item::Dirt,
            Item::Stone,
            Item::Sand,
            Item::Wood,
            Item::Leaves,
            Item::Cushion,
        ],
        kind_items_spec(Kind::Part) == seq![Item::Nail],
        kind_items_spec(Kind::Tool) == seq![Item::Hammer, Item::Drill, Item::Handgun, Item::Rifle],
        kind_items_spec(Kind::Gear) == seq![Item::Parachute],
        kind_items_spec(Kind::Vehicle) == seq![Item::Car],
{
    let all = seq![
        Item::Grass,
        Item::Dirt,
        Item::Stone,
        Item::Sand,
        Item::Wood,
        Item::Leaves,
        Item::Cushion,
        Item::Nail,
        Item::Hammer,
        Item::Drill,
        Item::Handgun,
        Item::Rifle,
        Item::Parachute,
        Item::Car,
    ];
    assert(all_items() =~= all);
    reveal_with_fuel(Seq::filter, 15);
    assert(kind_items_spec(Kind::Block) =~= seq![
        Item::Grass,
        Item::Dirt,
        Item::Stone,
        Item::Sand,
        Item::Wood,
        Item::Leaves,
        Item::Cushion,
    ]);
    assert(kind_items_spec(Kind::Part) =~= seq![Item::Nail]);
    assert(kind_items_spec(Kind::Tool) =~= seq![
        Item::Hammer,
        Item::Drill,
        Item::Handgun,
        Item::Rifle,
    ]);
    assert(kind_items_spec(Kind::Gear) =~= seq![Item::Parachute]);
    assert(kind_items_spec(Kind::Vehicle) =~= seq![Item::Car]);
}

/// An item's tier is its longest chain to the ground: one more than the highest of its
/// ingredients, and zero for a thing with no recipe.
pub proof fn lemma_tier_longest(item: Item)
    ensures
        recipe_table(item).len() > 0 ==> exists|j: int|
            0 <= j < recipe_table(item).len() && tier(#[trigger] recipe_table(item)[j].0) + 1
                == tier(item),
        forall|j: int|
            0 <= j < recipe_table(item).len() ==> tier(#[trigger] recipe_table(item)[j].0) + 1
                <= tier(item),
{
    let r = recipe_table(item);
    if r.len() > 0 {
        let j: int = if r.len() == 1 { 0 } else if r.len() == 2 { 1 } else { 2 };
        assert(tier(r[j].0) + 1 == tier(item));
    }
}

/// Index and position are inverse: every item is at its own index, and the index of every
/// position names an item that sits there.
pub proof fn lemma_index_inverse(item: Item)
    ensures
        0 <= item_index(item) < ITEM_COUNT,
        item_at(item_index(item)) == item,
{
}

/// The other way round: every position below [`ITEM_COUNT`] is an item's index.
pub proof fn lemma_at_inverse(i: int)
    requires
        0 <= i < ITEM_COUNT,
    ensures
        item_index(item_at(i)) == i,
{
}

/// Placing and gathering are inverse wherever either is defined.
pub proof fn lemma_places_placing(item: Item, block: Block)
    ensures
        places_spec(item) == Some(block) <==> placing_spec(block) == Some(item),
{
}

impl Item {
    /// How many different things there are to hold.
    pub const COUNT: usize = ITEM_COUNT;

    /// This item's position in declaration order.
    pub fn index(self) -> (r: usize)
        ensures
            r == item_index(self),
            r < ITEM_COUNT,
    {
        match self {
            Item::Grass => 0,
            Item::Dirt => 1,
            Item::Stone => 2,
            Item::Sand => 3,
            Item::Wood => 4,
            Item::Leaves => 5,
            Item::Cushion => 6,
            Item::Nail => 7,
            Item::Hammer => 8,
            Item::Drill => 9,
            Item::Handgun => 10,
            Item::Rifle => 11,
            Item::Parachute => 12,
            Item::Car => 13,
        }
    }

    /// The item at a position of declaration order.
    pub fn from_index(i: usize) -> (r: Item)
        requires
            i < ITEM_COUNT,
        ensures
            r == item_at(i as int),
            item_index(r) == i,
    {
        if i == 0 {
            Item::Grass
        } else if i == 1 {
            Item::Dirt
        } else if i == 2 {
            Item::Stone
        } else if i == 3 {
            Item::Sand
        } else if i == 4 {
            Item::Wood
        } else if i == 5 {
            Item::Leaves
        } else if i == 6 {
            Item::Cushion
        } else if i == 7 {
            Item::Nail
        } else if i == 8 {
            Item::Hammer
        } else if i == 9 {
            Item::Drill
        } else if i == 10 {
            Item::Handgun
        } else if i == 11 {
            Item::Rifle
        } else if i == 12 {
            Item::Parachute
        } else {
            Item::Car
        }
    }

    /// Every item, in declaration order.
    pub fn all() -> (r: Vec<Item>)
        ensures
            r@ == all_items(),
    {
        let mut r: Vec<Item> = Vec::new();
        let mut i: usize = 0;
        while i < ITEM_COUNT
            invariant
                i <= ITEM_COUNT,
                r@ == all_items().take(i as int),
            decreases ITEM_COUNT - i,
        {
            r.push(Item::from_index(i));
            i = i + 1;
            assert(r@ =~= all_items().take(i as int));
        }
        assert(r@ =~= all_items());
        r
    }

    /// What one of this is made of. Empty for something you dig up: nothing makes grass.
    pub fn recipe(self) -> (r: Vec<(Item, u32)>)
        ensures
            r@ == recipe_table(self),
    {
        let r = match self {
            Item::Cushion => vec![(Item::Leaves, 4u32)],
            Item::Nail => vec![(Item::Stone, 1u32)],
            Item::Hammer => vec![(Item::Wood, 2u32), (Item::Nail, 2u32)],
            Item::Drill => vec![(Item::Wood, 2u32), (Item::Stone, 3u32), (Item::Nail, 4u32)],
            Item::Handgun => vec![(Item::Wood, 1u32), (Item::Stone, 2u32), (Item::Nail, 2u32)],
            Item::Rifle => vec![(Item::Wood, 4u32), (Item::Stone, 3u32), (Item::Nail, 4u32)],
            Item::Parachute => vec![(Item::Leaves, 8u32), (Item::Wood, 2u32), (Item::Nail, 2u32)],
            Item::Car => vec![(Item::Wood, 6u32), (Item::Stone, 2u32), (Item::Nail, 8u32)],
            _ => Vec::new(),
        };
        assert(r@ =~= recipe_table(self));
        r
    }

    /// The voxel this item puts in the world, if it is a block.
    pub fn places(self) -> (r: Option<Block>)
        ensures
            r == places_spec(self),
    {
        match self {
            Item::Grass => Some(Block::Grass),
            Item::Dirt => Some(Block::Dirt),
            Item::Stone => Some(Block::Stone),
            Item::Sand => Some(Block::Sand),
            Item::Wood => Some(Block::Wood),
            Item::Leaves => Some(Block::Leaves),
            Item::Cushion => Some(Block::Cushion),
            _ => None,
        }
    }

    /// The item a voxel becomes when it is broken, or that has to be spent to place it.
    /// Air was never anything and bedrock is nobody's.
    pub fn placing(block: Block) -> (r: Option<Item>)
        ensures
            r == placing_spec(block),
    {
        match block {
            Block::Grass => Some(Item::Grass),
            Block::Dirt => Some(Item::Dirt),
            Block::Stone => Some(Item::Stone),
            Block::Sand => Some(Item::Sand),
            Block::Wood => Some(Item::Wood),
            Block::Leaves => Some(Item::Leaves),
            Block::Cushion => Some(Item::Cushion),
            _ => None,
        }
    }

    /// The kind this item is listed under.
    pub fn kind(self) -> (r: Kind)
        ensures
            r == kind_spec(self),
    {
        match self {
            Item::Nail => Kind::Part,
            Item::Hammer | Item::Drill | Item::Handgun | Item::Rifle => Kind::Tool,
            Item::Parachute => Kind::Gear,
            Item::Car => Kind::Vehicle,
            _ => Kind::Block,
        }
    }

    /// What the use button does with this in hand.
    pub fn using(self) -> (r: Use)
        ensures
            r == using_spec(self),
    {
        match self {
            Item::Hammer => Use::Hammer,
            Item::Drill => Use::Drill,
            Item::Handgun => Use::Handgun,
            Item::Rifle => Use::Rifle,
            _ => Use::BareHand,
        }
    }

    /// How a fall goes with this in hand.
    pub fn falling(self) -> (r: Fall)
        ensures
            r == falling_spec(self),
    {
        match self {
            Item::Parachute => Fall::Parachute,
            _ => Fall::Unaided,
        }
    }
}

impl Use {
    /// An empty hand: what the use button does when nothing usable is held.
    pub const BARE_HAND: Use = Use::BareHand;
}

impl Fall {
    /// A fall with nothing in hand to break it.
    pub const UNAIDED: Fall = Fall::Unaided;
}

impl Block {
    /// May a player put this voxel in the world? Only what some item places.
    pub fn placeable(self) -> (r: bool)
        ensures
            r == (exists|i: Item| places_spec(i) == Some(self)),
    {
        let r = match self {
            Block::Air | Block::Bedrock => false,
            _ => true,
        };
        proof {
            if r {
                let i = placing_spec(self)->0;
                lemma_places_placing(i, self);
            } else {
                assert forall|i: Item| places_spec(i) != Some(self) by {}
            }
        }
        r
    }
}

impl Kind {
    /// Every kind, in the order the code pad shows them.
    pub fn all() -> (r: Vec<Kind>)
        ensures
            r@ == seq![Kind::Block, Kind::Part, Kind::Tool, Kind::Gear, Kind::Vehicle],
    {
        let r = vec![Kind::Block, Kind::Part, Kind::Tool, Kind::Gear, Kind::Vehicle];
        assert(r@ =~= seq![Kind::Block, Kind::Part, Kind::Tool, Kind::Gear, Kind::Vehicle]);
        r
    }

    /// Everything of this kind, in declaration order.
    pub fn items(self) -> (r: Vec<Item>)
        ensures
            r@ == kind_items_spec(self),
    {
        let mut r: Vec<Item> = Vec::new();
        let mut i: usize = 0;
        while i < ITEM_COUNT
            invariant
                i <= ITEM_COUNT,
                r@ == all_items().take(i as int).filter(|it: Item| kind_spec(it) == self),
            decreases ITEM_COUNT - i,
        {
            let item = Item::from_index(i);
            proof {
                reveal_with_fuel(Seq::filter, 1);
                assert(all_items().take(i + 1).drop_last() =~= all_items().take(i as int));
            }
            if item.kind() == self {
                r.push(item);
            }
            i = i + 1;
        }
        assert(all_items().take(ITEM_COUNT as int) =~= all_items());
        r
    }
}

} // verus!
