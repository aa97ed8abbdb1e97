//! The host's rules about the world: which edits stand, what they cost and yield, and
//! which chunks are kept, drawn and redrawn around a player.
use vstd::prelude::*;
use crate::inventory::{Inventory, added, count_of, sat_add, taken};
use crate::registry::{Block, ITEM_COUNT, Item, item_index, lemma_index_inverse, placing_spec, places_spec};
use crate::world::{BlockPos, CHUNK_SIZE, ChunkPos, chunk_of, local_of};

verus! {

/// Chunks either way of the player that are loaded and drawn.
pub const VIEW_RADIUS: i32 = 8;

/// Chunks either way past which a loaded chunk is let go of. Wider than the view, so a
/// player stepping back and forth over a boundary does not load and drop the same chunks
/// over and over.
pub const UNLOAD_RADIUS: i32 = 10;

/// How far apart two chunks are, counting a diagonal step as one.
pub open spec fn chebyshev_spec(a: ChunkPos, b: ChunkPos) -> int {
    let dx = if a.x >= b.x { a.x - b.x } else { b.x - a.x };
    let dz = if a.z >= b.z { a.z - b.z } else { b.z - a.z };
    if dx >= dz {
        dx
    } else {
        dz
    }
}

/// Two chunks whose distance fits in a coordinate.
pub open spec fn near_enough(a: ChunkPos, b: ChunkPos) -> bool {
    &&& i32::MIN < a.x - b.x <= i32::MAX
    &&& i32::MIN < a.z - b.z <= i32::MAX
}

/// How far apart two chunks are, counting a diagonal step as one.
pub fn chebyshev(a: ChunkPos, b: ChunkPos) -> (r: i32)
    requires
        near_enough(a, b),
    ensures
        r == chebyshev_spec(a, b),
{
    let ex = a.x - b.x;
    let ez = a.z - b.z;
    let dx = if ex >= 0 {
        ex
    } else {
        -ex
    };
    let dz = if ez >= 0 {
        ez
    } else {
        -ez
    };
    if dx >= dz {
        dx
    } else {
        dz
    }
}

/// The chunks an edit at `pos` has to be redrawn in: its own, and each neighbour whose
/// seam it touches (west, east, north, south, in that order).
pub open spec fn dirty_spec(pos: BlockPos) -> Seq<ChunkPos> {
    let c = ChunkPos { x: chunk_of(pos.x as int) as i32, z: chunk_of(pos.z as int) as i32 };
    let lx = local_of(pos.x as int);
    let lz = local_of(pos.z as int);
    seq![c] + (if lx == 0 {
        seq![ChunkPos { x: (c.x - 1) as i32, z: c.z }]
    } else {
        Seq::empty()
    }) + (if lx == CHUNK_SIZE - 1 {
        seq![ChunkPos { x: (c.x + 1) as i32, z: c.z }]
    } else {
        Seq::empty()
    }) + (if lz == 0 {
        seq![ChunkPos { x: c.x, z: (c.z - 1) as i32 }]
    } else {
        Seq::empty()
    }) + (if lz == CHUNK_SIZE - 1 {
        seq![ChunkPos { x: c.x, z: (c.z + 1) as i32 }]
    } else {
        Seq::empty()
    })
}

/// The chunk of the column at `x`, `z`.
pub open spec fn column_chunk(x: int, z: int) -> ChunkPos {
    ChunkPos { x: chunk_of(x) as i32, z: chunk_of(z) as i32 }
}

/// One step along a coordinate crosses into the next chunk exactly from the last block of
/// one, and back exactly from the first.
proof fn lemma_chunk_steps(v: int)
    requires
        i32::MIN <= v <= i32::MAX,
    ensures
        chunk_of(v + 1) == chunk_of(v) + if local_of(v) == CHUNK_SIZE - 1 { 1int } else { 0int },
        chunk_of(v - 1) == chunk_of(v) - if local_of(v) == 0 { 1int } else { 0int },
        0 <= local_of(v) < CHUNK_SIZE,
        i32::MIN / 16 - 1 <= chunk_of(v) <= i32::MAX / 16,
{
    let n = CHUNK_SIZE as int;
    vstd::arithmetic::div_mod::lemma_fundamental_div_mod(v, n);
    vstd::arithmetic::div_mod::lemma_mod_bound(v, n);
    let q = v / n;
    let r = v % n;
    if r == n - 1 {
        vstd::arithmetic::div_mod::lemma_fundamental_div_mod_converse(v + 1, n, q + 1, 0);
    } else {
        vstd::arithmetic::div_mod::lemma_fundamental_div_mod_converse(v + 1, n, q, r + 1);
    }
    if r == 0 {
        vstd::arithmetic::div_mod::lemma_fundamental_div_mod_converse(v - 1, n, q - 1, n - 1);
    } else {
        vstd::arithmetic::div_mod::lemma_fundamental_div_mod_converse(v - 1, n, q, r - 1);
    }
    assert(i32::MIN / 16 - 1 <= q <= i32::MAX / 16) by (nonlinear_arith)
        requires
            v == 16 * q + r,
            0 <= r < 16,
            i32::MIN <= v <= i32::MAX,
    ;
}

/// An edit is redrawn in exactly the chunks that hold the block or a block beside it
/// (west, east, north or south), each once: a face on a seam may have appeared or gone, and
/// no chunk away from the block has anything to redraw.
pub proof fn lemma_dirty_is_every_touching_chunk(pos: BlockPos, q: ChunkPos)
    ensures
        dirty_spec(pos).contains(q) <==> {
            ||| q == column_chunk(pos.x as int, pos.z as int)
            ||| q == column_chunk(pos.x - 1, pos.z as int)
            ||| q == column_chunk(pos.x + 1, pos.z as int)
            ||| q == column_chunk(pos.x as int, pos.z - 1)
            ||| q == column_chunk(pos.x as int, pos.z + 1)
        },
        dirty_spec(pos).no_duplicates(),
{
    lemma_chunk_steps(pos.x as int);
    lemma_chunk_steps(pos.z as int);
    let d = dirty_spec(pos);
    let c = column_chunk(pos.x as int, pos.z as int);
    let others = seq![
        column_chunk(pos.x - 1, pos.z as int),
        column_chunk(pos.x + 1, pos.z as int),
        column_chunk(pos.x as int, pos.z - 1),
        column_chunk(pos.x as int, pos.z + 1),
    ];
    assert(d[0] == c);
    assert forall|k: int| 0 <= k < d.len() implies #[trigger] d[k] == c || others.contains(d[k]) by {
        if k > 0 {
            let lx = local_of(pos.x as int);
            let lz = local_of(pos.z as int);
            assert(d[k] == column_chunk(pos.x - 1, pos.z as int) || d[k] == column_chunk(pos.x + 1, pos.z as int)
                || d[k] == column_chunk(pos.x as int, pos.z - 1) || d[k] == column_chunk(pos.x as int, pos.z + 1));
            if d[k] == column_chunk(pos.x - 1, pos.z as int) {
                assert(others[0] == d[k]);
            } else if d[k] == column_chunk(pos.x + 1, pos.z as int) {
                assert(others[1] == d[k]);
            } else if d[k] == column_chunk(pos.x as int, pos.z - 1) {
                assert(others[2] == d[k]);
            } else {
                assert(others[3] == d[k]);
            }
        }
    }
    if d.contains(q) {
        let k = choose|k: int| 0 <= k < d.len() && d[k] == q;
        assert(d[k] == c || others.contains(d[k]));
    }
    let lx = local_of(pos.x as int);
    let lz = local_of(pos.z as int);
    let p1 = if lx == 0 { seq![column_chunk(pos.x - 1, pos.z as int)] } else { Seq::<ChunkPos>::empty() };
    let p2 = if lx == CHUNK_SIZE - 1 { seq![column_chunk(pos.x + 1, pos.z as int)] } else { Seq::<ChunkPos>::empty() };
    let p3 = if lz == 0 { seq![column_chunk(pos.x as int, pos.z - 1)] } else { Seq::<ChunkPos>::empty() };
    let p4 = if lz == CHUNK_SIZE - 1 { seq![column_chunk(pos.x as int, pos.z + 1)] } else { Seq::<ChunkPos>::empty() };
    assert(d =~= seq![c] + p1 + p2 + p3 + p4);
    let i2: int = 1 + p1.len() as int;
    let i3: int = i2 + p2.len() as int;
    let i4: int = i3 + p3.len() as int;
    if q == c {
        assert(d[0] == q);
    } else if q == column_chunk(pos.x - 1, pos.z as int) {
        if lx == 0 {
            assert(d[1] == q);
        } else {
            assert(q == c);
        }
    } else if q == column_chunk(pos.x + 1, pos.z as int) {
        if lx == CHUNK_SIZE - 1 {
            assert(d[i2] == q);
        } else {
            assert(q == c);
        }
    } else if q == column_chunk(pos.x as int, pos.z - 1) {
        if lz == 0 {
            assert(d[i3] == q);
        } else {
            assert(q == c);
        }
    } else if q == column_chunk(pos.x as int, pos.z + 1) {
        if lz == CHUNK_SIZE - 1 {
            assert(d[i4] == q);
        } else {
            assert(q == c);
        }
    }
}

/// The chunks an edit at `pos` dirties: the one holding it, plus any neighbour whose seam
/// it touches, since a face on that seam may have appeared or gone.
pub fn mark_dirty(pos: BlockPos) -> (r: Vec<ChunkPos>)
    ensures
        r@ == dirty_spec(pos),
{
    let c = pos.chunk();
    let lx = crate::world::local_coord(pos.x);
    let lz = crate::world::local_coord(pos.z);
    proof {
        vstd::arithmetic::div_mod::lemma_fundamental_div_mod(pos.x as int, CHUNK_SIZE as int);
        vstd::arithmetic::div_mod::lemma_fundamental_div_mod(pos.z as int, CHUNK_SIZE as int);
    }
    let mut r: Vec<ChunkPos> = Vec::new();
    r.push(c);
    let ghost s0 = r@;
    if lx == 0 {
        r.push(ChunkPos::new(c.x - 1, c.z));
    }
    let ghost s1 = r@;
    if lx == CHUNK_SIZE - 1 {
        r.push(ChunkPos::new(c.x + 1, c.z));
    }
    let ghost s2 = r@;
    if lz == 0 {
        r.push(ChunkPos::new(c.x, c.z - 1));
    }
    let ghost s3 = r@;
    if lz == CHUNK_SIZE - 1 {
        r.push(ChunkPos::new(c.x, c.z + 1));
    }
    assert(r@ =~= dirty_spec(pos));
    r
}

/// Loaded chunks the player at `center` has walked away from, in the order they are held.
pub fn stale_chunks(loaded: &[ChunkPos], center: ChunkPos) -> (r: Vec<ChunkPos>)
    requires
        forall|k: int| 0 <= k < loaded@.len() ==> near_enough(#[trigger] loaded@[k], center),
    ensures
        r@ == loaded@.filter(|c: ChunkPos| chebyshev_spec(c, center) > UNLOAD_RADIUS),
{
    let ghost far = |c: ChunkPos| chebyshev_spec(c, center) > UNLOAD_RADIUS;
    let mut r: Vec<ChunkPos> = Vec::new();
    let mut i: usize = 0;
    while i < loaded.len()
        invariant
            i <= loaded@.len(),
            forall|k: int| 0 <= k < loaded@.len() ==> near_enough(#[trigger] loaded@[k], center),
            far == (|c: ChunkPos| chebyshev_spec(c, center) > UNLOAD_RADIUS),
            r@ == loaded@.take(i as int).filter(far),
        decreases loaded@.len() - i,
    {
        let c = loaded[i];
        proof {
            reveal_with_fuel(Seq::filter, 1);
            assert(loaded@.take(i + 1).drop_last() =~= loaded@.take(i as int));
            assert(loaded@.take(i + 1).last() == c);
        }
        if chebyshev(c, center) > UNLOAD_RADIUS {
            r.push(c);
        }
        i = i + 1;
    }
    assert(loaded@.take(loaded@.len() as int) =~= loaded@);
    r
}

/// Chunks generated in one frame at most. Spreading the work keeps the first seconds
/// interactive instead of freezing on a wall of generation.
pub const LOAD_BUDGET: usize = 6;

/// The wanted chunks that are not loaded yet, nearest first.
pub open spec fn unloaded(wanted: Seq<ChunkPos>, loaded: Seq<ChunkPos>) -> Seq<ChunkPos> {
    wanted.filter(|c: ChunkPos| !loaded.contains(c))
}

/// At most the first `n` of a run of chunks.
pub open spec fn first_few(s: Seq<ChunkPos>, n: nat) -> Seq<ChunkPos> {
    if s.len() <= n {
        s
    } else {
        s.take(n as int)
    }
}

/// Is the chunk in the list?
fn listed_chunk(list: &[ChunkPos], c: ChunkPos) -> (r: bool)
    ensures
        r == list@.contains(c),
{
    let mut i: usize = 0;
    while i < list.len()
        invariant
            i <= list@.len(),
            forall|k: int| 0 <= k < i ==> list@[k] != c,
        decreases list@.len() - i,
    {
        if list[i] == c {
            return true;
        }
        i = i + 1;
    }
    false
}

/// Which chunks to generate this frame: the nearest wanted ones not loaded yet, no more
/// than [`LOAD_BUDGET`] of them.
pub fn to_generate(wanted: &[ChunkPos], loaded: &[ChunkPos]) -> (r: Vec<ChunkPos>)
    ensures
        r@ == first_few(unloaded(wanted@, loaded@), LOAD_BUDGET as nat),
{
    let ghost fresh = |c: ChunkPos| !loaded@.contains(c);
    let mut r: Vec<ChunkPos> = Vec::new();
    let mut i: usize = 0;
    while i < wanted.len() && r.len() < LOAD_BUDGET
        invariant
            i <= wanted@.len(),
            fresh == (|c: ChunkPos| !loaded@.contains(c)),
            r@ == wanted@.take(i as int).filter(fresh),
            r@.len() <= LOAD_BUDGET,
        decreases wanted@.len() - i,
    {
        let c = wanted[i];
        proof {
            reveal_with_fuel(Seq::filter, 1);
            assert(wanted@.take(i + 1).drop_last() =~= wanted@.take(i as int));
            assert(wanted@.take(i + 1).last() == c);
        }
        if !listed_chunk(loaded, c) {
            r.push(c);
        }
        i = i + 1;
    }
    proof {
        let pre = wanted@.take(i as int);
        let post = wanted@.skip(i as int);
        assert(wanted@ =~= pre + post);
        Seq::<ChunkPos>::filter_distributes_over_add(pre, post, fresh);
        if i < wanted@.len() {
            assert(unloaded(wanted@, loaded@).take(LOAD_BUDGET as int) =~= r@);
        } else {
            assert(pre =~= wanted@);
        }
    }
    r
}

/// How far the square of wanted chunks reaches either way: one past the view, so the
/// ring the mesher looks at always has its neighbours loaded.
pub open spec fn reach() -> int {
    VIEW_RADIUS + 1
}

/// Every chunk in the wanted square around `center`, row by row.
pub open spec fn square(center: ChunkPos) -> Seq<ChunkPos> {
    Seq::new(
        ((2 * reach() + 1) * (2 * reach() + 1)) as nat,
        |i: int|
            ChunkPos {
                x: (center.x + (i % (2 * reach() + 1)) - reach()) as i32,
                z: (center.z + (i / (2 * reach() + 1)) - reach()) as i32,
            },
    )
}

/// How far a chunk is from the center, squared.
pub open spec fn dist2(c: ChunkPos, center: ChunkPos) -> int {
    (c.x - center.x) * (c.x - center.x) + (c.z - center.z) * (c.z - center.z)
}

/// The chunks of the square at squared distance `d`, in row order.
pub open spec fn ring(center: ChunkPos, d: int) -> Seq<ChunkPos> {
    square(center).filter(|c: ChunkPos| dist2(c, center) == d)
}

/// The square's chunks ordered by distance, nearest first, and in row order among equals:
/// every ring from distance zero out to `d`, one after another.
pub open spec fn by_distance(center: ChunkPos, d: int) -> Seq<ChunkPos>
    decreases d + 1,
{
    if d < 0 {
        Seq::empty()
    } else {
        by_distance(center, d - 1) + ring(center, d)
    }
}

/// The furthest a chunk of the square can be, squared.
pub open spec fn furthest() -> int {
    2 * reach() * reach()
}

/// Chunks the player is close enough to want loaded, nearest first, so the world fills in
/// around them rather than in scan order.
pub fn wanted_chunks(center: ChunkPos) -> (r: Vec<ChunkPos>)
    requires
        i32::MIN + reach() <= center.x <= i32::MAX - reach(),
        i32::MIN + reach() <= center.z <= i32::MAX - reach(),
    ensures
        r@ == by_distance(center, furthest()),
{
    let side: i32 = 2 * (VIEW_RADIUS + 1) + 1;
    let mut all: Vec<ChunkPos> = Vec::new();
    let mut dz: i32 = 0;
    while dz < side
        invariant
            0 <= dz <= side,
            side == 2 * reach() + 1,
            i32::MIN + reach() <= center.x <= i32::MAX - reach(),
            i32::MIN + reach() <= center.z <= i32::MAX - reach(),
            all@ == square(center).take(dz * side),
        decreases side - dz,
    {
        let mut dx: i32 = 0;
        while dx < side
            invariant
                0 <= dx <= side,
                0 <= dz < side,
                side == 2 * reach() + 1,
                i32::MIN + reach() <= center.x <= i32::MAX - reach(),
                i32::MIN + reach() <= center.z <= i32::MAX - reach(),
                all@ == square(center).take(dz * side + dx),
            decreases side - dx,
        {
            let c = ChunkPos::new(center.x - (VIEW_RADIUS + 1) + dx, center.z - (VIEW_RADIUS + 1) + dz);
            proof {
                let i: int = dz * side + dx;
                let w: int = side as int;
                assert(i % w == dx && i / w == dz) by (nonlinear_arith)
                    requires
                        i == dz * w + dx,
                        0 <= dx < w,
                        0 <= dz,
                        w > 0,
                ;
                assert(0 <= i < w * w) by (nonlinear_arith)
                    requires
                        i == dz * w + dx,
                        0 <= dx < w,
                        0 <= dz < w,
                ;
                assert(square(center)[i] == c);
                assert(square(center).take(i + 1) =~= square(center).take(i).push(c));
            }
            all.push(c);
            dx = dx + 1;
        }
        assert(dz * side + side == (dz + 1) * side) by (nonlinear_arith);
        dz = dz + 1;
    }
    assert(side * side == (2 * reach() + 1) * (2 * reach() + 1));
    assert(square(center).take(side * side) =~= square(center));
    let mut r: Vec<ChunkPos> = Vec::new();
    let mut d: i32 = 0;
    let most: i32 = 2 * (VIEW_RADIUS + 1) * (VIEW_RADIUS + 1);
    while d <= most
        invariant
            0 <= d <= most + 1,
            most == furthest(),
            all@ == square(center),
            i32::MIN + reach() <= center.x <= i32::MAX - reach(),
            i32::MIN + reach() <= center.z <= i32::MAX - reach(),
            r@ == by_distance(center, d - 1),
        decreases most + 1 - d,
    {
        let ghost at_d = |c: ChunkPos| dist2(c, center) == d;
        let ghost base = r@;
        let mut i: usize = 0;
        while i < all.len()
            invariant
                i <= all@.len(),
                all@ == square(center),
                0 <= d <= most,
                most == furthest(),
                i32::MIN + reach() <= center.x <= i32::MAX - reach(),
                i32::MIN + reach() <= center.z <= i32::MAX - reach(),
                at_d == (|c: ChunkPos| dist2(c, center) == d),
                r@ == base + all@.take(i as int).filter(at_d),
            decreases all@.len() - i,
        {
            let c = all[i];
            proof {
                reveal_with_fuel(Seq::filter, 1);
                assert(all@.take(i + 1).drop_last() =~= all@.take(i as int));
                assert(all@.take(i + 1).last() == c);
                let k = i as int;
                let side = 2 * reach() + 1;
                assert(0 <= k % side < side && 0 <= k / side < side) by (nonlinear_arith)
                    requires
                        0 <= k < side * side,
                        side > 0,
                ;
                assert(c == square(center)[k]);
                assert(-reach() <= c.x - center.x <= reach());
                assert(-reach() <= c.z - center.z <= reach());
            }
            let ddx = c.x - center.x;
            let ddz = c.z - center.z;
            assert(0 <= ddx * ddx <= 81 && 0 <= ddz * ddz <= 81) by (nonlinear_arith)
                requires
                    -9 <= ddx <= 9,
                    -9 <= ddz <= 9,
            ;
            if ddx * ddx + ddz * ddz == d {
                r.push(c);
            }
            i = i + 1;
        }
        assert(all@.take(all@.len() as int) =~= all@);
        d = d + 1;
    }
    r
}

/// Everything the rings out to `d` hold is in the square.
proof fn lemma_by_distance_in_square(center: ChunkPos, d: int, c: ChunkPos)
    requires
        by_distance(center, d).contains(c),
    ensures
        square(center).contains(c),
    decreases d + 1,
{
    if d >= 0 {
        let front = by_distance(center, d - 1);
        let k = choose|k: int| 0 <= k < by_distance(center, d).len() && by_distance(center, d)[k] == c;
        if k < front.len() {
            assert(front[k] == c);
            lemma_by_distance_in_square(center, d - 1, c);
        } else {
            assert(ring(center, d)[k - front.len()] == c);
            square(center).lemma_filter_contains_rev(|x: ChunkPos| dist2(x, center) == d, c);
        }
    }
}

/// A chunk that is wanted is never let go of in the same breath: everything the load ring
/// asks for is well inside the unload radius, so walking a line never loads and drops the
/// same chunk.
pub proof fn lemma_wanted_are_kept(center: ChunkPos, c: ChunkPos)
    requires
        i32::MIN + reach() <= center.x <= i32::MAX - reach(),
        i32::MIN + reach() <= center.z <= i32::MAX - reach(),
        by_distance(center, furthest()).contains(c),
    ensures
        chebyshev_spec(c, center) <= reach() < UNLOAD_RADIUS,
{
    lemma_by_distance_in_square(center, furthest(), c);
    let k = choose|k: int| 0 <= k < square(center).len() && square(center)[k] == c;
    let side = 2 * reach() + 1;
    assert(0 <= k % side < side && 0 <= k / side < side) by (nonlinear_arith)
        requires
            0 <= k < side * side,
            side > 0,
    ;
}

/// Every rule an edit must satisfy, in one place, applied by the host to its own player
/// and to every peer alike: breaking needs the breaker's reach and never takes bedrock;
/// placing is arm's length, only a voxel some item places, only into empty space, and
/// never inside a player.
///
/// What is measured in space (whether `pos` is in reach, whether a block there would
/// overlap somebody standing) is measured by the caller and handed in.
pub open spec fn edit_is_legal_spec(current: Block, block: Block, in_reach: bool, at_arms_length: bool, traps: bool) -> bool {
    if block == Block::Air {
        in_reach && current != Block::Bedrock
    } else {
        at_arms_length && (exists|i: Item| places_spec(i) == Some(block)) && current == Block::Air && !traps
    }
}

/// The world's rules, case by case: bedrock is never broken and never placed; a block goes
/// only into empty space, never inside anybody, and only one an item places; breaking
/// needs reach and placing arm's length; and an edit passing every one of those stands.
pub proof fn lemma_edit_rules(current: Block, block: Block, in_reach: bool, at_arms_length: bool, traps: bool)
    ensures
        current == Block::Bedrock ==> !edit_is_legal_spec(current, block, in_reach, at_arms_length, traps),
        block == Block::Bedrock ==> !edit_is_legal_spec(current, block, in_reach, at_arms_length, traps),
        block != Block::Air && (current != Block::Air || traps || !at_arms_length) ==> !edit_is_legal_spec(
            current,
            block,
            in_reach,
            at_arms_length,
            traps,
        ),
        block == Block::Air && !in_reach ==> !edit_is_legal_spec(current, block, in_reach, at_arms_length, traps),
        block == Block::Air && in_reach && current != Block::Bedrock ==> edit_is_legal_spec(
            current,
            block,
            in_reach,
            at_arms_length,
            traps,
        ),
        block != Block::Air && block != Block::Bedrock && current == Block::Air && at_arms_length && !traps
            ==> edit_is_legal_spec(current, block, in_reach, at_arms_length, traps),
{
    if block != Block::Air && block != Block::Bedrock {
        let i = placing_spec(block)->0;
        assert(places_spec(i) == Some(block));
    }
}

/// Whether an edit may go ahead, by the rules above.
pub fn edit_is_legal(current: Block, block: Block, in_reach: bool, at_arms_length: bool, traps: bool) -> (r: bool)
    ensures
        r == edit_is_legal_spec(current, block, in_reach, at_arms_length, traps),
{
    match block {
        Block::Air => in_reach && current != Block::Bedrock,
        _ => at_arms_length && block.placeable() && current == Block::Air && !traps,
    }
}

/// Whether the pile can pay for writing `block`: placing spends one of the item that
/// places it, and breaking costs nothing.
pub fn can_pay(inventory: &Inventory, block: Block) -> (r: bool)
    ensures
        r == match placing_spec(block) {
            Some(item) => count_of(inventory@, item) > 0,
            None => true,
        },
{
    match Item::placing(block) {
        Some(item) => inventory.count(item) > 0,
        None => true,
    }
}

/// The pile after an edit that happened: placing spent the item it placed, and breaking
/// gathered whatever was standing there (air was never anything and bedrock is nobody's).
pub open spec fn settled(pile: Seq<u32>, current: Block, block: Block) -> Seq<u32> {
    match placing_spec(block) {
        Some(item) => taken(pile, item, 1),
        None => match placing_spec(current) {
            Some(item) => added(pile, item, 1),
            None => pile,
        },
    }
}

/// Breaking a block puts one of what it was into the pocket, however many are there
/// already, and placing one spends exactly one; nothing else in the pile changes either way.
pub proof fn lemma_edits_settle_by_one(pile: Seq<u32>, current: Block, block: Block, other: Item)
    requires
        pile.len() == ITEM_COUNT,
    ensures
        block == Block::Air && placing_spec(current) is Some ==> count_of(
            settled(pile, current, block),
            placing_spec(current)->0,
        ) == sat_add(count_of(pile, placing_spec(current)->0), 1),
        placing_spec(block) is Some && count_of(pile, placing_spec(block)->0) > 0 ==> count_of(
            settled(pile, current, block),
            placing_spec(block)->0,
        ) == count_of(pile, placing_spec(block)->0) - 1,
        (placing_spec(block) is None ==> placing_spec(current) != Some(other)) && placing_spec(block)
            != Some(other) ==> count_of(settled(pile, current, block), other) == count_of(pile, other),
{
    lemma_index_inverse(other);
    if let Some(i) = placing_spec(current) {
        lemma_index_inverse(i);
    }
    if let Some(i) = placing_spec(block) {
        lemma_index_inverse(i);
    }
}

/// Settles an edit the world has taken: one function, so the world and the pile cannot
/// end up disagreeing about an edit that half happened.
pub fn settle(inventory: &mut Inventory, current: Block, block: Block)
    requires
        match placing_spec(block) {
            Some(item) => count_of(old(inventory)@, item) > 0,
            None => true,
        },
    ensures
        final(inventory)@ == settled(old(inventory)@, current, block),
{
    match Item::placing(block) {
        Some(item) => {
            let paid = inventory.take(item, 1);
            assert(paid);
        },
        None => {
            if let Some(item) = Item::placing(current) {
                inventory.add(item, 1);
            }
        },
    }
}

/// A pose's car, as far as it is believed: somebody with no car in their pile is shown
/// without one, whatever they say. Where a car is stays the driver's word; whether there
/// is one is the pile's.
pub fn vouched<T>(car: Option<T>, owner: &Inventory) -> (r: Option<T>)
    ensures
        r == (if count_of(owner@, Item::Car) > 0 {
            car
        } else {
            None
        }),
{
    if owner.count(Item::Car) > 0 {
        car
    } else {
        None
    }
}

/// A chunk at squared distance `d` or nearer, on the square, is in the rings out to `d`, and
/// everything in them is that near.
proof fn lemma_by_distance_holds(center: ChunkPos, d: int, c: ChunkPos)
    ensures
        square(center).contains(c) && 0 <= dist2(c, center) <= d ==> by_distance(center, d).contains(c),
        by_distance(center, d).contains(c) ==> dist2(c, center) <= d,
    decreases d + 1,
{
    if d >= 0 {
        let front = by_distance(center, d - 1);
        let here = ring(center, d);
        let p = |x: ChunkPos| dist2(x, center) == d;
        lemma_by_distance_holds(center, d - 1, c);
        if square(center).contains(c) && dist2(c, center) == d {
            let k = choose|k: int| 0 <= k < square(center).len() && square(center)[k] == c;
            square(center).lemma_filter_contains(p, k);
            let j = choose|j: int| 0 <= j < here.len() && here[j] == c;
            assert(by_distance(center, d)[front.len() + j] == c);
        }
        if square(center).contains(c) && 0 <= dist2(c, center) < d {
            let j = choose|j: int| 0 <= j < front.len() && front[j] == c;
            assert(by_distance(center, d)[j] == c);
        }
        if by_distance(center, d).contains(c) {
            let k = choose|k: int| 0 <= k < by_distance(center, d).len() && by_distance(center, d)[k] == c;
            if k < front.len() {
                assert(front[k] == c);
            } else {
                assert(here[k - front.len()] == c);
                square(center).lemma_filter_contains_rev(p, c);
                #[allow(deprecated)]
                square(center).filter_lemma(p);
                assert(p(here[k - front.len()]));
            }
        }
    }
}

/// The rings come nearest first: no chunk is listed after one further out.
proof fn lemma_by_distance_sorted(center: ChunkPos, d: int)
    ensures
        forall|i: int, j: int|
            0 <= i < j < by_distance(center, d).len() ==> dist2(#[trigger] by_distance(center, d)[i], center)
                <= dist2(#[trigger] by_distance(center, d)[j], center),
    decreases d + 1,
{
    if d >= 0 {
        lemma_by_distance_sorted(center, d - 1);
        let front = by_distance(center, d - 1);
        let here = ring(center, d);
        let p = |x: ChunkPos| dist2(x, center) == d;
        #[allow(deprecated)]
        square(center).filter_lemma(p);
        let all = by_distance(center, d);
        assert forall|i: int, j: int| 0 <= i < j < all.len() implies dist2(#[trigger] all[i], center)
            <= dist2(#[trigger] all[j], center) by {
            if j < front.len() {
                assert(all[i] == front[i] && all[j] == front[j]);
            } else if i < front.len() {
                assert(all[i] == front[i]);
                assert(front.contains(front[i]));
                lemma_by_distance_holds(center, d - 1, front[i]);
                assert(all[j] == here[j - front.len()]);
                assert(p(here[j - front.len()]));
            } else {
                assert(all[i] == here[i - front.len()] && all[j] == here[j - front.len()]);
                assert(p(here[i - front.len()]) && p(here[j - front.len()]));
            }
        }
    }
}

/// The chunks a player wants are exactly those no more than [`reach`] chunks away either
/// way, nearest first.
pub proof fn lemma_wanted_is_the_square_nearest_first(center: ChunkPos, c: ChunkPos)
    requires
        i32::MIN + reach() <= center.x <= i32::MAX - reach(),
        i32::MIN + reach() <= center.z <= i32::MAX - reach(),
    ensures
        by_distance(center, furthest()).contains(c) <==> chebyshev_spec(c, center) <= reach(),
        forall|i: int, j: int|
            0 <= i < j < by_distance(center, furthest()).len() ==> dist2(
                #[trigger] by_distance(center, furthest())[i],
                center,
            ) <= dist2(#[trigger] by_distance(center, furthest())[j], center),
{
    lemma_by_distance_sorted(center, furthest());
    if by_distance(center, furthest()).contains(c) {
        lemma_wanted_are_kept(center, c);
    }
    if chebyshev_spec(c, center) <= reach() {
        let side = 2 * reach() + 1;
        let a = c.x - center.x + reach();
        let b = c.z - center.z + reach();
        assert(0 <= a < side && 0 <= b < side);
        let k = a + b * side;
        assert(0 <= k < side * side) by (nonlinear_arith)
            requires
                0 <= a < side,
                0 <= b < side,
                k == a + b * side,
        ;
        vstd::arithmetic::div_mod::lemma_fundamental_div_mod_converse(k, side, b, a);
        assert(square(center)[k] == c);
        let dx = c.x - center.x;
        let dz = c.z - center.z;
        assert(0 <= dist2(c, center) <= furthest()) by (nonlinear_arith)
            requires
                -reach() <= dx <= reach(),
                -reach() <= dz <= reach(),
                dist2(c, center) == dx * dx + dz * dz,
                furthest() == 2 * reach() * reach(),
        ;
        lemma_by_distance_holds(center, furthest(), c);
    }
}

/// A frame generates only wanted chunks that are not loaded yet, never more than
/// [`LOAD_BUDGET`], and, when it generates fewer, every missing wanted chunk.
pub proof fn lemma_generate_what_is_missing(wanted: Seq<ChunkPos>, loaded: Seq<ChunkPos>, c: ChunkPos)
    ensures
        first_few(unloaded(wanted, loaded), LOAD_BUDGET as nat).contains(c) ==> wanted.contains(c)
            && !loaded.contains(c),
        first_few(unloaded(wanted, loaded), LOAD_BUDGET as nat).len() <= LOAD_BUDGET,
        first_few(unloaded(wanted, loaded), LOAD_BUDGET as nat).len() < LOAD_BUDGET && wanted.contains(c)
            && !loaded.contains(c) ==> first_few(unloaded(wanted, loaded), LOAD_BUDGET as nat).contains(c),
{
    let p = |x: ChunkPos| !loaded.contains(x);
    let u = unloaded(wanted, loaded);
    let f = first_few(u, LOAD_BUDGET as nat);
    if f.contains(c) {
        let k = choose|k: int| 0 <= k < f.len() && f[k] == c;
        assert(u[k] == c);
        wanted.lemma_filter_contains_rev(p, c);
        #[allow(deprecated)]
        wanted.filter_lemma(p);
        assert(p(u[k]));
    }
    if f.len() < LOAD_BUDGET && wanted.contains(c) && !loaded.contains(c) {
        let k = choose|k: int| 0 <= k < wanted.len() && wanted[k] == c;
        wanted.lemma_filter_contains(p, k);
        assert(f == u);
    }
}

/// What is let go of is exactly what is loaded and further than [`UNLOAD_RADIUS`] away.
pub proof fn lemma_stale_is_what_is_far(loaded: Seq<ChunkPos>, center: ChunkPos, c: ChunkPos)
    ensures
        loaded.filter(|x: ChunkPos| chebyshev_spec(x, center) > UNLOAD_RADIUS).contains(c) <==> loaded.contains(c)
            && chebyshev_spec(c, center) > UNLOAD_RADIUS,
{
    let p = |x: ChunkPos| chebyshev_spec(x, center) > UNLOAD_RADIUS;
    let f = loaded.filter(p);
    if f.contains(c) {
        loaded.lemma_filter_contains_rev(p, c);
        #[allow(deprecated)]
        loaded.filter_lemma(p);
        let k = choose|k: int| 0 <= k < f.len() && f[k] == c;
        assert(p(f[k]));
    }
    if loaded.contains(c) && chebyshev_spec(c, center) > UNLOAD_RADIUS {
        let k = choose|k: int| 0 <= k < loaded.len() && loaded[k] == c;
        loaded.lemma_filter_contains(p, k);
    }
}

} // verus!
