use blockgame::game::{LOAD_BUDGET, UNLOAD_RADIUS, can_pay, chebyshev, edit_is_legal, mark_dirty, settle, stale_chunks, to_generate, wanted_chunks};
use blockgame::inventory::Inventory;
use blockgame::menu::step;
use blockgame::player::{Overlap, spawn_column};
use blockgame::registry::{Block, Item};
use blockgame::world::{BlockPos, ChunkPos};

#[test]
fn an_edit_at_a_chunk_seam_dirties_the_neighbour() {
    let dirty = mark_dirty(BlockPos::new(0, 40, 5));
    assert!(dirty.contains(&ChunkPos::new(0, 0)));
    assert!(dirty.contains(&ChunkPos::new(-1, 0)), "west seam");
    let dirty = mark_dirty(BlockPos::new(8, 40, 8));
    assert_eq!(dirty.len(), 1, "an interior edit touches one chunk");
    assert_eq!(mark_dirty(BlockPos::new(-1, 0, -16)), vec![ChunkPos::new(-1, -1), ChunkPos::new(0, -1), ChunkPos::new(-1, -2)]);
}

#[test]
fn walking_a_line_does_not_leak_chunks() {
    let mut loaded: Vec<ChunkPos> = Vec::new();
    let resident = ((2 * UNLOAD_RADIUS + 1) * (2 * UNLOAD_RADIUS + 1)) as usize;
    for walked in 0..25 {
        let center = ChunkPos::new(walked, 0);
        let stale = stale_chunks(&loaded, center);
        loaded.retain(|c| !stale.contains(c));
        for c in wanted_chunks(center) {
            if !loaded.contains(&c) {
                loaded.push(c);
            }
        }
        assert!(loaded.len() <= resident, "step {walked}: {} chunks loaded", loaded.len());
    }
    assert!(!loaded.contains(&ChunkPos::new(0, 0)), "the chunk walked away from is gone");
}

#[test]
fn the_world_fills_in_nearest_first() {
    let center = ChunkPos::new(3, -2);
    let wanted = wanted_chunks(center);
    assert_eq!(wanted.len(), 19 * 19);
    assert_eq!(wanted[0], center);
    assert_eq!(&wanted[1..5], &[ChunkPos::new(3, -3), ChunkPos::new(2, -2), ChunkPos::new(4, -2), ChunkPos::new(3, -1)]);
    let d = |c: &ChunkPos| (c.x - center.x).pow(2) + (c.z - center.z).pow(2);
    assert!(wanted.windows(2).all(|w| d(&w[0]) <= d(&w[1])));
    assert_eq!(chebyshev(ChunkPos::new(-4, 2), ChunkPos::new(1, 1)), 5);
}

#[test]
fn a_modified_client_cannot_delete_bedrock() {
    assert!(!edit_is_legal(Block::Bedrock, Block::Air, true, true, false));
    assert!(edit_is_legal(Block::Stone, Block::Air, true, true, false));
    assert!(!edit_is_legal(Block::Stone, Block::Air, false, true, false), "out of reach");
}

#[test]
fn a_block_may_only_be_placed_into_empty_space() {
    assert!(edit_is_legal(Block::Air, Block::Stone, false, true, false));
    assert!(!edit_is_legal(Block::Dirt, Block::Stone, true, true, false), "something is already there");
    assert!(!edit_is_legal(Block::Air, Block::Stone, true, true, true), "inside a player");
    assert!(!edit_is_legal(Block::Air, Block::Bedrock, true, true, false), "nobody places bedrock");
    assert!(!edit_is_legal(Block::Air, Block::Stone, true, false, false), "building is arm's length");
}

#[test]
fn breaking_a_block_puts_it_in_your_pocket_and_placing_spends_it() {
    let mut inv = Inventory::default();
    assert!(can_pay(&inv, Block::Air));
    settle(&mut inv, Block::Sand, Block::Air);
    assert_eq!(inv.count(Item::Sand), 1);
    assert!(can_pay(&inv, Block::Sand));
    assert!(!can_pay(&inv, Block::Stone), "no stone to place");
    settle(&mut inv, Block::Air, Block::Sand);
    assert_eq!(inv.count(Item::Sand), 0);
    settle(&mut inv, Block::Bedrock, Block::Air);
    assert_eq!(inv, Inventory::default(), "bedrock is nobody's");
}

#[test]
fn the_cursor_wraps_at_both_ends() {
    assert_eq!(step(0, 3, 1), 1);
    assert_eq!(step(2, 3, 1), 0, "past the bottom is the top");
    assert_eq!(step(0, 3, -1), 2, "above the top is the bottom");
    assert_eq!(step(1, 3, 0), 1);
}

#[test]
fn a_cursor_past_the_end_comes_back() {
    assert_eq!(step(9, 2, 0), 1);
    assert_eq!(step(9, 0, 1), 0, "an empty list has no row to be on");
}

#[test]
fn the_scatter_spreads_over_the_spawn_square() {
    let columns: std::collections::HashSet<_> = (0..=255u8).map(|n| spawn_column(n, n.wrapping_mul(37))).collect();
    assert!(columns.len() > 100, "256 players found only {} distinct columns", columns.len());
    for (x, z) in columns {
        assert_eq!(BlockPos::new(x, 0, z).chunk(), ChunkPos::new(0, 0), "column ({x}, {z}) escaped the spawn chunk");
    }
}

#[test]
fn ungenerated_terrain_stops_you_like_a_block() {
    assert!(Overlap::Solid.blocks());
    assert!(Overlap::Unknown.blocks());
    assert!(!Overlap::Clear.blocks());
}

#[test]
fn a_frame_generates_only_the_nearest_few_missing_chunks() {
    let center = ChunkPos::new(0, 0);
    let wanted = wanted_chunks(center);
    let loaded = vec![wanted[0], wanted[2]];
    let fresh = to_generate(&wanted, &loaded);
    assert_eq!(fresh.len(), LOAD_BUDGET);
    assert_eq!(fresh[0], wanted[1]);
    assert_eq!(fresh[1], wanted[3]);
    assert!(fresh.iter().all(|c| !loaded.contains(c)));
    assert!(to_generate(&wanted, &wanted).is_empty(), "nothing twice");
    assert_eq!(to_generate(&wanted[..2], &[]), wanted[..2].to_vec());
}
