use destructible_terrain::actor::{
    actor_keyboard_event_system, actor_laser_spawn_system, actor_move_system, actor_setup_system,
    laser_move_system, Velocity,
};
use destructible_terrain::block::{Block, BlockHeat, BlockKind, BlockSize, SupportState};
use destructible_terrain::damage::{laser_hit_system, BlockToDecimate};
use destructible_terrain::despawned::DespawnedList;
use destructible_terrain::fragment::{block_decimate_system, decimate_block};
use destructible_terrain::geometry::{Aabb, Position};
use destructible_terrain::grid::GridIndex;
use destructible_terrain::map::{
    block_large_setup_system, block_map_setup_system, block_support_setup_system,
    get_blocks_from_map, BlockMap, RawMap,
};
use destructible_terrain::pipeline::tick;
use destructible_terrain::settle::block_falling_system;
use destructible_terrain::support::{block_support_scan_system, Unsupported};
use destructible_terrain::world::{WinSize, World};

fn screen() -> WinSize {
    WinSize { w: 1000, h: 1000 }
}

fn pos(x: i64, y: i64) -> Position {
    Position { x, y }
}

fn block_by_id(world: &World, id: u64) -> Block {
    *world.blocks.iter().find(|b| b.id == id).expect("block is present")
}

fn world_from_map(text: &str) -> World {
    let map = block_map_setup_system(RawMap(text.as_bytes().to_vec()));
    let mut world = World::new(screen());
    block_large_setup_system(&mut world, &map);
    block_support_setup_system(&mut world, &map);
    world
}

#[test]
fn map_newlines_are_removed() {
    let map = block_map_setup_system(RawMap(b"#.\n.S\n".to_vec()));
    assert_eq!(map.0, b"#..S".to_vec());
}

#[test]
fn map_cells_are_found_row_major() {
    let mut cells = vec![b'.'; 40];
    cells[0] = b'#';
    cells[19] = b'#';
    cells[35] = b'S';
    let map = BlockMap(cells);
    assert_eq!(get_blocks_from_map('#', &map), vec![(0, 0), (3, 1)]);
    assert_eq!(get_blocks_from_map('S', &map), vec![(3, 2)]);
    assert_eq!(get_blocks_from_map('x', &map), Vec::<(usize, usize)>::new());
}

#[test]
fn single_large_block_spawns_at_top_left_cell() {
    let world = world_from_map("#");
    assert_eq!(world.blocks.len(), 1);
    let b = world.blocks[0];
    assert_eq!(b.pos, pos(-468, 468));
    assert_eq!(b.size, BlockSize::Large);
    assert_eq!(b.heat, BlockHeat(1000));
    assert_eq!(b.support, SupportState::Supported);
    assert_eq!(b.kind, BlockKind::Structure);
}

#[test]
fn support_beams_are_large_beam_blocks() {
    let world = world_from_map("..S\n");
    assert_eq!(world.blocks.len(), 1);
    let b = world.blocks[0];
    assert_eq!(b.pos, pos(-340, 468));
    assert_eq!(b.size, BlockSize::Large);
    assert_eq!(b.kind, BlockKind::Beam);
}

#[test]
fn second_hit_destroys_large_block_into_sixteen_fragments() {
    let mut world = world_from_map("#");
    let target = world.blocks[0];

    world.spawn_laser(target.pos);
    let events = tick(&mut world);
    assert!(events.is_empty());
    assert_eq!(world.lasers.len(), 0);
    assert_eq!(block_by_id(&world, target.id).heat, BlockHeat(2000));

    world.spawn_laser(target.pos);
    let events = tick(&mut world);
    assert_eq!(events, vec![BlockToDecimate { pos: target.pos, size: BlockSize::Large }]);
    assert!(world.blocks.iter().all(|b| b.id != target.id));
    assert_eq!(world.blocks.len(), 16);
    for b in &world.blocks {
        assert_eq!(b.size, BlockSize::Medium);
        assert_eq!(b.heat, BlockHeat(1000));
    }
}

#[test]
fn fragments_tile_the_large_block() {
    let mut world = World::new(screen());
    decimate_block(&mut world, &BlockToDecimate { pos: pos(100, 200), size: BlockSize::Large });
    assert_eq!(world.blocks.len(), 16);
    let mut k = 0;
    for row in 0..4i64 {
        for col in 0..4i64 {
            let b = world.blocks[k];
            assert_eq!(b.pos, pos(76 + 16 * row, 176 + 16 * col));
            assert_eq!(b.support, SupportState::Unsupported);
            assert_eq!(b.id, k as u64);
            k += 1;
        }
    }
    for a in &world.blocks {
        for b in &world.blocks {
            if a.id != b.id {
                assert!(!a.aabb().collide(&b.aabb()));
            }
        }
    }
}

#[test]
fn medium_block_leaves_no_fragments() {
    let mut world = World::new(screen());
    world.spawn_block(pos(0, 0), BlockSize::Medium, BlockKind::Structure, SupportState::Supported);
    world.spawn_laser(pos(0, 0));
    assert!(laser_hit_system(&mut world).is_empty());
    world.spawn_laser(pos(0, 0));
    let events = laser_hit_system(&mut world);
    assert_eq!(events, vec![BlockToDecimate { pos: pos(0, 0), size: BlockSize::Medium }]);
    assert_eq!(world.blocks.len(), 0);
    block_decimate_system(&mut world, &events);
    assert_eq!(world.blocks.len(), 0);
    assert_eq!(world.next_id, 3);
}

#[test]
fn laser_that_meets_nothing_flies_on() {
    let mut world = World::new(screen());
    world.spawn_block(pos(0, 0), BlockSize::Large, BlockKind::Structure, SupportState::Supported);
    world.spawn_laser(pos(0, 100));
    assert!(laser_hit_system(&mut world).is_empty());
    assert_eq!(world.lasers.len(), 1);
    assert_eq!(world.blocks[0].heat, BlockHeat(1000));
}

#[test]
fn laser_heats_only_the_first_block_it_meets() {
    let mut world = World::new(screen());
    let first = world.spawn_block(pos(0, 0), BlockSize::Large, BlockKind::Structure, SupportState::Supported);
    let second = world.spawn_block(pos(20, 0), BlockSize::Large, BlockKind::Structure, SupportState::Supported);
    world.spawn_laser(pos(10, 0));
    laser_hit_system(&mut world);
    assert_eq!(block_by_id(&world, first).heat, BlockHeat(2000));
    assert_eq!(block_by_id(&world, second).heat, BlockHeat(1000));
    assert!(world.lasers.is_empty());
}

#[test]
fn destroyed_block_is_not_hit_again_in_the_same_pass() {
    let mut world = World::new(screen());
    let first = world.spawn_block(pos(0, 0), BlockSize::Large, BlockKind::Structure, SupportState::Supported);
    let second = world.spawn_block(pos(20, 0), BlockSize::Large, BlockKind::Structure, SupportState::Supported);
    world.spawn_laser(pos(10, 0));
    laser_hit_system(&mut world);
    world.spawn_laser(pos(10, 0));
    world.spawn_laser(pos(10, 0));
    let events = laser_hit_system(&mut world);
    assert_eq!(events.len(), 1);
    assert!(world.blocks.iter().all(|b| b.id != first));
    assert_eq!(block_by_id(&world, second).heat, BlockHeat(2000));
    assert!(world.lasers.is_empty());
}

#[test]
fn heat_rises_and_never_falls() {
    let mut world = World::new(screen());
    let id = world.spawn_block(pos(0, 0), BlockSize::Large, BlockKind::Structure, SupportState::Supported);
    let mut last = block_by_id(&world, id).heat.0;
    for shot in 0..4 {
        if shot % 2 == 0 {
            world.spawn_laser(pos(0, 0));
        }
        tick(&mut world);
        if let Some(b) = world.blocks.iter().find(|b| b.id == id) {
            assert!(b.heat.0 >= last);
            last = b.heat.0;
        }
    }
    assert_eq!(last, 2000);
    assert!(world.blocks.iter().all(|b| b.id != id));
}

#[test]
fn probe_above_decides_support() {
    let mut world = World::new(screen());
    let covered = world.spawn_block(pos(0, 0), BlockSize::Medium, BlockKind::Structure, SupportState::Unsupported);
    world.spawn_block(pos(0, 300), BlockSize::Medium, BlockKind::Structure, SupportState::Supported);
    let bare = world.spawn_block(pos(200, 0), BlockSize::Medium, BlockKind::Structure, SupportState::Unsupported);
    let markers = block_support_scan_system(&mut world);
    assert_eq!(block_by_id(&world, covered).support, SupportState::Supported);
    assert_eq!(block_by_id(&world, bare).support, SupportState::Unsupported);
    assert_eq!(markers, vec![Unsupported { id: bare, pos: pos(200, 0) }]);
}

#[test]
fn block_below_does_not_support() {
    let mut world = World::new(screen());
    let id = world.spawn_block(pos(0, 0), BlockSize::Medium, BlockKind::Structure, SupportState::Unsupported);
    world.spawn_block(pos(0, -16), BlockSize::Medium, BlockKind::Structure, SupportState::Supported);
    let markers = block_support_scan_system(&mut world);
    assert_eq!(markers.len(), 1);
    assert_eq!(block_by_id(&world, id).support, SupportState::Unsupported);
}

#[test]
fn support_scan_twice_gives_the_same_result() {
    let mut world = World::new(screen());
    world.spawn_block(pos(0, 0), BlockSize::Medium, BlockKind::Structure, SupportState::Unsupported);
    world.spawn_block(pos(0, 300), BlockSize::Medium, BlockKind::Structure, SupportState::Unsupported);
    world.spawn_block(pos(400, 0), BlockSize::Large, BlockKind::Structure, SupportState::Supported);
    let first = block_support_scan_system(&mut world);
    let after_first = world.blocks.clone();
    let second = block_support_scan_system(&mut world);
    assert_eq!(first, second);
    assert_eq!(world.blocks, after_first);
    assert_eq!(first.len(), 1);
}

#[test]
fn falling_block_moves_one_unit_per_tick() {
    let mut world = World::new(screen());
    let id = world.spawn_block(pos(5, 100), BlockSize::Medium, BlockKind::Structure, SupportState::Falling);
    for step in 1..=50 {
        block_falling_system(&mut world, Vec::new());
        let b = block_by_id(&world, id);
        assert_eq!(b.pos, pos(5, 100 - step));
        assert_eq!(b.support, SupportState::Falling);
    }
}

#[test]
fn falling_block_rests_on_the_floor() {
    let mut world = World::new(screen());
    let id = world.spawn_block(pos(0, -480), BlockSize::Medium, BlockKind::Structure, SupportState::Falling);
    for _ in 0..30 {
        block_falling_system(&mut world, Vec::new());
    }
    let b = block_by_id(&world, id);
    assert_eq!(b.pos, pos(0, -492));
    assert_eq!(b.support, SupportState::Supported);
}

#[test]
fn falling_blocks_pass_through_each_other() {
    let mut world = World::new(screen());
    let upper = world.spawn_block(pos(0, 20), BlockSize::Medium, BlockKind::Structure, SupportState::Falling);
    world.spawn_block(pos(0, 0), BlockSize::Medium, BlockKind::Structure, SupportState::Falling);
    block_falling_system(&mut world, Vec::new());
    assert_eq!(block_by_id(&world, upper).pos, pos(0, 19));
    assert_eq!(block_by_id(&world, upper).support, SupportState::Falling);
}

#[test]
fn marker_sets_a_block_falling() {
    let mut world = World::new(screen());
    let id = world.spawn_block(pos(0, 0), BlockSize::Medium, BlockKind::Structure, SupportState::Unsupported);
    block_falling_system(&mut world, vec![Unsupported { id, pos: pos(0, 0) }]);
    let b = block_by_id(&world, id);
    assert_eq!(b.support, SupportState::Falling);
    assert_eq!(b.pos, pos(0, -1));
}

#[test]
fn lone_fragment_falls_until_it_lands() {
    let mut world = World::new(screen());
    let ground = world.spawn_block(pos(0, -200), BlockSize::Large, BlockKind::Structure, SupportState::Supported);
    let id = world.spawn_block(pos(0, 0), BlockSize::Medium, BlockKind::Structure, SupportState::Unsupported);

    let markers = block_support_scan_system(&mut world);
    assert_eq!(markers, vec![Unsupported { id, pos: pos(0, 0) }]);
    block_falling_system(&mut world, markers);
    assert_eq!(block_by_id(&world, id).support, SupportState::Falling);
    assert_eq!(block_by_id(&world, id).pos, pos(0, -1));

    for _ in 0..200 {
        tick(&mut world);
    }
    let b = block_by_id(&world, id);
    assert_eq!(b.pos, pos(0, -160));
    assert_eq!(b.support, SupportState::Supported);
    assert_eq!(block_by_id(&world, ground).pos, pos(0, -200));
}

#[test]
fn boxes_that_only_touch_do_not_collide() {
    let a = Aabb::around(pos(0, 0), 16, 16);
    let b = Aabb::around(pos(16, 0), 16, 16);
    let c = Aabb::around(pos(15, 0), 16, 16);
    assert!(!a.collide(&b));
    assert!(a.collide(&c));
    assert_eq!(a, Aabb { min_x: -16, max_x: 16, min_y: -16, max_y: 16 });
}

#[test]
fn despawned_list_remembers_ids() {
    let mut list = DespawnedList::new();
    assert!(!list.contains(7));
    list.insert(7);
    assert!(list.contains(7));
    assert!(!list.contains(8));
}

#[test]
fn lasers_move_right_and_leave_at_the_edge() {
    let mut world = World::new(screen());
    world.spawn_laser(pos(0, 10));
    world.spawn_laser(pos(480, 10));
    laser_move_system(&mut world);
    assert_eq!(world.lasers.len(), 1);
    assert_eq!(world.lasers[0].pos, pos(25, 10));
    assert_eq!(world.lasers[0].id, 0);
}

#[test]
fn actor_starts_low_left_and_steers() {
    let mut actor = actor_setup_system(&screen());
    assert_eq!(actor.pos, pos(-465, -465));
    assert_eq!(actor.velocity, Velocity { x: 0, y: 1 });
    actor_move_system(&mut actor);
    assert_eq!(actor.pos, pos(-465, -455));
    actor_keyboard_event_system(&mut actor, true, true);
    assert_eq!(actor.velocity.y, -1);
    actor_move_system(&mut actor);
    assert_eq!(actor.pos, pos(-465, -465));
    actor_keyboard_event_system(&mut actor, false, true);
    assert_eq!(actor.velocity.y, 1);
    actor_keyboard_event_system(&mut actor, false, false);
    assert_eq!(actor.velocity.y, 0);
}

#[test]
fn actor_fires_from_its_muzzle() {
    let mut world = World::new(screen());
    let actor = actor_setup_system(&screen());
    assert_eq!(actor_laser_spawn_system(&mut world, &actor, false), None);
    assert!(world.lasers.is_empty());
    assert_eq!(actor_laser_spawn_system(&mut world, &actor, true), Some(0));
    assert_eq!(world.lasers[0].pos, pos(-395, -465));
}

#[test]
fn grid_query_finds_exactly_the_overlapping_blocks() {
    let mut world = World::new(screen());
    world.spawn_block(pos(-300, -300), BlockSize::Large, BlockKind::Structure, SupportState::Supported);
    world.spawn_block(pos(0, 0), BlockSize::Large, BlockKind::Structure, SupportState::Supported);
    world.spawn_block(pos(40, 0), BlockSize::Medium, BlockKind::Structure, SupportState::Supported);
    world.spawn_block(pos(-70, 5), BlockSize::Medium, BlockKind::Structure, SupportState::Supported);
    let grid = GridIndex::build(&world.blocks);
    let mut found = grid.query(&world.blocks, &Aabb::around(pos(30, 0), 10, 10));
    found.sort();
    found.dedup();
    assert_eq!(found, vec![1, 2]);
    let mut found = grid.query(&world.blocks, &Aabb::around(pos(-40, 0), 50, 20));
    found.sort();
    found.dedup();
    assert_eq!(found, vec![1, 3]);
    assert!(grid.query(&world.blocks, &Aabb::around(pos(300, 300), 10, 10)).is_empty());
}
