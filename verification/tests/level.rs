use bracket_random::prelude::RandomNumberGenerator;
use dungeoncrawl::distance::{distance_map, most_distant};
use dungeoncrawl::geometry::{Point, Rect};
use dungeoncrawl::map::{map_idx, GridMap, TileType, NUM_TILES};
use dungeoncrawl::map_builder::by_center::sort_by_center;
use dungeoncrawl::map_builder::carve::place_room;
use dungeoncrawl::map_builder::rooms::{
    bends_along_prev_row, RoomsArchitect, MAX_ATTEMPTS, NUM_ROOMS,
};
use dungeoncrawl::map_builder::{BuildError, MapArchitect, MapBuilder};
use dungeoncrawl::{SCREEN_HEIGHT, SCREEN_WIDTH};

fn floor_cells(map: &GridMap) -> Vec<Point> {
    let mut cells: Vec<Point> = Vec::new();
    for y in 0..SCREEN_HEIGHT {
        for x in 0..SCREEN_WIDTH {
            if map.tile_at(Point::new(x, y)) == Some(TileType::Floor) {
                cells.push(Point::new(x, y));
            }
        }
    }
    cells
}

fn build(seed: u64, num_rooms: usize) -> MapBuilder {
    let mut rng = RandomNumberGenerator::seeded(seed);
    let mut architect = RoomsArchitect { num_rooms, max_attempts: 100_000 };
    match architect.new(&mut rng) {
        Ok(level) => level,
        Err(e) => panic!("the level was not built: {:?}", e),
    }
}

fn empty_level() -> MapBuilder {
    MapBuilder {
        map: GridMap::new(),
        rooms: Vec::new(),
        monster_spawns: Vec::new(),
        player_start: Point::zero(),
        amulet_start: Point::zero(),
    }
}

#[test]
fn new_map_is_all_wall() {
    let map = GridMap::new();
    assert_eq!(NUM_TILES, 4000);
    for idx in 0..NUM_TILES {
        assert_eq!(map.tile(idx), TileType::Wall);
    }
    assert!(floor_cells(&map).is_empty());
}

#[test]
fn fill_overwrites_every_cell() {
    let mut map = GridMap::new();
    map.fill(TileType::Floor);
    assert_eq!(floor_cells(&map).len(), 4000);
    map.fill(TileType::Wall);
    assert!(floor_cells(&map).is_empty());
}

#[test]
fn index_is_row_major() {
    assert_eq!(map_idx(0, 0), 0);
    assert_eq!(map_idx(3, 2), 163);
    assert_eq!(map_idx(79, 49), 3999);
}

#[test]
fn bounds_are_checked() {
    let map = GridMap::new();
    assert!(map.in_bounds(Point::new(0, 0)));
    assert!(map.in_bounds(Point::new(79, 49)));
    assert!(!map.in_bounds(Point::new(80, 0)));
    assert!(!map.in_bounds(Point::new(0, 50)));
    assert!(!map.in_bounds(Point::new(-1, 0)));
    assert!(!map.in_bounds(Point::new(0, -1)));
    assert_eq!(map.try_idx(Point::new(3, 2)), Some(163));
    assert_eq!(map.try_idx(Point::new(80, 2)), None);
    assert_eq!(map.try_idx(Point::new(3, -2)), None);
    assert_eq!(map.tile_at(Point::new(-1, -1)), None);
}

#[test]
fn set_tile_changes_one_cell() {
    let mut map = GridMap::new();
    map.set_tile(163, TileType::Floor);
    assert_eq!(floor_cells(&map), vec![Point::new(3, 2)]);
    assert!(map.can_enter_tile(Point::new(3, 2)));
    assert!(!map.can_enter_tile(Point::new(2, 3)));
    assert!(!map.can_enter_tile(Point::new(-3, 2)));
}

#[test]
fn rect_with_size_and_center() {
    let r = Rect::with_size(3, 4, 5, 6);
    assert_eq!(r, Rect { x1: 3, x2: 8, y1: 4, y2: 10 });
    assert_eq!(r.center(), Point::new(5, 7));
    let left = Rect { x1: -5, x2: 0, y1: -3, y2: 0 };
    assert_eq!(left.center(), Point::new(-2, -1));
}

#[test]
fn rects_that_touch_intersect() {
    let a = Rect::with_size(1, 1, 4, 4);
    assert!(a.intersect(&Rect::with_size(5, 1, 2, 2)));
    assert!(a.intersect(&Rect::with_size(3, 3, 5, 5)));
    assert!(!a.intersect(&Rect::with_size(6, 1, 2, 2)));
    assert!(!a.intersect(&Rect::with_size(1, 6, 2, 2)));
    assert!(a.point_in_rect(Point::new(4, 4)));
    assert!(!a.point_in_rect(Point::new(5, 4)));
}

#[test]
fn point_add_is_coordinatewise() {
    assert_eq!(Point::new(3, 4).add(Point::new(-1, 2)), Point::new(2, 6));
    assert_eq!(Point::zero(), Point::new(0, 0));
}

#[test]
fn place_room_carves_and_records() {
    let mut map = GridMap::new();
    let mut rooms: Vec<Rect> = Vec::new();
    let room = Rect::with_size(2, 3, 3, 2);
    assert!(place_room(&mut map, &mut rooms, room));
    assert_eq!(rooms, vec![room]);
    assert_eq!(
        floor_cells(&map),
        vec![
            Point::new(2, 3),
            Point::new(3, 3),
            Point::new(4, 3),
            Point::new(2, 4),
            Point::new(3, 4),
            Point::new(4, 4),
        ]
    );
}

#[test]
fn place_room_rejects_overlap() {
    let mut map = GridMap::new();
    let mut rooms: Vec<Rect> = Vec::new();
    assert!(place_room(&mut map, &mut rooms, Rect::with_size(2, 3, 3, 2)));
    let before = floor_cells(&map);
    assert!(!place_room(&mut map, &mut rooms, Rect::with_size(5, 5, 4, 4)));
    assert_eq!(rooms.len(), 1);
    assert_eq!(floor_cells(&map), before);
    assert!(place_room(&mut map, &mut rooms, Rect::with_size(6, 3, 2, 2)));
    assert_eq!(rooms.len(), 2);
}

#[test]
fn place_room_spares_first_row_and_column() {
    let mut map = GridMap::new();
    let mut rooms: Vec<Rect> = Vec::new();
    assert!(place_room(&mut map, &mut rooms, Rect::with_size(-1, -1, 3, 3)));
    assert_eq!(floor_cells(&map), vec![Point::new(1, 1)]);
}

#[test]
fn horizontal_tunnel_runs_either_way() {
    let mut architect = RoomsArchitect::default();
    let mut map = GridMap::new();
    architect.apply_horizontal_tunnel(&mut map, 5, 2, 3);
    let expected = vec![Point::new(2, 3), Point::new(3, 3), Point::new(4, 3), Point::new(5, 3)];
    assert_eq!(floor_cells(&map), expected);
    let mut other = GridMap::new();
    architect.apply_horizontal_tunnel(&mut other, 2, 5, 3);
    assert_eq!(floor_cells(&other), expected);
}

#[test]
fn tunnels_skip_cells_off_the_grid() {
    let mut architect = RoomsArchitect::default();
    let mut map = GridMap::new();
    architect.apply_horizontal_tunnel(&mut map, -3, 1, 0);
    assert_eq!(floor_cells(&map), vec![Point::new(0, 0), Point::new(1, 0)]);
    architect.apply_vertical_tunnel(&mut map, 48, 60, 79);
    assert_eq!(
        floor_cells(&map),
        vec![Point::new(0, 0), Point::new(1, 0), Point::new(79, 48), Point::new(79, 49)]
    );
    architect.apply_vertical_tunnel(&mut map, 2, 4, 80);
    assert_eq!(floor_cells(&map).len(), 4);
}

#[test]
fn vertical_tunnel_runs_either_way() {
    let mut architect = RoomsArchitect::default();
    let mut map = GridMap::new();
    architect.apply_vertical_tunnel(&mut map, 7, 5, 4);
    assert_eq!(floor_cells(&map), vec![Point::new(4, 5), Point::new(4, 6), Point::new(4, 7)]);
}

#[test]
fn elbow_bends_as_told() {
    let mut architect = RoomsArchitect::default();
    let prev = Point::new(2, 2);
    let next = Point::new(4, 4);
    let mut map = GridMap::new();
    architect.apply_elbow(&mut map, prev, next, true);
    assert_eq!(
        floor_cells(&map),
        vec![
            Point::new(2, 2),
            Point::new(3, 2),
            Point::new(4, 2),
            Point::new(4, 3),
            Point::new(4, 4),
        ]
    );
    let mut other = GridMap::new();
    architect.apply_elbow(&mut other, prev, next, false);
    assert_eq!(
        floor_cells(&other),
        vec![
            Point::new(2, 2),
            Point::new(2, 3),
            Point::new(2, 4),
            Point::new(3, 4),
            Point::new(4, 4),
        ]
    );
}

#[test]
fn sort_by_center_is_stable() {
    let a = Rect::with_size(10, 1, 4, 2);
    let b = Rect::with_size(2, 5, 4, 2);
    let c = Rect::with_size(10, 9, 4, 4);
    let d = Rect::with_size(6, 20, 2, 2);
    let rooms = vec![a, b, c, d];
    assert_eq!(sort_by_center(&rooms), vec![b, d, a, c]);
    assert_eq!(rooms, vec![a, b, c, d]);
    assert_eq!(sort_by_center(&Vec::new()), Vec::<Rect>::new());
}

#[test]
fn corridors_join_rooms_in_order_of_center() {
    let mut rng = RandomNumberGenerator::seeded(7);
    let mut architect = RoomsArchitect::default();
    let mut map = GridMap::new();
    let mut rooms: Vec<Rect> = Vec::new();
    assert!(place_room(&mut map, &mut rooms, Rect::with_size(40, 10, 2, 2)));
    assert!(place_room(&mut map, &mut rooms, Rect::with_size(10, 10, 2, 2)));
    assert!(place_room(&mut map, &mut rooms, Rect::with_size(70, 10, 2, 2)));
    architect.build_corridors(&mut map, &rooms, &mut rng);
    assert_eq!(rooms[0], Rect::with_size(40, 10, 2, 2));
    for x in 11..=71 {
        assert_eq!(map.tile_at(Point::new(x, 11)), Some(TileType::Floor));
    }
    assert_eq!(floor_cells(&map).len(), 61 + 3 + 2 + 2);
}

#[test]
fn corridors_of_one_room_dig_nothing() {
    let mut rng = RandomNumberGenerator::seeded(7);
    let mut architect = RoomsArchitect::default();
    let mut map = GridMap::new();
    let mut rooms: Vec<Rect> = Vec::new();
    assert!(place_room(&mut map, &mut rooms, Rect::with_size(40, 10, 2, 2)));
    let before = floor_cells(&map);
    architect.build_corridors(&mut map, &rooms, &mut rng);
    assert_eq!(floor_cells(&map), before);
    let mut none: Vec<Rect> = Vec::new();
    none.clear();
    architect.build_corridors(&mut map, &none, &mut rng);
    assert_eq!(floor_cells(&map), before);
}

#[test]
fn distances_count_steps() {
    let mut architect = RoomsArchitect::default();
    let mut map = GridMap::new();
    architect.apply_horizontal_tunnel(&mut map, 1, 5, 1);
    architect.apply_vertical_tunnel(&mut map, 1, 4, 5);
    map.set_tile(map_idx(10, 10), TileType::Floor);
    let dist = distance_map(&map, Point::new(1, 1));
    assert_eq!(dist.len(), 4000);
    assert_eq!(dist[map_idx(1, 1)], Some(0));
    assert_eq!(dist[map_idx(3, 1)], Some(2));
    assert_eq!(dist[map_idx(5, 1)], Some(4));
    assert_eq!(dist[map_idx(5, 4)], Some(7));
    assert_eq!(dist[map_idx(10, 10)], None);
    assert_eq!(dist[map_idx(0, 0)], None);
    assert_eq!(dist.iter().filter(|d| d.is_some()).count(), 8);
    assert_eq!(most_distant(&map, Point::new(1, 1)), Some(Point::new(5, 4)));
    assert_eq!(most_distant(&map, Point::new(5, 3)), Some(Point::new(1, 1)));
}

#[test]
fn distance_starts_from_a_wall_too() {
    let mut map = GridMap::new();
    map.set_tile(map_idx(4, 4), TileType::Floor);
    let dist = distance_map(&map, Point::new(3, 4));
    assert_eq!(dist[map_idx(3, 4)], Some(0));
    assert_eq!(dist[map_idx(4, 4)], Some(1));
    assert_eq!(most_distant(&map, Point::new(3, 4)), Some(Point::new(4, 4)));
}

#[test]
fn most_distant_takes_first_of_equals() {
    let mut architect = RoomsArchitect::default();
    let mut map = GridMap::new();
    architect.apply_horizontal_tunnel(&mut map, 3, 7, 5);
    architect.apply_vertical_tunnel(&mut map, 3, 7, 5);
    assert_eq!(most_distant(&map, Point::new(5, 5)), Some(Point::new(5, 3)));
}

#[test]
fn most_distant_fails_without_floor() {
    let map = GridMap::new();
    assert_eq!(most_distant(&map, Point::new(5, 5)), None);
    let mut lone = GridMap::new();
    lone.set_tile(map_idx(5, 5), TileType::Floor);
    assert_eq!(most_distant(&lone, Point::new(5, 5)), None);
}

#[test]
fn most_distant_fails_off_the_grid() {
    let mut map = GridMap::new();
    map.fill(TileType::Floor);
    assert_eq!(most_distant(&map, Point::new(-1, 5)), None);
    assert_eq!(most_distant(&map, Point::new(80, 5)), None);
    let dist = distance_map(&map, Point::new(5, 50));
    assert!(dist.iter().all(|d| d.is_none()));
}

#[test]
fn place_amulet_reports_no_distant_tile() {
    let mut level = empty_level();
    level.player_start = Point::new(5, 5);
    level.amulet_start = Point::new(1, 1);
    assert_eq!(level.place_amulet(), Err(BuildError::NoDistantTile));
    assert_eq!(level.amulet_start, Point::new(1, 1));
    assert_eq!(level.find_most_distant(), None);
}

#[test]
fn place_amulet_sets_the_farthest_cell() {
    let mut level = empty_level();
    let mut architect = RoomsArchitect::default();
    architect.apply_horizontal_tunnel(&mut level.map, 2, 9, 5);
    level.player_start = Point::new(4, 5);
    assert_eq!(level.place_amulet(), Ok(()));
    assert_eq!(level.amulet_start, Point::new(9, 5));
}

#[test]
fn level_fill_overwrites_the_map() {
    let mut level = empty_level();
    level.fill(TileType::Floor);
    assert_eq!(floor_cells(&level.map).len(), 4000);
    assert_eq!(level.player_start, Point::zero());
}

#[test]
fn default_architect() {
    let architect = RoomsArchitect::default();
    assert_eq!(architect.num_rooms, 20);
    assert_eq!(architect.max_attempts, 10000);
    assert_eq!(NUM_ROOMS, 20);
    assert_eq!(MAX_ATTEMPTS, 10000);
}

#[test]
fn no_attempts_no_rooms() {
    let mut rng = RandomNumberGenerator::seeded(1);
    let mut architect = RoomsArchitect { num_rooms: 20, max_attempts: 0 };
    assert!(matches!(architect.new(&mut rng), Err(BuildError::OutOfAttempts)));
}

#[test]
fn too_many_rooms_run_out_of_attempts() {
    let mut rng = RandomNumberGenerator::seeded(1);
    let mut architect = RoomsArchitect { num_rooms: 2000, max_attempts: 5000 };
    let mut map = GridMap::new();
    let mut rooms: Vec<Rect> = Vec::new();
    assert_eq!(
        architect.build_random_rooms(&mut map, &mut rooms, &mut rng),
        Err(BuildError::OutOfAttempts)
    );
    assert!(rooms.len() < 2000);
    assert!(!rooms.is_empty());
}

#[test]
fn rooms_already_there_are_enough() {
    let mut rng = RandomNumberGenerator::seeded(1);
    let mut architect = RoomsArchitect { num_rooms: 1, max_attempts: 0 };
    let mut map = GridMap::new();
    let mut rooms: Vec<Rect> = Vec::new();
    assert!(place_room(&mut map, &mut rooms, Rect::with_size(2, 3, 3, 2)));
    assert_eq!(architect.build_random_rooms(&mut map, &mut rooms, &mut rng), Ok(()));
    assert_eq!(rooms, vec![Rect::with_size(2, 3, 3, 2)]);
}

#[test]
fn generated_rooms_are_drawn_from_the_range() {
    let level = build(11, 20);
    assert_eq!(level.rooms.len(), 20);
    let mut corners: Vec<(i32, i32)> = Vec::new();
    for room in level.rooms.iter() {
        assert!(1 <= room.x1 && room.x1 < SCREEN_WIDTH - 10);
        assert!(1 <= room.y1 && room.y1 < SCREEN_HEIGHT - 10);
        assert!(2 <= room.x2 - room.x1 && room.x2 - room.x1 < 10);
        assert!(2 <= room.y2 - room.y1 && room.y2 - room.y1 < 10);
        if !corners.contains(&(room.x1, room.y1)) {
            corners.push((room.x1, room.y1));
        }
    }
    assert_eq!(corners.len(), 20);
}

#[test]
fn generated_rooms_do_not_overlap() {
    for seed in 0..5u64 {
        let level = build(seed, 20);
        for i in 0..level.rooms.len() {
            for j in 0..i {
                assert!(!level.rooms[i].intersect(&level.rooms[j]));
            }
        }
    }
}

#[test]
fn generated_floor_keeps_off_the_edge() {
    for seed in 0..5u64 {
        let level = build(seed, 20);
        for p in floor_cells(&level.map) {
            assert!(0 < p.x && p.x < SCREEN_WIDTH - 1);
            assert!(0 < p.y && p.y < SCREEN_HEIGHT - 1);
        }
        for room in level.rooms.iter() {
            for y in room.y1..room.y2 {
                for x in room.x1..room.x2 {
                    assert_eq!(level.map.tile_at(Point::new(x, y)), Some(TileType::Floor));
                }
            }
        }
    }
}

#[test]
fn generated_rooms_are_all_connected() {
    for seed in 0..5u64 {
        let level = build(seed, 20);
        for from in level.rooms.iter() {
            let dist = distance_map(&level.map, from.center());
            for to in level.rooms.iter() {
                let c = to.center();
                assert!(dist[map_idx(c.x, c.y)].is_some());
            }
        }
    }
}

#[test]
fn amulet_is_farthest_from_player() {
    for seed in 0..5u64 {
        let level = build(seed, 20);
        let dist = distance_map(&level.map, level.player_start);
        let best = dist.iter().filter_map(|d| *d).max().unwrap();
        assert!(best > 0);
        let amulet = map_idx(level.amulet_start.x, level.amulet_start.y);
        assert_eq!(dist[amulet], Some(best));
        assert_eq!(dist.iter().position(|d| *d == Some(best)), Some(amulet));
        assert_ne!(level.amulet_start, level.player_start);
        assert_eq!(level.map.tile_at(level.amulet_start), Some(TileType::Floor));
    }
}

#[test]
fn monsters_spawn_in_every_room_but_the_first() {
    for seed in 0..5u64 {
        let level = build(seed, 20);
        assert_eq!(level.player_start, level.rooms[0].center());
        assert_eq!(level.monster_spawns.len(), level.rooms.len() - 1);
        for (i, spawn) in level.monster_spawns.iter().enumerate() {
            assert_eq!(*spawn, level.rooms[i + 1].center());
            assert_ne!(*spawn, level.player_start);
        }
    }
}

#[test]
fn level_of_one_room() {
    let level = build(3, 1);
    assert_eq!(level.rooms.len(), 1);
    let room = level.rooms[0];
    let mut interior: Vec<Point> = Vec::new();
    for y in room.y1..room.y2 {
        for x in room.x1..room.x2 {
            interior.push(Point::new(x, y));
        }
    }
    assert_eq!(floor_cells(&level.map), interior);
    assert_eq!(level.player_start, room.center());
    assert!(level.monster_spawns.is_empty());
    let start = level.player_start;
    let mut farthest = interior[0];
    for p in interior.iter() {
        let d = (p.x - start.x).abs() + (p.y - start.y).abs();
        let best = (farthest.x - start.x).abs() + (farthest.y - start.y).abs();
        if d > best {
            farthest = *p;
        }
    }
    assert_eq!(level.amulet_start, farthest);
    assert!(room.point_in_rect(level.amulet_start));
}

#[test]
fn same_seed_same_level() {
    let a = build(42, 20);
    let b = build(42, 20);
    assert_eq!(a.rooms, b.rooms);
    assert_eq!(floor_cells(&a.map), floor_cells(&b.map));
    assert_eq!(a.amulet_start, b.amulet_start);
    let c = build(43, 20);
    assert_ne!(a.rooms, c.rooms);
}

#[test]
fn fewer_attempts_than_rooms_fails() {
    for seed in 0..5u64 {
        let mut rng = RandomNumberGenerator::seeded(seed);
        let mut architect = RoomsArchitect { num_rooms: 3, max_attempts: 2 };
        assert!(matches!(architect.new(&mut rng), Err(BuildError::OutOfAttempts)));
        let mut map = GridMap::new();
        let mut rooms: Vec<Rect> = Vec::new();
        assert_eq!(
            architect.build_random_rooms(&mut map, &mut rooms, &mut rng),
            Err(BuildError::OutOfAttempts)
        );
        assert!(1 <= rooms.len() && rooms.len() <= 2);
    }
}

#[test]
fn attempts_are_used_until_rooms_suffice() {
    for seed in 0..5u64 {
        let mut rng = RandomNumberGenerator::seeded(seed);
        let mut architect = RoomsArchitect { num_rooms: 2, max_attempts: 10_000 };
        let mut map = GridMap::new();
        let mut rooms: Vec<Rect> = Vec::new();
        assert_eq!(architect.build_random_rooms(&mut map, &mut rooms, &mut rng), Ok(()));
        assert_eq!(rooms.len(), 2);
        assert!(!rooms[0].intersect(&rooms[1]));
    }
}

#[test]
fn coin_of_one_bends_along_prev_row() {
    assert!(bends_along_prev_row(1));
    assert!(!bends_along_prev_row(0));
    assert!(!bends_along_prev_row(2));
}

#[test]
fn corridor_takes_one_of_two_bends() {
    let mut seen_along_prev_row = false;
    let mut seen_along_next_row = false;
    for seed in 0..40u64 {
        let mut rng = RandomNumberGenerator::seeded(seed);
        let mut architect = RoomsArchitect::default();
        let mut map = GridMap::new();
        let mut rooms: Vec<Rect> = Vec::new();
        assert!(place_room(&mut map, &mut rooms, Rect::with_size(10, 10, 2, 2)));
        assert!(place_room(&mut map, &mut rooms, Rect::with_size(30, 30, 2, 2)));
        let mut along_prev = GridMap::new();
        let mut along_next = GridMap::new();
        let mut twice: Vec<Rect> = Vec::new();
        assert!(place_room(&mut along_prev, &mut twice, rooms[0]));
        assert!(place_room(&mut along_prev, &mut twice, rooms[1]));
        twice.clear();
        assert!(place_room(&mut along_next, &mut twice, rooms[0]));
        assert!(place_room(&mut along_next, &mut twice, rooms[1]));
        architect.apply_elbow(&mut along_prev, rooms[0].center(), rooms[1].center(), true);
        architect.apply_elbow(&mut along_next, rooms[0].center(), rooms[1].center(), false);
        architect.build_corridors(&mut map, &rooms, &mut rng);
        let dug = floor_cells(&map);
        if dug == floor_cells(&along_prev) {
            seen_along_prev_row = true;
        } else {
            assert_eq!(dug, floor_cells(&along_next));
            seen_along_next_row = true;
        }
    }
    assert!(seen_along_prev_row && seen_along_next_row);
}
