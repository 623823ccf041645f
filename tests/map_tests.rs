use rustly::map::{CellView, GameMap, GenerationError, TileType, MAX_ROOM_SIZE, MIN_ROOM_SIZE};
use rustly::rect::Room;

fn floor_reachable(map: &GameMap, from: (i32, i32)) -> Vec<bool> {
    let n = (map.width * map.height) as usize;
    let mut seen = vec![false; n];
    let start = map.xy_idx(from.0, from.1);
    let mut queue = vec![start];
    seen[start] = true;
    while let Some(idx) = queue.pop() {
        let (x, y) = map.idx_xy(idx);
        for (dx, dy) in [(-1, 0), (1, 0), (0, -1), (0, 1)] {
            let (nx, ny) = (x + dx, y + dy);
            if nx >= 0 && nx < map.width && ny >= 0 && ny < map.height {
                let j = map.xy_idx(nx, ny);
                if !seen[j] && map.tiles[j] == TileType::Floor {
                    seen[j] = true;
                    queue.push(j);
                }
            }
        }
    }
    seen
}

#[test]
fn rooms_overlap_only_when_sharing_cells() {
    let a = Room { x: 2, y: 2, w: 4, h: 4 };
    let inside = Room { x: 3, y: 3, w: 1, h: 1 };
    let touching = Room { x: 6, y: 2, w: 3, h: 3 };
    let apart = Room { x: 20, y: 20, w: 2, h: 2 };
    let crossing = Room { x: 5, y: 0, w: 5, h: 3 };
    assert!(a.intersects(&inside));
    assert!(inside.intersects(&a));
    assert!(!a.intersects(&touching));
    assert!(!a.intersects(&apart));
    assert!(a.intersects(&crossing));
    assert!(crossing.intersects(&a));
}

#[test]
fn room_center_rounds_down() {
    assert_eq!(Room { x: 2, y: 4, w: 5, h: 4 }.center(), (4, 6));
    assert_eq!(Room { x: 0, y: 0, w: 1, h: 1 }.center(), (0, 0));
}

#[test]
fn index_conversions_are_inverse() {
    let map = GameMap::filled(7, 5, TileType::Floor);
    for y in 0..5 {
        for x in 0..7 {
            let idx = map.xy_idx(x, y);
            assert_eq!(idx, (y * 7 + x) as usize);
            assert_eq!(map.idx_xy(idx), (x, y));
        }
    }
    for idx in 0..35usize {
        let (x, y) = map.idx_xy(idx);
        assert_eq!(map.xy_idx(x, y), idx);
    }
}

#[test]
fn generated_maps_keep_their_rules() {
    for seed in 0..40u64 {
        let mut rng = rltk::RandomNumberGenerator::seeded(seed);
        let map = match GameMap::new(&mut rng, 80, 50, 30) {
            Ok(m) => m,
            Err(e) => {
                assert_eq!(e, GenerationError::TooFewRooms);
                continue;
            }
        };
        assert_eq!(map.tiles.len(), 80 * 50);
        assert!(map.rooms.len() >= 2);
        assert_eq!(map.start_pos, map.rooms[0].center());
        for r in map.rooms.iter() {
            assert!(r.x >= 1 && r.y >= 1 && r.x + r.w <= 79 && r.y + r.h <= 49);
            assert!(r.w >= MIN_ROOM_SIZE && r.w <= MAX_ROOM_SIZE);
            assert!(r.h >= MIN_ROOM_SIZE && r.h <= MAX_ROOM_SIZE);
        }
        for i in 0..map.rooms.len() {
            for j in 0..map.rooms.len() {
                if i != j {
                    assert!(!map.rooms[i].intersects(&map.rooms[j]));
                }
            }
        }
        let seen = floor_reachable(&map, map.start_pos);
        for r in map.rooms.iter() {
            let (cx, cy) = r.center();
            assert!(seen[map.xy_idx(cx, cy)]);
        }
        for x in 0..80 {
            assert_eq!(map.tiles[map.xy_idx(x, 0)], TileType::Wall);
            assert_eq!(map.tiles[map.xy_idx(x, 49)], TileType::Wall);
        }
    }
}

#[test]
fn generation_is_reproducible_from_a_seed() {
    let mut a = rltk::RandomNumberGenerator::seeded(7);
    let mut b = rltk::RandomNumberGenerator::seeded(7);
    let ma = GameMap::new(&mut a, 80, 50, 30).unwrap();
    let mb = GameMap::new(&mut b, 80, 50, 30).unwrap();
    assert_eq!(ma.tiles, mb.tiles);
    assert_eq!(ma.rooms, mb.rooms);
}

#[test]
fn generation_fails_when_no_room_fits() {
    let mut rng = rltk::RandomNumberGenerator::seeded(3);
    assert_eq!(GameMap::new(&mut rng, 8, 50, 30).err(), Some(GenerationError::TooFewRooms));
    assert_eq!(GameMap::new(&mut rng, 80, 8, 30).err(), Some(GenerationError::TooFewRooms));
    assert_eq!(GameMap::new(&mut rng, 80, 50, 1).err(), Some(GenerationError::TooFewRooms));
    assert_eq!(GameMap::new(&mut rng, 80, 50, 0).err(), Some(GenerationError::TooFewRooms));
}

#[test]
fn carving_touches_only_its_cells() {
    let mut map = GameMap::filled(10, 8, TileType::Wall);
    map.apply_room_to_map(&Room { x: 1, y: 1, w: 3, h: 2 });
    map.apply_horizontal_tunnel(8, 5, 6);
    map.apply_vertical_tunnel(7, 4, 9);
    let mut floors = 0;
    for y in 0..8 {
        for x in 0..10 {
            let in_room = (1..4).contains(&x) && (1..3).contains(&y);
            let in_h = y == 6 && (5..=8).contains(&x);
            let in_v = x == 9 && (4..=7).contains(&y);
            let want = if in_room || in_h || in_v { TileType::Floor } else { TileType::Wall };
            assert_eq!(map.tiles[map.xy_idx(x, y)], want);
            if want == TileType::Floor {
                floors += 1;
            }
        }
    }
    assert_eq!(floors, 6 + 4 + 4);
}

#[test]
fn exits_are_open_side_neighbours() {
    let mut map = GameMap::filled(4, 3, TileType::Floor);
    let corner = map.get_available_exits(0);
    assert_eq!(corner, vec![1, 4]);
    let middle = map.get_available_exits(map.xy_idx(1, 1));
    assert_eq!(middle, vec![4, 6, 1, 9]);
    let wall = map.xy_idx(2, 1);
    map.tiles[wall] = TileType::Wall;
    map.populate_blocked(&vec![map.xy_idx(1, 0), 999]);
    let after = map.get_available_exits(map.xy_idx(1, 1));
    assert_eq!(after, vec![4, 9]);
    assert!(!map.is_walkable(map.xy_idx(2, 1)));
    assert!(!map.is_walkable(map.xy_idx(1, 0)));
    assert!(map.is_walkable(map.xy_idx(0, 0)));
}

#[test]
fn occupancy_is_rebuilt_from_scratch() {
    let mut map = GameMap::filled(3, 3, TileType::Floor);
    map.tiles[4] = TileType::Wall;
    map.populate_blocked(&vec![0, 8]);
    assert_eq!(map.blocked, vec![true, false, false, false, true, false, false, false, true]);
    map.populate_blocked(&vec![]);
    assert_eq!(map.blocked, vec![false, false, false, false, true, false, false, false, false]);
}

#[test]
fn cell_views_follow_the_masks() {
    let mut map = GameMap::filled(2, 1, TileType::Floor);
    assert_eq!(map.cell_view(0), CellView::Hidden);
    map.revealed_tiles[0] = true;
    assert_eq!(map.cell_view(0), CellView::Remembered(TileType::Floor));
    map.visible_tiles[0] = true;
    assert_eq!(map.cell_view(0), CellView::Seen(TileType::Floor));
}

#[test]
fn candidates_are_kept_greedily() {
    let cands = vec![
        Room { x: 1, y: 1, w: 4, h: 3 },
        Room { x: 2, y: 2, w: 4, h: 4 },
        Room { x: 0, y: 5, w: 3, h: 3 },
        Room { x: 10, y: 6, w: 3, h: 2 },
    ];
    let map = GameMap::from_candidates(15, 10, &cands, &vec![true, false, false]).unwrap();
    assert_eq!(map.rooms, vec![cands[0], cands[3]]);
    assert_eq!(map.start_pos, (3, 2));
    // first room's row to the second's column, then down that column
    for y in 0..10 {
        for x in 0..15 {
            let in_room = map.rooms.iter().any(|r| x >= r.x && x < r.x + r.w && y >= r.y && y < r.y + r.h);
            let on_path = (y == 2 && (3..=11).contains(&x)) || (x == 11 && (2..=7).contains(&y));
            let want = if in_room || on_path { TileType::Floor } else { TileType::Wall };
            assert_eq!(map.tiles[map.xy_idx(x, y)], want, "cell {},{}", x, y);
        }
    }
}

#[test]
fn one_kept_candidate_is_not_enough() {
    let cands = vec![Room { x: 1, y: 1, w: 4, h: 3 }, Room { x: 2, y: 2, w: 2, h: 2 }];
    assert_eq!(GameMap::from_candidates(15, 10, &cands, &vec![]).err(), Some(GenerationError::TooFewRooms));
}

#[test]
fn small_grids_fit_no_two_rooms() {
    let mut rng = rltk::RandomNumberGenerator::seeded(11);
    for _ in 0..5 {
        assert!(GameMap::new(&mut rng, 2 * MIN_ROOM_SIZE + 1, 2 * MIN_ROOM_SIZE + 1, 50).is_err());
    }
}
