use rustly::components::{Position, Viewshed};
use rustly::map::{GameMap, TileType};
use rustly::visibility::update_viewshed;

fn view_from(map: &mut GameMap, at: Position, range: i32, player: bool) -> Vec<Position> {
    let mut v = Viewshed::new(range);
    update_viewshed(map, &mut v, at, player);
    assert!(!v.dirty);
    v.visible_tiles
}

#[test]
fn open_ground_sight_is_symmetric() {
    let mut map = GameMap::filled(21, 21, TileType::Floor);
    let range = 6;
    let a = Position { x: 10, y: 10 };
    let seen_from_a = view_from(&mut map, a, range, false);
    assert!(seen_from_a.contains(&a));
    for b in seen_from_a.iter() {
        let back = view_from(&mut map, *b, range, false);
        assert!(back.contains(&a), "{:?} sees a but not back", b);
    }
    for y in 0..21 {
        for x in 0..21 {
            let b = Position { x, y };
            if !seen_from_a.contains(&b) {
                let back = view_from(&mut map, b, range, false);
                assert!(!back.contains(&a));
            }
        }
    }
}

#[test]
fn walls_hide_what_lies_behind() {
    let mut map = GameMap::filled(15, 5, TileType::Floor);
    for y in 0..5 {
        let idx = map.xy_idx(7, y);
        map.tiles[idx] = TileType::Wall;
    }
    let seen = view_from(&mut map, Position { x: 3, y: 2 }, 10, false);
    assert!(seen.contains(&Position { x: 7, y: 2 }));
    assert!(!seen.contains(&Position { x: 9, y: 2 }));
    assert!(seen.contains(&Position { x: 5, y: 2 }));
    for p in seen.iter() {
        assert!(p.x >= 0 && p.x < 15 && p.y >= 0 && p.y < 5);
    }
}

#[test]
fn revealed_cells_stay_revealed() {
    let mut map = GameMap::filled(30, 5, TileType::Floor);
    let first = view_from(&mut map, Position { x: 2, y: 2 }, 4, true);
    let idx = map.xy_idx(2, 2);
    assert!(map.revealed_tiles[idx] && map.visible_tiles[idx]);
    for p in first.iter() {
        assert!(map.visible_tiles[map.xy_idx(p.x, p.y)]);
    }
    let before = map.revealed_tiles.clone();
    let second = view_from(&mut map, Position { x: 25, y: 2 }, 4, true);
    for i in 0..before.len() {
        assert!(!before[i] || map.revealed_tiles[i]);
    }
    assert!(map.revealed_tiles[idx]);
    assert!(!map.visible_tiles[idx]);
    let visible_count = map.visible_tiles.iter().filter(|b| **b).count();
    let mut distinct = second.clone();
    distinct.sort_by_key(|p| (p.x, p.y));
    distinct.dedup();
    assert_eq!(visible_count, distinct.len());
}

#[test]
fn other_viewers_leave_the_masks_alone() {
    let mut map = GameMap::filled(10, 10, TileType::Floor);
    view_from(&mut map, Position { x: 5, y: 5 }, 3, false);
    assert!(map.revealed_tiles.iter().all(|b| !*b));
    assert!(map.visible_tiles.iter().all(|b| !*b));
}

#[test]
fn clean_viewshed_is_not_recomputed() {
    let mut map = GameMap::filled(10, 10, TileType::Floor);
    let mut v = Viewshed::new(3);
    v.dirty = false;
    update_viewshed(&mut map, &mut v, Position { x: 5, y: 5 }, true);
    assert!(v.visible_tiles.is_empty());
    assert!(map.revealed_tiles.iter().all(|b| !*b));
}
