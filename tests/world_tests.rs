use rustly::ai::{monster_decide, MonsterAction};
use rustly::components::{BlocksTile, CombatStats, Monster, Player, Position, Viewshed};
use rustly::map::{GameMap, TileType};
use rustly::rect::Room;
use rustly::world::{DamageSystem, Entity, MonsterAI, RunState, State, World};

struct Nav<'a>(&'a GameMap);

impl<'a> rltk::BaseMap for Nav<'a> {
    fn get_available_exits(&self, idx: usize) -> rltk::SmallVec<[(usize, f32); 10]> {
        self.0.get_available_exits(idx).into_iter().map(|j| (j, 1.0)).collect()
    }

    fn get_pathing_distance(&self, a: usize, b: usize) -> f32 {
        let (ax, ay) = self.0.idx_xy(a);
        let (bx, by) = self.0.idx_xy(b);
        rltk::DistanceAlg::Pythagoras.distance2d(rltk::Point::new(ax, ay), rltk::Point::new(bx, by))
    }
}

fn route(map: &GameMap, from: Position, to: Position) -> Option<Vec<usize>> {
    let path = rltk::a_star_search(map.xy_idx(from.x, from.y), map.xy_idx(to.x, to.y), &Nav(map));
    if path.success {
        Some(path.steps)
    } else {
        None
    }
}

fn dist2(a: Position, b: Position) -> i64 {
    let dx = (a.x - b.x) as i64;
    let dy = (a.y - b.y) as i64;
    dx * dx + dy * dy
}

fn fighter(hp: i32) -> Entity {
    let mut e = Entity::new();
    e.stats = Some(CombatStats { max_hp: 10, current_hp: hp, defence: 1, power: 4 });
    e
}

fn open_world(w: i32, h: i32, player: Position) -> World {
    let mut map = GameMap::filled(w, h, TileType::Floor);
    map.start_pos = (player.x, player.y);
    World::new(map)
}

fn seeing(cells: &[Position]) -> Viewshed {
    let mut v = Viewshed::new(8);
    v.visible_tiles = cells.to_vec();
    v.dirty = false;
    v
}

#[test]
fn monster_out_of_sight_idles() {
    let map = GameMap::filled(20, 20, TileType::Floor);
    let player = Position { x: 1, y: 1 };
    let me = Position { x: 11, y: 1 };
    let v = seeing(&[me]);
    let path = route(&map, me, player);
    assert_eq!(monster_decide(&map, &v, me, player, &path), MonsterAction::Idle);
}

#[test]
fn distant_monster_closes_in() {
    let map = GameMap::filled(30, 30, TileType::Floor);
    let player = Position { x: 5, y: 5 };
    let mut me = Position { x: 15, y: 5 };
    assert_eq!(dist2(me, player), 100);
    let v = seeing(&[me, player]);
    let path = route(&map, me, player);
    assert!(path.is_some());
    match monster_decide(&map, &v, me, player, &path) {
        MonsterAction::MoveTo(p) => {
            assert!(dist2(p, player) < dist2(me, player));
            me = p;
        }
        other => panic!("expected a move, got {:?}", other),
    }
    assert_eq!(me, Position { x: 14, y: 5 });
}

#[test]
fn adjacent_monster_attacks_in_place() {
    let map = GameMap::filled(10, 10, TileType::Floor);
    let player = Position { x: 4, y: 4 };
    let me = Position { x: 5, y: 4 };
    let v = seeing(&[me, player]);
    let path = route(&map, me, player);
    assert_eq!(monster_decide(&map, &v, me, player, &path), MonsterAction::Melee);
    let diagonal = Position { x: 5, y: 5 };
    let v2 = seeing(&[diagonal, player]);
    assert_eq!(monster_decide(&map, &v2, diagonal, player, &None), MonsterAction::Melee);
}

#[test]
fn world_step_melee_intent_and_no_move() {
    let player_pos = Position { x: 4, y: 4 };
    let mut world = open_world(10, 10, player_pos);
    let mut p = fighter(10);
    p.player = Some(Player {});
    p.position = Some(player_pos);
    p.viewshed = Some(Viewshed::new(8));
    let pid = world.spawn(p);
    let mut m = fighter(10);
    m.monster = Some(Monster {});
    m.blocks_tile = Some(BlocksTile {});
    m.position = Some(Position { x: 5, y: 4 });
    m.viewshed = Some(seeing(&[Position { x: 4, y: 4 }]));
    let mid = world.spawn(m);
    world.run_monster_ai(&vec![None, None]);
    let monster = world.entities[mid].as_ref().unwrap();
    assert_eq!(monster.wants_to_melee, Some(pid));
    assert_eq!(monster.position, Some(Position { x: 5, y: 4 }));
    world.run_melee();
    let player = world.entities[pid].as_ref().unwrap();
    assert_eq!(player.suffer_damage, vec![3]);
    assert_eq!(world.entities[mid].as_ref().unwrap().wants_to_melee, None);
    world.run_damage();
    let player = world.entities[pid].as_ref().unwrap();
    assert_eq!(player.stats.unwrap().current_hp, 7);
    assert!(player.suffer_damage.is_empty());
}

#[test]
fn walled_off_player_leaves_monster_in_place() {
    let mut map = GameMap::filled(20, 12, TileType::Wall);
    map.apply_room_to_map(&Room { x: 1, y: 1, w: 5, h: 5 });
    map.apply_room_to_map(&Room { x: 10, y: 1, w: 5, h: 5 });
    let player = Position { x: 3, y: 3 };
    let me = Position { x: 12, y: 3 };
    let path = route(&map, me, player);
    assert!(path.is_none());
    let v = seeing(&[me, player]);
    assert_eq!(monster_decide(&map, &v, me, player, &path), MonsterAction::Idle);

    let mut world = World::new(map);
    let mut m = fighter(5);
    m.monster = Some(Monster {});
    m.position = Some(me);
    m.viewshed = Some(v);
    let id = world.spawn(m);
    world.player_pos = player;
    world.run_monster_ai(&vec![path]);
    assert_eq!(world.entities[id].as_ref().unwrap().position, Some(me));
}

#[test]
fn the_dead_leave_at_the_step_boundary() {
    let mut world = open_world(5, 5, Position { x: 0, y: 0 });
    let dead = world.spawn(fighter(0));
    let alive = world.spawn(fighter(1));
    let below = world.spawn(fighter(-4));
    let plain = world.spawn(Entity::new());
    world.run_systems(&vec![]);
    assert!(world.entities[dead].is_none());
    assert!(world.entities[below].is_none());
    assert_eq!(world.entities[alive].as_ref().unwrap().stats.unwrap().current_hp, 1);
    assert!(world.entities[plain].is_some());
}

#[test]
fn damage_from_two_attackers_is_summed_once() {
    let mut world = open_world(5, 5, Position { x: 0, y: 0 });
    let target = world.spawn(fighter(10));
    let mut a = fighter(10);
    a.wants_to_melee = Some(target);
    let mut b = fighter(10);
    b.stats = Some(CombatStats { max_hp: 10, current_hp: 10, defence: 0, power: 9 });
    b.wants_to_melee = Some(target);
    world.spawn(a);
    world.spawn(b);
    let mut stale = fighter(10);
    stale.wants_to_melee = Some(42);
    world.spawn(stale);
    world.run_systems(&vec![]);
    assert!(world.entities[target].is_none());
    for e in world.entities.iter().flatten() {
        assert!(e.wants_to_melee.is_none());
        assert!(e.suffer_damage.is_empty());
    }
}

#[test]
fn player_moves_only_onto_open_cells() {
    let mut map = GameMap::filled(5, 5, TileType::Floor);
    map.tiles[2] = TileType::Wall;
    map.start_pos = (1, 0);
    let mut world = World::new(map);
    let mut p = Entity::new();
    p.player = Some(Player {});
    p.position = Some(Position { x: 1, y: 0 });
    let mut v = Viewshed::new(4);
    v.dirty = false;
    p.viewshed = Some(v);
    let pid = world.spawn(p);
    assert!(!world.try_move_player(1, 0));
    assert!(!world.try_move_player(0, -1) || world.player_pos == Position { x: 1, y: 0 });
    assert!(world.try_move_player(0, 1));
    assert_eq!(world.player_pos, Position { x: 1, y: 1 });
    let pe = world.entities[pid].as_ref().unwrap();
    assert_eq!(pe.position, Some(Position { x: 1, y: 1 }));
    assert!(pe.viewshed.as_ref().unwrap().dirty);
    assert!(world.try_move_player(-100, 100));
    assert_eq!(world.player_pos, Position { x: 0, y: 4 });
}

#[test]
fn session_alternates_steps_and_waiting() {
    let world = open_world(5, 5, Position { x: 0, y: 0 });
    let mut state = State { ecs: world, run_state: RunState::Running };
    state.advance(false, &vec![]);
    assert_eq!(state.run_state, RunState::Paused);
    state.advance(false, &vec![]);
    assert_eq!(state.run_state, RunState::Paused);
    state.advance(true, &vec![]);
    assert_eq!(state.run_state, RunState::Running);
}

#[test]
fn systems_as_values_run_their_pass() {
    let player_pos = Position { x: 2, y: 2 };
    let mut world = open_world(30, 10, player_pos);
    let mut p = fighter(10);
    p.player = Some(Player {});
    p.position = Some(player_pos);
    let pid = world.spawn(p);
    let start = Position { x: 12, y: 2 };
    let mut m = fighter(10);
    m.monster = Some(Monster {});
    m.blocks_tile = Some(BlocksTile {});
    m.position = Some(start);
    m.viewshed = Some(seeing(&[start, player_pos]));
    let mid = world.spawn(m);
    let paths = vec![None, route(&world.map, start, player_pos)];
    MonsterAI {}.run(&mut world, &paths);
    let moved = world.entities[mid].as_ref().unwrap();
    let now = moved.position.unwrap();
    assert!(dist2(now, player_pos) < dist2(start, player_pos));
    assert!(moved.viewshed.as_ref().unwrap().dirty);
    assert!(world.map.blocked[world.map.xy_idx(now.x, now.y)]);
    assert!(!world.map.blocked[world.map.xy_idx(start.x, start.y)]);

    world.entities[pid].as_mut().unwrap().suffer_damage = vec![2, 5];
    DamageSystem {}.run(&mut world);
    let player = world.entities[pid].as_ref().unwrap();
    assert_eq!(player.stats.unwrap().current_hp, 3);
    assert!(player.suffer_damage.is_empty());
}

#[test]
fn full_step_moves_a_distant_monster_closer() {
    let player_pos = Position { x: 3, y: 5 };
    let mut world = open_world(30, 12, player_pos);
    let mut p = fighter(10);
    p.player = Some(Player {});
    p.position = Some(player_pos);
    p.viewshed = Some(Viewshed::new(12));
    world.spawn(p);
    let start = Position { x: 13, y: 5 };
    let mut m = fighter(10);
    m.monster = Some(Monster {});
    m.blocks_tile = Some(BlocksTile {});
    m.position = Some(start);
    m.viewshed = Some(Viewshed::new(12));
    let mid = world.spawn(m);
    world.run_visibility();
    let paths = vec![None, route(&world.map, start, player_pos)];
    world.run_systems(&paths);
    let now = world.entities[mid].as_ref().unwrap().position.unwrap();
    assert!(dist2(now, player_pos) < dist2(start, player_pos));
    let idx = world.map.xy_idx(player_pos.x, player_pos.y);
    assert!(world.map.revealed_tiles[idx]);
}

#[test]
fn second_monster_moves_after_first_attacks() {
    let player_pos = Position { x: 3, y: 3 };
    let mut world = open_world(20, 8, player_pos);
    let mut p = fighter(10);
    p.player = Some(Player {});
    p.position = Some(player_pos);
    let pid = world.spawn(p);
    let near = Position { x: 4, y: 3 };
    let far = Position { x: 12, y: 3 };
    let mut a = fighter(10);
    a.monster = Some(Monster {});
    a.position = Some(near);
    a.viewshed = Some(seeing(&[player_pos]));
    let aid = world.spawn(a);
    let mut b = fighter(10);
    b.monster = Some(Monster {});
    b.position = Some(far);
    b.viewshed = Some(seeing(&[player_pos]));
    let bid = world.spawn(b);
    let paths = vec![None, None, route(&world.map, far, player_pos)];
    world.run_monster_ai(&paths);
    let ea = world.entities[aid].as_ref().unwrap();
    assert_eq!(ea.wants_to_melee, Some(pid));
    assert_eq!(ea.position, Some(near));
    assert!(!ea.viewshed.as_ref().unwrap().dirty);
    let eb = world.entities[bid].as_ref().unwrap();
    assert_eq!(eb.position, Some(Position { x: 11, y: 3 }));
    assert_eq!(eb.wants_to_melee, None);
    assert!(eb.viewshed.as_ref().unwrap().dirty);
}
