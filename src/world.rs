use vstd::prelude::*;
use crate::components::{cells_of, BlocksTile, CombatStats, Monster, Named, Player, Position, Viewshed};
use crate::map::{GameMap, TileType, lemma_index_round_trip};
use crate::ai::{MonsterAction, monster_decide, in_melee_range, path_view, path_step};
use crate::visibility::{range_ok, update_viewshed, fov_of, seen_index};
use crate::combat::{apply_damage, hp_after, total, resolve_melee, melee_damage};

verus! {

/// One entity and the components it holds.
pub struct Entity {
    pub position: Option<Position>,
    pub viewshed: Option<Viewshed>,
    pub stats: Option<CombatStats>,
    pub name: Option<Named>,
    pub player: Option<Player>,
    pub monster: Option<Monster>,
    pub blocks_tile: Option<BlocksTile>,
    /// The entity this one attacks in the current step.
    pub wants_to_melee: Option<usize>,
    /// Damage taken in the current step, not yet applied.
    pub suffer_damage: Vec<i32>,
}

/// The simulation: entities indexed by their identifier (`None` once
/// removed), the map, and where the player stands.
pub struct World {
    pub entities: Vec<Option<Entity>>,
    pub map: GameMap,
    pub player_pos: Position,
}

/// An entity's components agree with the map and with the step rules.
pub open spec fn entity_ok(map: &GameMap, e: Entity) -> bool {
    &&& (e.position matches Some(p) ==> map.in_bounds(p.x as int, p.y as int))
    &&& (e.viewshed matches Some(v) ==> range_ok(v.range as int))
    &&& forall|k: int| 0 <= k < e.suffer_damage@.len() ==> e.suffer_damage@[k] >= 0
}

/// `a` and `b` hold the same entity but perhaps for its viewshed.
pub open spec fn same_but_viewshed(a: Option<Entity>, b: Option<Entity>) -> bool {
    match (a, b) {
        (Some(x), Some(y)) => {
            &&& x.position == y.position
            &&& x.stats == y.stats
            &&& x.name == y.name
            &&& x.player == y.player
            &&& x.monster == y.monster
            &&& x.blocks_tile == y.blocks_tile
            &&& x.wants_to_melee == y.wants_to_melee
            &&& x.suffer_damage@ == y.suffer_damage@
            &&& (x.viewshed is Some <==> y.viewshed is Some)
        },
        (None, None) => true,
        _ => false,
    }
}

/// The entity has combat stats and its health is below one.
pub open spec fn is_dead(e: Option<Entity>) -> bool {
    match e {
        Some(x) => match x.stats {
            Some(st) => st.current_hp < 1,
            None => false,
        },
        None => false,
    }
}

/// `b` is `a` with its pending damage subtracted from its health and its
/// queue emptied.
pub open spec fn damage_applied(a: Option<Entity>, b: Option<Entity>) -> bool {
    match (a, b) {
        (Some(x), Some(y)) => {
            &&& x.position == y.position
            &&& x.viewshed == y.viewshed
            &&& x.name == y.name
            &&& x.player == y.player
            &&& x.monster == y.monster
            &&& x.blocks_tile == y.blocks_tile
            &&& x.wants_to_melee == y.wants_to_melee
            &&& y.suffer_damage@.len() == 0
            &&& match (x.stats, y.stats) {
                (Some(s), Some(t)) => t == (CombatStats {
                    current_hp: hp_after(s.current_hp as int, total(x.suffer_damage@)) as i32,
                    ..s
                }),
                (None, None) => true,
                _ => false,
            }
        },
        (None, None) => true,
        _ => false,
    }
}

/// The blow that entity `i` of `ents` lands on entity `t` this step: the
/// damage of its power against the defence of `t`, when `i` has combat stats
/// and targets `t`, and `t` is present with combat stats; else nothing.
pub open spec fn blow(ents: Seq<Option<Entity>>, i: int, t: int) -> Seq<i32> {
    match ents[i] {
        Some(a) => match (a.wants_to_melee, a.stats) {
            (Some(k), Some(st)) => if k == t && 0 <= t < ents.len() {
                match ents[t] {
                    Some(d) => match d.stats {
                        Some(ds) => seq![melee_damage(st.power as int, ds.defence as int) as i32],
                        None => Seq::empty(),
                    },
                    None => Seq::empty(),
                }
            } else {
                Seq::empty()
            },
            _ => Seq::empty(),
        },
        None => Seq::empty(),
    }
}

/// The blows that entities `0..k` of `ents` land on entity `t`, in order.
pub open spec fn blows(ents: Seq<Option<Entity>>, t: int, k: int) -> Seq<i32>
    decreases k,
{
    if k <= 0 {
        Seq::empty()
    } else {
        blows(ents, t, k - 1) + blow(ents, k - 1, t)
    }
}

/// `b` is `a` with perhaps another melee intent and more pending damage.
pub open spec fn same_but_combat(a: Option<Entity>, b: Option<Entity>) -> bool {
    match (a, b) {
        (Some(x), Some(y)) => {
            &&& x.position == y.position
            &&& x.viewshed == y.viewshed
            &&& x.stats == y.stats
            &&& x.name == y.name
            &&& x.player == y.player
            &&& x.monster == y.monster
            &&& x.blocks_tile == y.blocks_tile
            &&& x.suffer_damage@.len() <= y.suffer_damage@.len()
            &&& y.suffer_damage@.subrange(0, x.suffer_damage@.len() as int) == x.suffer_damage@
        },
        (None, None) => true,
        _ => false,
    }
}

proof fn lemma_same_but_combat_trans(a: Option<Entity>, b: Option<Entity>, c: Option<Entity>)
    requires
        same_but_combat(a, b),
        same_but_combat(b, c) || b == c,
    ensures
        same_but_combat(a, c),
{
    if a is Some && b != c {
        let x = a->Some_0.suffer_damage@;
        let y = b->Some_0.suffer_damage@;
        let z = c->Some_0.suffer_damage@;
        assert(z.subrange(0, x.len() as int) =~= y.subrange(0, x.len() as int));
    }
}

/// Entity `e` blocks cell `j` of `map`.
pub open spec fn occupies(map: &GameMap, e: Option<Entity>, j: int) -> bool {
    match e {
        Some(x) => match x.position {
            Some(p) => x.blocks_tile is Some && map.idx_of(p.x as int, p.y as int) == j,
            None => false,
        },
        None => false,
    }
}

/// Entity `e` is a monster with a position and a viewshed in which cell
/// `target` lies.
pub open spec fn monster_sees(e: Option<Entity>, target: Position) -> bool {
    match e {
        Some(x) => match (x.position, x.viewshed) {
            (Some(_), Some(v)) => x.monster is Some && cells_of(v.visible_tiles@).contains(
                (target.x as int, target.y as int),
            ),
            _ => false,
        },
        None => false,
    }
}

/// `b` is `a` with perhaps another position, viewshed or melee intent.
pub open spec fn same_but_move(a: Option<Entity>, b: Option<Entity>) -> bool {
    match (a, b) {
        (Some(x), Some(y)) => {
            &&& x.stats == y.stats
            &&& x.name == y.name
            &&& x.player == y.player
            &&& x.monster == y.monster
            &&& x.blocks_tile == y.blocks_tile
            &&& x.suffer_damage@ == y.suffer_damage@
            &&& (x.position is Some <==> y.position is Some)
            &&& (x.viewshed is Some <==> y.viewshed is Some)
        },
        (None, None) => true,
        _ => false,
    }
}

/// `k` is the first player entity of `ents`.
pub open spec fn first_player(ents: Seq<Option<Entity>>, k: int) -> bool {
    &&& 0 <= k < ents.len()
    &&& is_player_entity(ents[k])
    &&& forall|j: int| 0 <= j < k ==> !is_player_entity(#[trigger] ents[j])
}

/// The cell a step of `(dx, dy)` from `p` reaches, held to the map.
pub open spec fn step_target(m: &GameMap, p: Position, dx: int, dy: int) -> (int, int) {
    (clamp_int(p.x + dx, 0, m.width - 1), clamp_int(p.y + dy, 0, m.height - 1))
}

/// The first player of `w` has a position, and the cell a step of `(dx, dy)`
/// reaches from it can be entered.
pub open spec fn player_can_step(w: &World, dx: int, dy: int) -> bool {
    exists|k: int|
        first_player(w.entities@, k) && match w.entities@[k]->Some_0.position {
            Some(p) => w.map.walkable(
                w.map.idx_of(step_target(&w.map, p, dx, dy).0, step_target(&w.map, p, dx, dy).1),
            ),
            None => false,
        }
}

/// Entity `e` is present and is the player.
pub open spec fn is_player_entity(e: Option<Entity>) -> bool {
    match e {
        Some(x) => x.player is Some,
        None => false,
    }
}

/// `v` held to the range `lo..=hi`.
pub open spec fn clamp_int(v: int, lo: int, hi: int) -> int {
    if v < lo {
        lo
    } else if v > hi {
        hi
    } else {
        v
    }
}

/// Whether the simulation advances on this tick or waits for the player.
#[derive(PartialEq, Eq, Structural, Clone, Copy, Debug)]
pub enum RunState {
    Running,
    Paused,
}

/// The session: the world and whether it is waiting for the player.
pub struct State {
    pub ecs: World,
    pub run_state: RunState,
}

/// Entity `y` stands on the cell of the second waypoint of `path` with its
/// viewshed marked dirty.
pub open spec fn stepped_to(map: &GameMap, y: Entity, path: Option<Seq<usize>>) -> bool {
    match path {
        Some(steps) => {
            &&& steps.len() > 1
            &&& steps[1] < map.tiles@.len()
            &&& map.tiles@[steps[1] as int] == TileType::Floor
            &&& y.position == Some(
                Position {
                    x: map.cell_at(steps[1] as int).0 as i32,
                    y: map.cell_at(steps[1] as int).1 as i32,
                },
            )
            &&& match y.viewshed {
                Some(v) => v.dirty,
                None => false,
            }
        },
        None => false,
    }
}

/// Monster `b` either kept the position it had in `a`, or stepped to the cell
/// of the second waypoint of `path` with its viewshed marked dirty.
pub open spec fn moved_along(map: &GameMap, a: Option<Entity>, b: Option<Entity>, path: Option<Seq<usize>>) -> bool {
    match (a, b) {
        (Some(x), Some(y)) => y.position == x.position || stepped_to(map, y, path),
        _ => true,
    }
}

/// Entity `b` stands on cell `idx` of `map`, and it stood elsewhere as `a`.
pub open spec fn moved_onto(map: &GameMap, a: Option<Entity>, b: Option<Entity>, idx: int) -> bool {
    match (a, b) {
        (Some(x), Some(y)) => x.position != y.position && match y.position {
            Some(p) => map.idx_of(p.x as int, p.y as int) == idx,
            None => false,
        },
        _ => false,
    }
}

/// `b`'s viewshed sees what `a`'s saw and is dirty when it was or when the
/// entity moved; its melee intent is kept unless `set_intent`.
pub open spec fn view_and_intent_kept(a: Option<Entity>, b: Option<Entity>, set_intent: bool) -> bool {
    match (a, b) {
        (Some(x), Some(y)) => {
            &&& (!set_intent ==> y.wants_to_melee == x.wants_to_melee)
            &&& match (x.viewshed, y.viewshed) {
                (Some(v), Some(u)) => u.visible_tiles@ == v.visible_tiles@ && u.range == v.range
                    && u.dirty == (v.dirty || x.position != y.position),
                _ => true,
            }
        },
        _ => true,
    }
}

/// The step that the monster policy owes entity `i`: it sees the player, is
/// not adjacent, its route's second waypoint can be entered on `map`, and no
/// earlier entity moved onto that cell.
pub open spec fn step_owed(
    map: &GameMap,
    old_ents: Seq<Option<Entity>>,
    new_ents: Seq<Option<Entity>>,
    player: Position,
    path: Option<Seq<usize>>,
    i: int,
    np: Position,
) -> bool {
    &&& monster_sees(old_ents[i], player)
    &&& !in_melee_range(old_ents[i]->Some_0.position->Some_0, player)
    &&& path_step(map, path) == MonsterAction::MoveTo(np)
    &&& !exists|j: int|
        0 <= j < i && moved_onto(map, old_ents[j], new_ents[j], #[trigger] map.idx_of(
            np.x as int,
            np.y as int,
        ))
}

/// The route handed to entity `i`: `paths[i]`, or none past the end.
pub open spec fn path_for(paths: Seq<Option<Vec<usize>>>, i: int) -> Option<Seq<usize>> {
    if 0 <= i < paths.len() {
        path_view(&paths[i])
    } else {
        None
    }
}

/// `b`'s melee intent targets the player of `ents`, when there is one.
pub open spec fn targets_player(ents: Seq<Option<Entity>>, b: Option<Entity>) -> bool {
    (exists|k: int| 0 <= k < ents.len() && is_player_entity(#[trigger] ents[k])) ==> match b {
        Some(y) => match y.wants_to_melee {
            Some(k) => k < ents.len() && is_player_entity(ents[k as int]),
            None => false,
        },
        None => false,
    }
}

/// Entity `e` is the player, has a position, and its viewshed is dirty.
pub open spec fn dirty_player(e: Option<Entity>) -> bool {
    match e {
        Some(x) => x.player is Some && x.position is Some && match x.viewshed {
            Some(v) => v.dirty,
            None => false,
        },
        None => false,
    }
}

/// The visible cells of entity `e`'s viewshed (empty without one).
pub open spec fn view_of(e: Option<Entity>) -> Seq<Position> {
    match e {
        Some(x) => match x.viewshed {
            Some(v) => v.visible_tiles@,
            None => Seq::empty(),
        },
        None => Seq::empty(),
    }
}

/// `b`'s viewshed is `a`'s after recomputation on `map`: a dirty one of an
/// entity with a position becomes the field of view from there and clean; any
/// other is kept.
pub open spec fn viewshed_updated(map: &GameMap, a: Option<Entity>, b: Option<Entity>) -> bool {
    match (a, b) {
        (Some(x), Some(y)) => match (x.viewshed, y.viewshed) {
            (Some(v), Some(u)) => {
                &&& u.range == v.range
                &&& if v.dirty && x.position is Some {
                    let p = x.position->Some_0;
                    &&& !u.dirty
                    &&& cells_of(u.visible_tiles@) == fov_of(
                        map.tiles@,
                        map.width as int,
                        map.height as int,
                        p.x as int,
                        p.y as int,
                        v.range as int,
                    )
                    &&& forall|k: int|
                        0 <= k < u.visible_tiles@.len() ==> map.in_bounds(
                            u.visible_tiles@[k].x as int,
                            u.visible_tiles@[k].y as int,
                        )
                } else {
                    u.visible_tiles@ == v.visible_tiles@ && u.dirty == v.dirty
                }
            },
            _ => true,
        },
        _ => true,
    }
}

/// Without a dirty player view among entities `0..i`, the masks are kept.
#[verifier::opaque]
pub open spec fn masks_kept(a: World, b: World, i: int) -> bool {
    (forall|m: int| 0 <= m < i ==> !dirty_player(#[trigger] a.entities@[m])) ==> (
    b.map.visible_tiles@ == a.map.visible_tiles@ && b.map.revealed_tiles@ == a.map.revealed_tiles@)
}

/// The visible mask is the view of the last dirty player among `0..i`.
#[verifier::opaque]
pub open spec fn visible_follows(a: World, b: World, i: int) -> bool {
    forall|m: int|
        0 <= m < i && #[trigger] dirty_player(a.entities@[m]) && (forall|q: int|
            m < q < i ==> !dirty_player(#[trigger] a.entities@[q])) ==> forall|j: int|
            0 <= j < b.map.visible_tiles@.len() ==> #[trigger] b.map.visible_tiles@[j]
                == seen_index(&a.map, view_of(b.entities@[m]), j)
}

/// Revealed is the old mask plus the view of every dirty player among `0..i`.
#[verifier::opaque]
pub open spec fn revealed_follows(a: World, b: World, i: int) -> bool {
    forall|j: int|
        0 <= j < b.map.revealed_tiles@.len() ==> #[trigger] b.map.revealed_tiles@[j] == (
        a.map.revealed_tiles@[j] || exists|m: int|
            0 <= m < i && dirty_player(a.entities@[m]) && #[trigger] seen_index(
                &a.map,
                view_of(b.entities@[m]),
                j,
            ))
}

/// The map masks after the visibility pass over entities `0..i`: with no
/// dirty player view among them the masks are kept; the visible mask is the
/// view of the last dirty player; revealed gains every dirty player's view.
pub open spec fn masks_follow(a: World, b: World, i: int) -> bool {
    masks_kept(a, b, i) && visible_follows(a, b, i) && revealed_follows(a, b, i)
}

/// What the visibility pass does, from world `a` to world `b`.
pub open spec fn visibility_post(a: World, b: World) -> bool {
    &&& (b.wf())
    &&& (b.entities@.len() == a.entities@.len())
    &&& (b.player_pos == a.player_pos)
    &&& (b.map.width == a.map.width)
    &&& (b.map.height == a.map.height)
    &&& (b.map.tiles@ == a.map.tiles@)
    &&& (b.map.blocked@ == a.map.blocked@)
    &&& (b.map.rooms@ == a.map.rooms@)
    &&& (b.map.start_pos == a.map.start_pos)
    &&& (forall|i: int|
        0 <= i < b.entities@.len() ==> same_but_viewshed(
            a.entities@[i],
            #[trigger] b.entities@[i],
        ))
    &&& (forall|i: int|
        0 <= i < a.map.revealed_tiles@.len() && a.map.revealed_tiles@[i]
            ==> #[trigger] b.map.revealed_tiles@[i])
    &&& (forall|i: int|
        0 <= i < b.entities@.len() ==> viewshed_updated(
            &a.map,
            a.entities@[i],
            #[trigger] b.entities@[i],
        ))
    &&& masks_follow(a, b, a.entities@.len() as int)
}

/// What the monster pass does with routes `paths`, from `a` to `b`.
pub open spec fn monster_ai_post(a: World, b: World, paths: Seq<Option<Vec<usize>>>) -> bool {
    &&& (b.wf())
    &&& (b.player_pos == a.player_pos)
    &&& (b.entities@.len() == a.entities@.len())
    &&& (b.map.width == a.map.width)
    &&& (b.map.height == a.map.height)
    &&& (b.map.tiles@ == a.map.tiles@)
    &&& (b.map.revealed_tiles@ == a.map.revealed_tiles@)
    &&& (b.map.visible_tiles@ == a.map.visible_tiles@)
    &&& (b.map.rooms@ == a.map.rooms@)
    &&& (b.map.start_pos == a.map.start_pos)
    &&& (forall|i: int|
        0 <= i < b.entities@.len() ==> same_but_move(
            a.entities@[i],
            #[trigger] b.entities@[i],
        ))
    &&& (forall|i: int|
        0 <= i < b.entities@.len() && !monster_sees(
            a.entities@[i],
            a.player_pos,
        ) ==> #[trigger] b.entities@[i] == a.entities@[i])
    &&& (forall|i: int|
        0 <= i < b.entities@.len() && monster_sees(
            a.entities@[i],
            a.player_pos,
        ) && in_melee_range(
            a.entities@[i]->Some_0.position->Some_0,
            a.player_pos,
        ) ==> (#[trigger] b.entities@[i])->Some_0.position
            == a.entities@[i]->Some_0.position && targets_player(
            a.entities@,
            b.entities@[i],
        ))
    &&& (forall|i: int|
        0 <= i < b.entities@.len() ==> moved_along(
            &a.map,
            a.entities@[i],
            #[trigger] b.entities@[i],
            path_for(paths, i),
        ))
    &&& (forall|i: int|
        0 <= i < b.entities@.len() ==> view_and_intent_kept(
            a.entities@[i],
            #[trigger] b.entities@[i],
            monster_sees(a.entities@[i], a.player_pos) && in_melee_range(
                a.entities@[i]->Some_0.position->Some_0,
                a.player_pos,
            ),
        ))
    &&& (forall|i: int, np: Position|
        0 <= i < b.entities@.len() && #[trigger] step_owed(
            &a.map,
            a.entities@,
            b.entities@,
            a.player_pos,
            path_for(paths, i),
            i,
            np,
        ) ==> b.entities@[i]->Some_0.position == Some(np))
}

/// What the occupancy pass does, from `a` to `b`.
pub open spec fn indexing_post(a: World, b: World) -> bool {
    &&& (b.wf())
    &&& (b.entities@ == a.entities@)
    &&& (b.player_pos == a.player_pos)
    &&& (b.map.width == a.map.width)
    &&& (b.map.height == a.map.height)
    &&& (b.map.tiles@ == a.map.tiles@)
    &&& (b.map.revealed_tiles@ == a.map.revealed_tiles@)
    &&& (b.map.visible_tiles@ == a.map.visible_tiles@)
    &&& (b.map.rooms@ == a.map.rooms@)
    &&& (b.map.start_pos == a.map.start_pos)
    &&& (forall|j: int|
        0 <= j < b.map.blocked@.len() ==> (#[trigger] b.map.blocked@[j]
            == (a.map.tiles@[j] == TileType::Wall || exists|i: int|
            0 <= i < a.entities@.len() && occupies(
                &a.map,
                a.entities@[i],
                j,
            ))))
}

/// What the melee pass does, from `a` to `b`.
pub open spec fn melee_post(a: World, b: World) -> bool {
    &&& (b.wf())
    &&& (b.map == a.map)
    &&& (b.player_pos == a.player_pos)
    &&& (b.entities@.len() == a.entities@.len())
    &&& (forall|i: int|
        0 <= i < b.entities@.len() ==> same_but_combat(
            a.entities@[i],
            #[trigger] b.entities@[i],
        ))
    &&& (forall|i: int|
        0 <= i < b.entities@.len() ==> (#[trigger] b.entities@[i] matches Some(
            e,
        ) ==> e.wants_to_melee is None))
    &&& (forall|t: int|
        0 <= t < b.entities@.len() && a.entities@[t] is Some
            ==> (#[trigger] b.entities@[t])->Some_0.suffer_damage@ == a.entities@[t]->Some_0.suffer_damage@ + blows(
            a.entities@,
            t,
            a.entities@.len() as int,
        ))
}

/// What the damage pass does, from `a` to `b`.
pub open spec fn damage_post(a: World, b: World) -> bool {
    &&& (b.wf())
    &&& (b.map == a.map)
    &&& (b.player_pos == a.player_pos)
    &&& (b.entities@.len() == a.entities@.len())
    &&& (forall|i: int|
        0 <= i < b.entities@.len() ==> #[trigger] damage_applied(
            a.entities@[i],
            b.entities@[i],
        ))
}

/// What the removal of the dead does, from `a` to `b`.
pub open spec fn dead_removed_post(a: World, b: World) -> bool {
    &&& (b.wf())
    &&& (b.map == a.map)
    &&& (b.player_pos == a.player_pos)
    &&& (b.entities@.len() == a.entities@.len())
    &&& (forall|i: int|
        0 <= i < b.entities@.len() ==> #[trigger] b.entities@[i] == if is_dead(
            a.entities@[i],
        ) {
            None
        } else {
            a.entities@[i]
        })
}

/// One simulation step with routes `paths`, from `a` to `b`: the six passes in
/// order, each doing what its own contract states.
pub open spec fn step_post(a: World, b: World, paths: Seq<Option<Vec<usize>>>) -> bool {
    exists|w1: World, w2: World, w3: World, w4: World, w5: World|
        #![trigger visibility_post(a, w1), monster_ai_post(w1, w2, paths), indexing_post(w2, w3), melee_post(w3, w4), damage_post(w4, w5)]
        visibility_post(a, w1) && monster_ai_post(w1, w2, paths) && indexing_post(w2, w3)
            && melee_post(w3, w4) && damage_post(w4, w5) && dead_removed_post(w5, b)
}

/// One entity's turn keeps `masks_kept`.
proof fn lemma_masks_kept_step(ow: World, before: World, after: World, i: int)
    requires
        0 <= i < ow.entities@.len(),
        before.entities@.len() == ow.entities@.len(),
        after.entities@.len() == ow.entities@.len(),
        before.map.width == ow.map.width,
        masks_kept(ow, before, i),
        before.map.visible_tiles@.len() == after.map.visible_tiles@.len(),
        before.map.revealed_tiles@.len() == after.map.revealed_tiles@.len(),
        after.map.visible_tiles@.len() == after.map.revealed_tiles@.len(),
        forall|m: int| 0 <= m < i ==> after.entities@[m] == before.entities@[m],
        dirty_player(ow.entities@[i]) ==> forall|j: int|
            0 <= j < after.map.visible_tiles@.len() ==> {
                &&& #[trigger] after.map.visible_tiles@[j] == seen_index(
                    &before.map,
                    view_of(after.entities@[i]),
                    j,
                )
                &&& after.map.revealed_tiles@[j] == (before.map.revealed_tiles@[j]
                    || after.map.visible_tiles@[j])
            },
        !dirty_player(ow.entities@[i]) ==> after.map.visible_tiles@ == before.map.visible_tiles@
            && after.map.revealed_tiles@ == before.map.revealed_tiles@,
    ensures
        masks_kept(ow, after, i + 1),
{
    reveal(masks_kept);
    let oe = ow.entities@;
    if !dirty_player(oe[i]) {
        if forall|m: int| 0 <= m < i + 1 ==> !dirty_player(#[trigger] oe[m]) {
            assert(forall|m: int| 0 <= m < i ==> !dirty_player(#[trigger] oe[m]));
        }
    } else {
        assert(!(forall|m: int| 0 <= m < i + 1 ==> !dirty_player(#[trigger] oe[m])));
    }
}

/// One entity's turn keeps `visible_follows`.
#[verifier::rlimit(50)]
proof fn lemma_visible_step(ow: World, before: World, after: World, i: int)
    requires
        0 <= i < ow.entities@.len(),
        before.entities@.len() == ow.entities@.len(),
        after.entities@.len() == ow.entities@.len(),
        before.map.width == ow.map.width,
        visible_follows(ow, before, i),
        before.map.visible_tiles@.len() == after.map.visible_tiles@.len(),
        before.map.revealed_tiles@.len() == after.map.revealed_tiles@.len(),
        after.map.visible_tiles@.len() == after.map.revealed_tiles@.len(),
        forall|m: int| 0 <= m < i ==> after.entities@[m] == before.entities@[m],
        dirty_player(ow.entities@[i]) ==> forall|j: int|
            0 <= j < after.map.visible_tiles@.len() ==> {
                &&& #[trigger] after.map.visible_tiles@[j] == seen_index(
                    &before.map,
                    view_of(after.entities@[i]),
                    j,
                )
                &&& after.map.revealed_tiles@[j] == (before.map.revealed_tiles@[j]
                    || after.map.visible_tiles@[j])
            },
        !dirty_player(ow.entities@[i]) ==> after.map.visible_tiles@ == before.map.visible_tiles@
            && after.map.revealed_tiles@ == before.map.revealed_tiles@,
    ensures
        visible_follows(ow, after, i + 1),
{
    reveal(visible_follows);
    let oe = ow.entities@;
    if dirty_player(oe[i as int]) {
        let vt = view_of(after.entities@[i as int]);
        assert forall|j: int| 0 <= j < after.map.visible_tiles@.len() implies
            #[trigger] after.map.visible_tiles@[j] == seen_index(&ow.map, vt, j) by {
            assert(seen_index(&before.map, vt, j) == seen_index(&ow.map, vt, j));
        }
        assert forall|m: int|
            0 <= m < i + 1 && #[trigger] dirty_player(oe[m]) && (forall|q: int|
                m < q < i + 1 ==> !dirty_player(#[trigger] oe[q])) implies forall|j: int|
            0 <= j < after.map.visible_tiles@.len() ==> #[trigger] after.map.visible_tiles@[j]
                == seen_index(&ow.map, view_of(after.entities@[m]), j) by {
            if m < i {
                assert(!dirty_player(oe[i as int]));
            }
        }
    } else {
        assert forall|m: int|
            0 <= m < i + 1 && #[trigger] dirty_player(oe[m]) && (forall|q: int|
                m < q < i + 1 ==> !dirty_player(#[trigger] oe[q])) implies forall|j: int|
            0 <= j < after.map.visible_tiles@.len() ==> #[trigger] after.map.visible_tiles@[j]
                == seen_index(&ow.map, view_of(after.entities@[m]), j) by {
            assert(forall|q: int| m < q < i ==> !dirty_player(#[trigger] oe[q]));
            assert(after.entities@[m] == before.entities@[m]);
        }
    }
}

/// One entity's turn keeps `revealed_follows`.
#[verifier::rlimit(50)]
proof fn lemma_revealed_step(ow: World, before: World, after: World, i: int)
    requires
        0 <= i < ow.entities@.len(),
        before.entities@.len() == ow.entities@.len(),
        after.entities@.len() == ow.entities@.len(),
        before.map.width == ow.map.width,
        revealed_follows(ow, before, i),
        before.map.visible_tiles@.len() == after.map.visible_tiles@.len(),
        before.map.revealed_tiles@.len() == after.map.revealed_tiles@.len(),
        after.map.visible_tiles@.len() == after.map.revealed_tiles@.len(),
        forall|m: int| 0 <= m < i ==> after.entities@[m] == before.entities@[m],
        dirty_player(ow.entities@[i]) ==> forall|j: int|
            0 <= j < after.map.visible_tiles@.len() ==> {
                &&& #[trigger] after.map.visible_tiles@[j] == seen_index(
                    &before.map,
                    view_of(after.entities@[i]),
                    j,
                )
                &&& after.map.revealed_tiles@[j] == (before.map.revealed_tiles@[j]
                    || after.map.visible_tiles@[j])
            },
        !dirty_player(ow.entities@[i]) ==> after.map.visible_tiles@ == before.map.visible_tiles@
            && after.map.revealed_tiles@ == before.map.revealed_tiles@,
    ensures
        revealed_follows(ow, after, i + 1),
{
    reveal(revealed_follows);
    let oe = ow.entities@;
    if dirty_player(oe[i as int]) {
        let vt = view_of(after.entities@[i as int]);
        assert forall|j: int| 0 <= j < after.map.revealed_tiles@.len() implies
            #[trigger] after.map.revealed_tiles@[j] == (ow.map.revealed_tiles@[j]
            || exists|m: int|
            0 <= m < i + 1 && dirty_player(oe[m]) && #[trigger] seen_index(
                &ow.map,
                view_of(after.entities@[m]),
                j,
            )) by {
            assert(seen_index(&before.map, vt, j) == seen_index(&ow.map, vt, j));
            assert(after.map.visible_tiles@[j] == seen_index(&before.map, vt, j));
            assert(after.map.revealed_tiles@[j] == (before.map.revealed_tiles@[j]
                || after.map.visible_tiles@[j]));
            assert(before.map.revealed_tiles@[j] == (ow.map.revealed_tiles@[j] || exists|m: int|
                0 <= m < i && dirty_player(oe[m]) && #[trigger] seen_index(
                    &ow.map,
                    view_of(before.entities@[m]),
                    j,
                )));
            if seen_index(&ow.map, vt, j) {
                assert(0 <= i < i + 1 && dirty_player(oe[i]) && seen_index(
                    &ow.map,
                    view_of(after.entities@[i]),
                    j,
                ));
            }
            if exists|m: int|
                0 <= m < i && dirty_player(oe[m]) && #[trigger] seen_index(
                    &ow.map,
                    view_of(before.entities@[m]),
                    j,
                ) {
                let m = choose|m: int|
                    0 <= m < i && dirty_player(oe[m]) && #[trigger] seen_index(
                        &ow.map,
                        view_of(before.entities@[m]),
                        j,
                    );
                assert(seen_index(&ow.map, view_of(after.entities@[m]), j));
            }
            if exists|m: int|
                0 <= m < i + 1 && dirty_player(oe[m]) && #[trigger] seen_index(
                    &ow.map,
                    view_of(after.entities@[m]),
                    j,
                ) {
                let m = choose|m: int|
                    0 <= m < i + 1 && dirty_player(oe[m]) && #[trigger] seen_index(
                        &ow.map,
                        view_of(after.entities@[m]),
                        j,
                    );
                if m < i {
                    assert(seen_index(&ow.map, view_of(before.entities@[m]), j));
                }
            }
        }
    } else {
        assert forall|j: int| 0 <= j < after.map.revealed_tiles@.len() implies
            #[trigger] after.map.revealed_tiles@[j] == (ow.map.revealed_tiles@[j]
            || exists|m: int|
            0 <= m < i + 1 && dirty_player(oe[m]) && #[trigger] seen_index(
                &ow.map,
                view_of(after.entities@[m]),
                j,
            )) by {
            if exists|m: int|
                0 <= m < i && dirty_player(oe[m]) && #[trigger] seen_index(
                    &ow.map,
                    view_of(before.entities@[m]),
                    j,
                ) {
                let m = choose|m: int|
                    0 <= m < i && dirty_player(oe[m]) && #[trigger] seen_index(
                        &ow.map,
                        view_of(before.entities@[m]),
                        j,
                    );
                assert(seen_index(&ow.map, view_of(after.entities@[m]), j));
            }
            if exists|m: int|
                0 <= m < i + 1 && dirty_player(oe[m]) && #[trigger] seen_index(
                    &ow.map,
                    view_of(after.entities@[m]),
                    j,
                ) {
                let m = choose|m: int|
                    0 <= m < i + 1 && dirty_player(oe[m]) && #[trigger] seen_index(
                        &ow.map,
                        view_of(after.entities@[m]),
                        j,
                    );
                assert(seen_index(&ow.map, view_of(before.entities@[m]), j));
            }
        }
    }
}

/// One entity's turn in the visibility pass keeps the masks following the
/// player views seen so far.
proof fn lemma_masks_step(ow: World, before: World, after: World, i: int)
    requires
        0 <= i < ow.entities@.len(),
        before.entities@.len() == ow.entities@.len(),
        after.entities@.len() == ow.entities@.len(),
        before.map.width == ow.map.width,
        masks_follow(ow, before, i),
        before.map.visible_tiles@.len() == after.map.visible_tiles@.len(),
        before.map.revealed_tiles@.len() == after.map.revealed_tiles@.len(),
        after.map.visible_tiles@.len() == after.map.revealed_tiles@.len(),
        forall|m: int| 0 <= m < i ==> after.entities@[m] == before.entities@[m],
        dirty_player(ow.entities@[i]) ==> forall|j: int|
            0 <= j < after.map.visible_tiles@.len() ==> {
                &&& #[trigger] after.map.visible_tiles@[j] == seen_index(
                    &before.map,
                    view_of(after.entities@[i]),
                    j,
                )
                &&& after.map.revealed_tiles@[j] == (before.map.revealed_tiles@[j]
                    || after.map.visible_tiles@[j])
            },
        !dirty_player(ow.entities@[i]) ==> after.map.visible_tiles@ == before.map.visible_tiles@
            && after.map.revealed_tiles@ == before.map.revealed_tiles@,
    ensures
        masks_follow(ow, after, i + 1),
{
    lemma_masks_kept_step(ow, before, after, i);
    lemma_visible_step(ow, before, after, i);
    lemma_revealed_step(ow, before, after, i);
}

impl Entity {
    /// An entity with no components.
    pub fn new() -> (r: Entity)
        ensures
            r.position is None,
            r.viewshed is None,
            r.stats is None,
            r.name is None,
            r.player is None,
            r.monster is None,
            r.blocks_tile is None,
            r.wants_to_melee is None,
            r.suffer_damage@.len() == 0,
    {
        Entity {
            position: None,
            viewshed: None,
            stats: None,
            name: None,
            player: None,
            monster: None,
            blocks_tile: None,
            wants_to_melee: None,
            suffer_damage: Vec::new(),
        }
    }
}

impl World {
    pub open spec fn wf(&self) -> bool {
        &&& self.map.wf()
        &&& self.map.in_bounds(self.player_pos.x as int, self.player_pos.y as int)
        &&& forall|i: int|
            0 <= i < self.entities@.len() && #[trigger] self.entities@[i] is Some ==> entity_ok(
                &self.map,
                self.entities@[i]->Some_0,
            )
    }

    /// A world on `map` with no entities, the player's focus on the start.
    pub fn new(map: GameMap) -> (r: World)
        requires
            map.wf(),
            map.in_bounds(map.start_pos.0 as int, map.start_pos.1 as int),
        ensures
            r.wf(),
            r.entities@.len() == 0,
            r.map == map,
            r.player_pos == (Position { x: map.start_pos.0, y: map.start_pos.1 }),
    {
        let p = Position { x: map.start_pos.0, y: map.start_pos.1 };
        World { entities: Vec::new(), map, player_pos: p }
    }

    /// Adds an entity and returns its identifier.
    pub fn spawn(&mut self, e: Entity) -> (r: usize)
        requires
            old(self).wf(),
            entity_ok(&old(self).map, e),
            old(self).entities@.len() < usize::MAX,
        ensures
            final(self).wf(),
            r == old(self).entities@.len(),
            final(self).entities@ == old(self).entities@.push(Some(e)),
            final(self).map == old(self).map,
            final(self).player_pos == old(self).player_pos,
    {
        let r = self.entities.len();
        self.entities.push(Some(e));
        proof {
            assert forall|i: int|
                0 <= i < self.entities@.len() && #[trigger] self.entities@[i] is Some implies entity_ok(
                &self.map,
                self.entities@[i]->Some_0,
            ) by {
                if i < r {
                    assert(old(self).entities@[i] == self.entities@[i]);
                }
            }
        }
        r
    }

    /// Recomputes every dirty viewshed of an entity that has a position; the
    /// player's view updates the map's visible and revealed masks.
    #[verifier::rlimit(100)]
    pub fn run_visibility(&mut self)
        requires
            old(self).wf(),
        ensures
            final(self).wf(),
            final(self).entities@.len() == old(self).entities@.len(),
            final(self).player_pos == old(self).player_pos,
            final(self).map.width == old(self).map.width,
            final(self).map.height == old(self).map.height,
            final(self).map.tiles@ == old(self).map.tiles@,
            final(self).map.blocked@ == old(self).map.blocked@,
            final(self).map.rooms@ == old(self).map.rooms@,
            final(self).map.start_pos == old(self).map.start_pos,
            forall|i: int|
                0 <= i < final(self).entities@.len() ==> same_but_viewshed(
                    old(self).entities@[i],
                    #[trigger] final(self).entities@[i],
                ),
            forall|i: int|
                0 <= i < old(self).map.revealed_tiles@.len() && old(self).map.revealed_tiles@[i]
                    ==> #[trigger] final(self).map.revealed_tiles@[i],
            visibility_post(*old(self), *final(self)),
    {
        let n = self.entities.len();
        proof {
            reveal(masks_kept);
            reveal(visible_follows);
            reveal(revealed_follows);
        }
        let mut i: usize = 0;
        while i < n
            invariant
                self.wf(),
                n == self.entities@.len(),
                i <= n,
                self.player_pos == old(self).player_pos,
                self.map.width == old(self).map.width,
                self.map.height == old(self).map.height,
                self.map.tiles@ == old(self).map.tiles@,
                self.map.blocked@ == old(self).map.blocked@,
                self.map.rooms@ == old(self).map.rooms@,
                self.map.start_pos == old(self).map.start_pos,
                self.map.revealed_tiles@.len() == old(self).map.revealed_tiles@.len(),
                forall|j: int|
                    0 <= j < n ==> same_but_viewshed(
                        old(self).entities@[j],
                        #[trigger] self.entities@[j],
                    ),
                forall|j: int|
                    i <= j < n ==> #[trigger] self.entities@[j] == old(self).entities@[j],
                forall|j: int|
                    0 <= j < old(self).map.revealed_tiles@.len() && old(self).map.revealed_tiles@[j] ==> #[trigger] self.map.revealed_tiles@[j],
                n == old(self).entities@.len(),
                self.map.visible_tiles@.len() == old(self).map.visible_tiles@.len(),
                forall|j: int|
                    0 <= j < i ==> viewshed_updated(
                        &old(self).map,
                        old(self).entities@[j],
                        #[trigger] self.entities@[j],
                    ),
                masks_follow(*old(self), *self, i as int),
            decreases n - i,
        {
            let ghost before = *self;
            let mut slot: Option<Entity> = None;
            self.entities.set_and_swap(i, &mut slot);
            let ghost orig = slot;
            assert(orig == before.entities@[i as int]);
            let mut back: Option<Entity> = None;
            let ghost map_before = self.map;
            match slot {
                Some(mut e) => {
                    let mut vs_opt: Option<Viewshed> = None;
                    std::mem::swap(&mut e.viewshed, &mut vs_opt);
                    match (e.position, vs_opt) {
                        (Some(pos), Some(mut vs)) => {
                            let is_player = e.player.is_some();
                            update_viewshed(&mut self.map, &mut vs, pos, is_player);
                            e.viewshed = Some(vs);
                        },
                        (_, other) => {
                            e.viewshed = other;
                        },
                    }
                    back = Some(e);
                },
                None => {},
            }
            assert(forall|j: int|
                0 <= j < map_before.revealed_tiles@.len() && map_before.revealed_tiles@[j]
                    ==> #[trigger] self.map.revealed_tiles@[j]);
            self.entities.set(i, back);
            proof {
                let ow = *old(self);
                let oe = ow.entities@;
                assert(orig == oe[i as int]);
                assert(forall|m: int| 0 <= m < i ==> self.entities@[m] == before.entities@[m]);
                lemma_masks_step(ow, before, *self, i as int);
                assert(same_but_viewshed(orig, self.entities@[i as int]));
                assert forall|j: int|
                    0 <= j < old(self).map.revealed_tiles@.len() && old(self).map.revealed_tiles@[j] implies #[trigger] self.map.revealed_tiles@[j] by {
                    assert(before.map.revealed_tiles@[j]);
                    assert(map_before.revealed_tiles@[j]);
                }
                assert forall|j: int|
                    0 <= j < n && #[trigger] self.entities@[j] is Some implies entity_ok(
                    &self.map,
                    self.entities@[j]->Some_0,
                ) by {
                    assert(before.entities@[j] is Some);
                    assert(entity_ok(&before.map, before.entities@[j]->Some_0));
                }
            }
            i += 1;
        }
    }
    /// Applies each entity's pending damage to its health and then empties
    /// every entity's pending damage.
    pub fn run_damage(&mut self)
        requires
            old(self).wf(),
        ensures
            final(self).wf(),
            final(self).map == old(self).map,
            final(self).player_pos == old(self).player_pos,
            final(self).entities@.len() == old(self).entities@.len(),
            forall|i: int|
                0 <= i < final(self).entities@.len() ==> #[trigger] damage_applied(
                    old(self).entities@[i],
                    final(self).entities@[i],
                ),
            damage_post(*old(self), *final(self)),
    {
        let n = self.entities.len();
        let mut i: usize = 0;
        while i < n
            invariant
                self.wf(),
                n == self.entities@.len(),
                i <= n,
                self.map == old(self).map,
                self.player_pos == old(self).player_pos,
                forall|j: int|
                    0 <= j < i ==> #[trigger] damage_applied(
                        old(self).entities@[j],
                        self.entities@[j],
                    ),
                forall|j: int|
                    i <= j < n ==> #[trigger] self.entities@[j] == old(self).entities@[j],
            decreases n - i,
        {
            let ghost before = *self;
            let mut slot: Option<Entity> = None;
            self.entities.set_and_swap(i, &mut slot);
            let mut back: Option<Entity> = None;
            match slot {
                Some(mut e) => {
                    assert(entity_ok(&before.map, e));
                    match e.stats {
                        Some(st) => {
                            let hp = apply_damage(st.current_hp, &e.suffer_damage);
                            e.stats = Some(CombatStats { current_hp: hp, ..st });
                        },
                        None => {},
                    }
                    e.suffer_damage = Vec::new();
                    back = Some(e);
                },
                None => {},
            }
            self.entities.set(i, back);
            proof {
                assert forall|j: int|
                    0 <= j < n && #[trigger] self.entities@[j] is Some implies entity_ok(
                    &self.map,
                    self.entities@[j]->Some_0,
                ) by {
                    assert(before.entities@[j] is Some);
                }
            }
            i += 1;
        }
    }

    /// Removes every entity whose health has dropped below one.
    pub fn delete_the_dead(&mut self)
        requires
            old(self).wf(),
        ensures
            final(self).wf(),
            final(self).map == old(self).map,
            final(self).player_pos == old(self).player_pos,
            final(self).entities@.len() == old(self).entities@.len(),
            forall|i: int|
                0 <= i < final(self).entities@.len() ==> #[trigger] final(self).entities@[i] == if is_dead(
                    old(self).entities@[i],
                ) {
                    None
                } else {
                    old(self).entities@[i]
                },
            dead_removed_post(*old(self), *final(self)),
    {
        let n = self.entities.len();
        let mut i: usize = 0;
        while i < n
            invariant
                self.wf(),
                n == self.entities@.len(),
                i <= n,
                self.map == old(self).map,
                self.player_pos == old(self).player_pos,
                forall|j: int|
                    0 <= j < i ==> #[trigger] self.entities@[j] == if is_dead(
                        old(self).entities@[j],
                    ) {
                        None
                    } else {
                        old(self).entities@[j]
                    },
                forall|j: int|
                    i <= j < n ==> #[trigger] self.entities@[j] == old(self).entities@[j],
            decreases n - i,
        {
            let dead = match &self.entities[i] {
                Some(e) => match e.stats {
                    Some(st) => st.current_hp < 1,
                    None => false,
                },
                None => false,
            };
            if dead {
                self.entities.set(i, None);
            }
            i += 1;
        }
    }
    /// Queues one blow of power `power` on entity `t`, when it is present and
    /// can fight; otherwise does nothing.
    pub fn push_damage(&mut self, t: usize, power: i32)
        requires
            old(self).wf(),
        ensures
            final(self).wf(),
            final(self).map == old(self).map,
            final(self).player_pos == old(self).player_pos,
            final(self).entities@.len() == old(self).entities@.len(),
            forall|j: int|
                0 <= j < final(self).entities@.len() && j != t ==> #[trigger] final(self).entities@[j] == old(self).entities@[j],
            t < old(self).entities@.len() ==> same_but_combat(
                old(self).entities@[t as int],
                final(self).entities@[t as int],
            ),
            t < old(self).entities@.len() ==> (final(self).entities@[t as int] matches Some(e)
                ==> e.wants_to_melee == old(self).entities@[t as int]->Some_0.wants_to_melee),
            t < old(self).entities@.len() ==> match old(self).entities@[t as int] {
                Some(e) => match e.stats {
                    Some(st) => final(self).entities@[t as int]->Some_0.suffer_damage@
                        == e.suffer_damage@.push(melee_damage(power as int, st.defence as int) as i32),
                    None => final(self).entities@[t as int]->Some_0.suffer_damage@ == e.suffer_damage@,
                },
                None => true,
            },
    {
        if t >= self.entities.len() {
            return;
        }
        let ghost before = *self;
        let mut slot: Option<Entity> = None;
        self.entities.set_and_swap(t, &mut slot);
        let mut back: Option<Entity> = None;
        match slot {
            Some(mut e) => {
                assert(entity_ok(&before.map, e));
                let ghost sd = e.suffer_damage@;
                match e.stats {
                    Some(st) => {
                        let dmg = resolve_melee(power, st.defence);
                        e.suffer_damage.push(dmg);
                    },
                    None => {},
                }
                assert(e.suffer_damage@.subrange(0, sd.len() as int) =~= sd);
                back = Some(e);
            },
            None => {},
        }
        self.entities.set(t, back);
        proof {
            assert forall|j: int|
                0 <= j < self.entities@.len() && #[trigger] self.entities@[j] is Some implies entity_ok(
                &self.map,
                self.entities@[j]->Some_0,
            ) by {
                assert(before.entities@[j] is Some);
            }
        }
    }

    /// Resolves every melee intent: an attacker with combat stats queues
    /// `max(0, power - defence)` on a target that is still present and has
    /// combat stats. Every intent is consumed; an intent on a removed target
    /// does nothing.
    pub fn run_melee(&mut self)
        requires
            old(self).wf(),
        ensures
            final(self).wf(),
            final(self).map == old(self).map,
            final(self).player_pos == old(self).player_pos,
            final(self).entities@.len() == old(self).entities@.len(),
            forall|i: int|
                0 <= i < final(self).entities@.len() ==> same_but_combat(
                    old(self).entities@[i],
                    #[trigger] final(self).entities@[i],
                ),
            forall|i: int|
                0 <= i < final(self).entities@.len() ==> (#[trigger] final(self).entities@[i] matches Some(
                    e,
                ) ==> e.wants_to_melee is None),
            forall|t: int|
                0 <= t < final(self).entities@.len() && old(self).entities@[t] is Some
                    ==> (#[trigger] final(self).entities@[t])->Some_0.suffer_damage@ == old(
                    self).entities@[t]->Some_0.suffer_damage@ + blows(
                    old(self).entities@,
                    t,
                    old(self).entities@.len() as int,
                ),
            melee_post(*old(self), *final(self)),
    {
        let n = self.entities.len();
        proof {
            assert forall|t: int| 0 <= t < n && old(self).entities@[t] is Some implies (
            #[trigger] self.entities@[t])->Some_0.suffer_damage@ == old(
            self).entities@[t]->Some_0.suffer_damage@ + blows(old(self).entities@, t, 0) by {
                assert(self.entities@[t]->Some_0.suffer_damage@ =~= self.entities@[t]->Some_0.suffer_damage@ + Seq::<i32>::empty());
            }
        }
        proof {
            assert forall|j: int| 0 <= j < n implies same_but_combat(
                old(self).entities@[j],
                #[trigger] self.entities@[j],
            ) by {
                if self.entities@[j] is Some {
                    let x = self.entities@[j]->Some_0.suffer_damage@;
                    assert(x.subrange(0, x.len() as int) =~= x);
                }
            }
        }
        let mut i: usize = 0;
        while i < n
            invariant
                self.wf(),
                n == self.entities@.len(),
                i <= n,
                self.map == old(self).map,
                self.player_pos == old(self).player_pos,
                forall|j: int|
                    0 <= j < n ==> same_but_combat(
                        old(self).entities@[j],
                        #[trigger] self.entities@[j],
                    ),
                forall|j: int|
                    0 <= j < i ==> (#[trigger] self.entities@[j] matches Some(e)
                        ==> e.wants_to_melee is None),
                forall|j: int|
                    i <= j < n ==> (#[trigger] self.entities@[j] matches Some(e)
                        ==> e.wants_to_melee == old(self).entities@[j]->Some_0.wants_to_melee),
                n == old(self).entities@.len(),
                forall|t: int|
                    0 <= t < n && old(self).entities@[t] is Some ==> (
                    #[trigger] self.entities@[t])->Some_0.suffer_damage@ == old(
                    self).entities@[t]->Some_0.suffer_damage@ + blows(old(self).entities@, t, i as int),
            decreases n - i,
        {
            let ghost before = *self;
            let mut slot: Option<Entity> = None;
            self.entities.set_and_swap(i, &mut slot);
            let mut target: Option<usize> = None;
            let mut power: i32 = 0;
            let mut back: Option<Entity> = None;
            match slot {
                Some(mut e) => {
                    assert(entity_ok(&before.map, e));
                    match (e.wants_to_melee, e.stats) {
                        (Some(t), Some(st)) => {
                            target = Some(t);
                            power = st.power;
                        },
                        _ => {},
                    }
                    e.wants_to_melee = None;
                    back = Some(e);
                },
                None => {},
            }
            self.entities.set(i, back);
            proof {
                assert forall|j: int|
                    0 <= j < n && #[trigger] self.entities@[j] is Some implies entity_ok(
                    &self.map,
                    self.entities@[j]->Some_0,
                ) by {
                    assert(before.entities@[j] is Some);
                }
                assert(same_but_combat(before.entities@[i as int], self.entities@[i as int])) by {
                    if before.entities@[i as int] is Some {
                        let x = before.entities@[i as int]->Some_0;
                        assert(self.entities@[i as int]->Some_0.suffer_damage@.subrange(0, x.suffer_damage@.len() as int) =~= x.suffer_damage@);
                    }
                }
            }
            let ghost mid = *self;
            match target {
                Some(t) => {
                    self.push_damage(t, power);
                },
                None => {},
            }
            proof {
                assert forall|j: int| 0 <= j < n implies same_but_combat(
                    old(self).entities@[j],
                    #[trigger] self.entities@[j],
                ) by {
                    assert(same_but_combat(old(self).entities@[j], before.entities@[j]));
                    if j == i {
                        assert(same_but_combat(before.entities@[j], mid.entities@[j]));
                    } else {
                        assert(mid.entities@[j] == before.entities@[j]);
                    }
                    assert(same_but_combat(old(self).entities@[j], mid.entities@[j]));
                    lemma_same_but_combat_trans(old(self).entities@[j], mid.entities@[j], self.entities@[j]);
                }
            }
            proof {
                assert forall|t: int| 0 <= t < n && old(self).entities@[t] is Some implies (
                #[trigger] self.entities@[t])->Some_0.suffer_damage@ == old(
                self).entities@[t]->Some_0.suffer_damage@ + blows(old(self).entities@, t, i + 1) by {
                    let o = old(self).entities@;
                    let sd0 = o[t]->Some_0.suffer_damage@;
                    assert(blows(o, t, i + 1) == blows(o, t, i as int) + blow(o, i as int, t));
                    assert(before.entities@[t]->Some_0.suffer_damage@ == sd0 + blows(o, t, i as int));
                    assert(mid.entities@[t]->Some_0.suffer_damage@ == before.entities@[t]->Some_0.suffer_damage@);
                    assert(same_but_combat(o[t], mid.entities@[t]));
                    assert(same_but_combat(o[i as int], before.entities@[i as int]));
                    if target == Some(t as usize) {
                        assert(self.entities@[t]->Some_0.suffer_damage@ =~= sd0 + blows(o, t, i + 1));
                    } else {
                        assert(blow(o, i as int, t) =~= Seq::<i32>::empty());
                        assert(self.entities@[t]->Some_0.suffer_damage@ =~= sd0 + blows(o, t, i + 1));
                    }
                }
            }
            i += 1;
        }
    }
    /// Rebuilds the map's occupancy mask from scratch: a cell is blocked when
    /// it is a wall or an entity that blocks tiles stands on it.
    pub fn run_map_indexing(&mut self)
        requires
            old(self).wf(),
        ensures
            final(self).wf(),
            final(self).entities@ == old(self).entities@,
            final(self).player_pos == old(self).player_pos,
            final(self).map.width == old(self).map.width,
            final(self).map.height == old(self).map.height,
            final(self).map.tiles@ == old(self).map.tiles@,
            final(self).map.revealed_tiles@ == old(self).map.revealed_tiles@,
            final(self).map.visible_tiles@ == old(self).map.visible_tiles@,
            final(self).map.rooms@ == old(self).map.rooms@,
            final(self).map.start_pos == old(self).map.start_pos,
            forall|j: int|
                0 <= j < final(self).map.blocked@.len() ==> (#[trigger] final(self).map.blocked@[j]
                    == (old(self).map.tiles@[j] == TileType::Wall || exists|i: int|
                    0 <= i < old(self).entities@.len() && occupies(
                        &old(self).map,
                        old(self).entities@[i],
                        j,
                    ))),
            indexing_post(*old(self), *final(self)),
    {
        let n = self.entities.len();
        let mut occupied: Vec<usize> = Vec::new();
        let mut k: usize = 0;
        while k < n
            invariant
                self.wf(),
                *self == *old(self),
                n == self.entities@.len(),
                k <= n,
                forall|j: usize|
                    #[trigger] occupied@.contains(j) <==> exists|i: int|
                        0 <= i < k && occupies(&self.map, self.entities@[i], j as int),
            decreases n - k,
        {
            let ghost occ0 = occupied@;
            match &self.entities[k] {
                Some(e) => {
                    if e.blocks_tile.is_some() {
                        match e.position {
                            Some(p) => {
                                let idx = self.map.xy_idx(p.x, p.y);
                                occupied.push(idx);
                            },
                            None => {},
                        }
                    }
                },
                None => {},
            }
            proof {
                assert forall|j: usize|
                    #[trigger] occupied@.contains(j) <==> exists|i: int|
                        0 <= i < k + 1 && occupies(&self.map, self.entities@[i], j as int) by {
                    if occupied@.contains(j) {
                        let t = choose|t: int| 0 <= t < occupied@.len() && occupied@[t] == j;
                        if t < occ0.len() {
                            assert(occ0[t] == j);
                            assert(occ0.contains(j));
                        } else {
                            assert(occupies(&self.map, self.entities@[k as int], j as int));
                        }
                    }
                    if exists|i: int| 0 <= i < k + 1 && occupies(&self.map, self.entities@[i], j as int) {
                        let i = choose|i: int| 0 <= i < k + 1 && occupies(&self.map, self.entities@[i], j as int);
                        if i < k {
                            assert(occ0.contains(j));
                            let t = choose|t: int| 0 <= t < occ0.len() && occ0[t] == j;
                            assert(occupied@[t] == j);
                        } else {
                            assert(occupied@[occupied@.len() - 1] == j);
                        }
                    }
                }
            }
            k += 1;
        }
        self.map.populate_blocked(&occupied);
        proof {
            assert forall|j: int|
                0 <= j < self.map.blocked@.len() implies (#[trigger] self.map.blocked@[j]
                    == (old(self).map.tiles@[j] == TileType::Wall || exists|i: int|
                    0 <= i < old(self).entities@.len() && occupies(
                        &old(self).map,
                        old(self).entities@[i],
                        j,
                    ))) by {
                assert(occupied@.contains(j as usize) == exists|i: int|
                    0 <= i < n && occupies(&old(self).map, old(self).entities@[i], (j as usize) as int));
            }
        }
    }
    /// The identifier of the first entity that is the player.
    pub fn find_player(&self) -> (r: Option<usize>)
        ensures
            r matches Some(k) ==> first_player(self.entities@, k as int),
            r is None ==> forall|k: int|
                0 <= k < self.entities@.len() ==> !is_player_entity(#[trigger] self.entities@[k]),
    {
        let mut k: usize = 0;
        while k < self.entities.len()
            invariant
                k <= self.entities@.len(),
                forall|j: int|
                    0 <= j < k ==> !is_player_entity(#[trigger] self.entities@[j]),
            decreases self.entities@.len() - k,
        {
            match &self.entities[k] {
                Some(e) => {
                    if e.player.is_some() {
                        return Some(k);
                    }
                },
                None => {},
            }
            k += 1;
        }
        None
    }

    /// Runs the monster policy for every monster that has a position and a
    /// viewshed. `paths[i]` is the route found from monster `i` to the player
    /// (`None`, or a missing entry, when there is none). A monster that does not
    /// see the player is left as it is; one within 1.5 cells of the player
    /// targets the player with a melee intent and stays put; another one steps
    /// to its path's second waypoint when that cell can be entered, which marks
    /// its viewshed dirty and moves its mark in the occupancy mask.
    pub fn run_monster_ai(&mut self, paths: &Vec<Option<Vec<usize>>>)
        requires
            old(self).wf(),
        ensures
            final(self).wf(),
            final(self).player_pos == old(self).player_pos,
            final(self).entities@.len() == old(self).entities@.len(),
            final(self).map.width == old(self).map.width,
            final(self).map.height == old(self).map.height,
            final(self).map.tiles@ == old(self).map.tiles@,
            final(self).map.revealed_tiles@ == old(self).map.revealed_tiles@,
            final(self).map.visible_tiles@ == old(self).map.visible_tiles@,
            final(self).map.rooms@ == old(self).map.rooms@,
            final(self).map.start_pos == old(self).map.start_pos,
            forall|i: int|
                0 <= i < final(self).entities@.len() ==> same_but_move(
                    old(self).entities@[i],
                    #[trigger] final(self).entities@[i],
                ),
            forall|i: int|
                0 <= i < final(self).entities@.len() && !monster_sees(
                    old(self).entities@[i],
                    old(self).player_pos,
                ) ==> #[trigger] final(self).entities@[i] == old(self).entities@[i],
            forall|i: int|
                0 <= i < final(self).entities@.len() && monster_sees(
                    old(self).entities@[i],
                    old(self).player_pos,
                ) && in_melee_range(
                    old(self).entities@[i]->Some_0.position->Some_0,
                    old(self).player_pos,
                ) ==> (#[trigger] final(self).entities@[i])->Some_0.position
                    == old(self).entities@[i]->Some_0.position && targets_player(
                    old(self).entities@,
                    final(self).entities@[i],
                ),
            forall|i: int|
                0 <= i < final(self).entities@.len() ==> moved_along(
                    &old(self).map,
                    old(self).entities@[i],
                    #[trigger] final(self).entities@[i],
                    path_for(paths@, i),
                ),
            forall|i: int|
                0 <= i < final(self).entities@.len() ==> view_and_intent_kept(
                    old(self).entities@[i],
                    #[trigger] final(self).entities@[i],
                    monster_sees(old(self).entities@[i], old(self).player_pos) && in_melee_range(
                        old(self).entities@[i]->Some_0.position->Some_0,
                        old(self).player_pos,
                    ),
                ),
            forall|i: int, np: Position|
                0 <= i < final(self).entities@.len() && #[trigger] step_owed(
                    &old(self).map,
                    old(self).entities@,
                    final(self).entities@,
                    old(self).player_pos,
                    path_for(paths@, i),
                    i,
                    np,
                ) ==> final(self).entities@[i]->Some_0.position == Some(np),
            monster_ai_post(*old(self), *final(self), paths@),
    {
        let none_path: Option<Vec<usize>> = None;
        let player = self.find_player();
        let n = self.entities.len();
        let mut i: usize = 0;
        while i < n
            invariant
                self.wf(),
                n == self.entities@.len(),
                n == old(self).entities@.len(),
                i <= n,
                self.player_pos == old(self).player_pos,
                self.map.width == old(self).map.width,
                self.map.height == old(self).map.height,
                self.map.tiles@ == old(self).map.tiles@,
                self.map.revealed_tiles@ == old(self).map.revealed_tiles@,
                self.map.visible_tiles@ == old(self).map.visible_tiles@,
                self.map.rooms@ == old(self).map.rooms@,
                self.map.start_pos == old(self).map.start_pos,
                none_path is None,
                forall|j: int|
                    0 <= j < n ==> same_but_move(
                        old(self).entities@[j],
                        #[trigger] self.entities@[j],
                    ),
                forall|j: int|
                    0 <= j < n && !monster_sees(old(self).entities@[j], old(self).player_pos)
                        ==> #[trigger] self.entities@[j] == old(self).entities@[j],
                forall|j: int|
                    0 <= j < n && monster_sees(old(self).entities@[j], old(self).player_pos)
                        && in_melee_range(
                        old(self).entities@[j]->Some_0.position->Some_0,
                        old(self).player_pos,
                    ) ==> (#[trigger] self.entities@[j])->Some_0.position
                        == old(self).entities@[j]->Some_0.position,
                forall|j: int|
                    0 <= j < i && monster_sees(old(self).entities@[j], old(self).player_pos)
                        && in_melee_range(
                        old(self).entities@[j]->Some_0.position->Some_0,
                        old(self).player_pos,
                    ) ==> targets_player(old(self).entities@, #[trigger] self.entities@[j]),
                forall|j: int|
                    0 <= j < n ==> moved_along(
                        &old(self).map,
                        old(self).entities@[j],
                        #[trigger] self.entities@[j],
                        path_for(paths@, j),
                    ),
                player matches Some(k) ==> k < n && is_player_entity(old(self).entities@[k as int]),
                player is None ==> forall|k: int|
                    0 <= k < n ==> !is_player_entity(#[trigger] old(self).entities@[k]),
                forall|j: int|
                    0 <= j < n ==> view_and_intent_kept(
                        old(self).entities@[j],
                        #[trigger] self.entities@[j],
                        monster_sees(old(self).entities@[j], old(self).player_pos) && in_melee_range(
                            old(self).entities@[j]->Some_0.position->Some_0,
                            old(self).player_pos,
                        ),
                    ),
                forall|j: int, np: Position|
                    0 <= j < i && #[trigger] step_owed(
                        &old(self).map,
                        old(self).entities@,
                        self.entities@,
                        old(self).player_pos,
                        path_for(paths@, j),
                        j,
                        np,
                    ) ==> self.entities@[j]->Some_0.position == Some(np),
                forall|idx: int|
                    0 <= idx < self.map.blocked@.len() && #[trigger] self.map.blocked@[idx]
                        && !old(self).map.blocked@[idx] ==> exists|j: int|
                        0 <= j < i && moved_onto(&old(self).map, old(self).entities@[j], self.entities@[j], idx),
                self.map.blocked@.len() == old(self).map.blocked@.len(),
                forall|j: int| i <= j < n ==> #[trigger] self.entities@[j] == old(self).entities@[j],
            decreases n - i,
        {
            let ghost before = *self;
            let mut slot: Option<Entity> = None;
            self.entities.set_and_swap(i, &mut slot);
            let ghost orig = slot;
            let mut back: Option<Entity> = None;
            match slot {
                Some(mut e) => {
                    assert(entity_ok(&before.map, e));
                    if e.monster.is_some() {
                        let mut vs_opt: Option<Viewshed> = None;
                        std::mem::swap(&mut e.viewshed, &mut vs_opt);
                        match (e.position, vs_opt) {
                            (Some(pos), Some(mut vs)) => {
                                let action = if i < paths.len() {
                                    monster_decide(&self.map, &vs, pos, self.player_pos, &paths[i])
                                } else {
                                    monster_decide(&self.map, &vs, pos, self.player_pos, &none_path)
                                };
                                match action {
                                    MonsterAction::Melee => {
                                        match player {
                                            Some(pid) => {
                                                e.wants_to_melee = Some(pid);
                                            },
                                            None => {},
                                        }
                                    },
                                    MonsterAction::MoveTo(np) => {
                                        let from = self.map.xy_idx(pos.x, pos.y);
                                        if self.map.in_bounds_exec(np.x, np.y) && (np.x != pos.x
                                            || np.y != pos.y) {
                                            let to = self.map.xy_idx(np.x, np.y);
                                            if e.blocks_tile.is_some() {
                                                self.map.blocked.set(from, false);
                                                self.map.blocked.set(to, true);
                                            }
                                            e.position = Some(np);
                                            vs.dirty = true;
                                        }
                                    },
                                    MonsterAction::Idle => {},
                                }
                                e.viewshed = Some(vs);
                            },
                            (_, other) => {
                                e.viewshed = other;
                            },
                        }
                    }
                    back = Some(e);
                },
                None => {},
            }
            self.entities.set(i, back);
            proof {
                let om = old(self).map;
                let oe = old(self).entities@;
                assert(orig == oe[i as int]);
                assert forall|j: int, np: Position|
                    0 <= j < i + 1 && #[trigger] step_owed(
                        &om,
                        oe,
                        self.entities@,
                        old(self).player_pos,
                        path_for(paths@, j),
                        j,
                        np,
                    ) implies self.entities@[j]->Some_0.position == Some(np) by {
                    let idx = om.idx_of(np.x as int, np.y as int);
                    if exists|k: int| 0 <= k < j && moved_onto(&om, oe[k], before.entities@[k], idx) {
                        let k = choose|k: int| 0 <= k < j && moved_onto(&om, oe[k], before.entities@[k], idx);
                        assert(before.entities@[k] == self.entities@[k]);
                        assert(moved_onto(&om, oe[k], self.entities@[k], idx));
                    }
                    assert(step_owed(&om, oe, before.entities@, old(self).player_pos, path_for(paths@, j), j, np));
                    if j == i {
                        let steps = path_for(paths@, j)->Some_0;
                        let sidx = steps[1] as int;
                        lemma_index_round_trip(om.width as int, om.height as int, 0, 0, sidx);
                        assert(idx == sidx);
                        if before.map.blocked@[sidx] {
                            assert(!om.blocked@[sidx]);
                            let k = choose|k: int|
                                0 <= k < i && moved_onto(&om, oe[k], before.entities@[k], sidx);
                        }
                        assert(before.map.walkable(sidx));
                        assert(path_step(&before.map, path_for(paths@, j)) == MonsterAction::MoveTo(np));
                    }
                }
                if monster_sees(old(self).entities@[i as int], old(self).player_pos) && in_melee_range(
                    old(self).entities@[i as int]->Some_0.position->Some_0,
                    old(self).player_pos,
                ) {
                    assert(orig == old(self).entities@[i as int]);
                    if exists|k: int| 0 <= k < n && is_player_entity(#[trigger] old(self).entities@[k]) {
                        let k = choose|k: int| 0 <= k < n && is_player_entity(#[trigger] old(self).entities@[k]);
                        assert(player is Some);
                    }
                    assert(targets_player(old(self).entities@, self.entities@[i as int]));
                }
                assert forall|j: int|
                    0 <= j < n && #[trigger] self.entities@[j] is Some implies entity_ok(
                    &self.map,
                    self.entities@[j]->Some_0,
                ) by {
                    assert(before.entities@[j] is Some);
                }
            }
            i += 1;
        }
    }
    /// Moves the player by `(dx, dy)`, held to the map, when the cell reached
    /// can be entered; the player's viewshed becomes dirty and the player's
    /// focus follows. Returns whether the player moved. Without a player, or
    /// onto a wall or an occupied cell, nothing changes.
    pub fn try_move_player(&mut self, dx: i32, dy: i32) -> (r: bool)
        requires
            old(self).wf(),
        ensures
            final(self).wf(),
            final(self).map == old(self).map,
            final(self).entities@.len() == old(self).entities@.len(),
            r == player_can_step(old(self), dx as int, dy as int),
            !r ==> final(self).entities@ == old(self).entities@ && final(self).player_pos == old(
                self).player_pos,
            r ==> exists|k: int|
                0 <= k < old(self).entities@.len() && is_player_entity(old(self).entities@[k])
                    && (old(self).entities@[k]->Some_0.position matches Some(p) && {
                    let tx = clamp_int(p.x + dx, 0, old(self).map.width - 1);
                    let ty = clamp_int(p.y + dy, 0, old(self).map.height - 1);
                    &&& old(self).map.walkable(old(self).map.idx_of(tx, ty))
                    &&& final(self).player_pos.x == tx
                    &&& final(self).player_pos.y == ty
                    &&& final(self).entities@[k]->Some_0.position == Some(final(self).player_pos)
                }),
    {
        let pid = match self.find_player() {
            Some(k) => k,
            None => {
                return false;
            },
        };
        let ghost before = *self;
        let mut slot: Option<Entity> = None;
        self.entities.set_and_swap(pid, &mut slot);
        let mut moved = false;
        let mut back: Option<Entity> = None;
        match slot {
            Some(mut e) => {
                assert(entity_ok(&before.map, e));
                match e.position {
                    Some(p) => {
                        let mut tx: i64 = p.x as i64 + dx as i64;
                        let mut ty: i64 = p.y as i64 + dy as i64;
                        if tx < 0 {
                            tx = 0;
                        }
                        if tx > self.map.width as i64 - 1 {
                            tx = self.map.width as i64 - 1;
                        }
                        if ty < 0 {
                            ty = 0;
                        }
                        if ty > self.map.height as i64 - 1 {
                            ty = self.map.height as i64 - 1;
                        }
                        let np = Position { x: tx as i32, y: ty as i32 };
                        let idx = self.map.xy_idx(np.x, np.y);
                        if self.map.is_walkable(idx) {
                            e.position = Some(np);
                            let mut vs_opt: Option<Viewshed> = None;
                            std::mem::swap(&mut e.viewshed, &mut vs_opt);
                            match vs_opt {
                                Some(mut vs) => {
                                    vs.dirty = true;
                                    e.viewshed = Some(vs);
                                },
                                None => {},
                            }
                            self.player_pos = np;
                            moved = true;
                        }
                    },
                    None => {},
                }
                back = Some(e);
            },
            None => {},
        }
        if moved {
            self.entities.set(pid, back);
        } else {
            self.entities.set_and_swap(pid, &mut back);
            assert(self.entities@ =~= old(self).entities@);
        }
        proof {
            assert forall|j: int|
                0 <= j < self.entities@.len() && #[trigger] self.entities@[j] is Some implies entity_ok(
                &self.map,
                self.entities@[j]->Some_0,
            ) by {
                assert(before.entities@[j] is Some);
            }
            if moved {
                assert(is_player_entity(old(self).entities@[pid as int]));
                assert(first_player(old(self).entities@, pid as int));
            } else {
                assert forall|k: int| first_player(old(self).entities@, k) implies k == pid by {
                    if k < pid {
                        assert(!is_player_entity(old(self).entities@[k]));
                    }
                    if k > pid {
                        assert(!is_player_entity(old(self).entities@[pid as int]));
                    }
                }
            }
        }
        moved
    }

    /// One simulation step, in order: visibility, monster policy (with the
    /// routes in `paths`), occupancy, melee, damage, and removal of the dead.
    pub fn run_systems(&mut self, paths: &Vec<Option<Vec<usize>>>)
        requires
            old(self).wf(),
        ensures
            final(self).wf(),
            final(self).entities@.len() == old(self).entities@.len(),
            final(self).player_pos == old(self).player_pos,
            final(self).map.tiles@ == old(self).map.tiles@,
            forall|i: int|
                0 <= i < old(self).map.revealed_tiles@.len() && old(self).map.revealed_tiles@[i]
                    ==> #[trigger] final(self).map.revealed_tiles@[i],
            forall|i: int|
                0 <= i < final(self).entities@.len() ==> !is_dead(#[trigger] final(self).entities@[i]),
            forall|i: int|
                0 <= i < final(self).entities@.len() ==> (#[trigger] final(self).entities@[i] matches Some(e)
                    ==> e.wants_to_melee is None && e.suffer_damage@.len() == 0),
            step_post(*old(self), *final(self), paths@),
    {
        let ghost m0 = self.map;
        self.run_visibility();
        let ghost m1 = self.map;
        let ghost w1 = *self;
        self.run_monster_ai(paths);
        let ghost w2 = *self;
        self.run_map_indexing();
        let ghost w3 = *self;
        self.run_melee();
        let ghost w4 = *self;
        self.run_damage();
        let ghost w5 = *self;
        self.delete_the_dead();
        proof {
            assert(visibility_post(*old(self), w1) && monster_ai_post(w1, w2, paths@) && indexing_post(
                w2,
                w3,
            ) && melee_post(w3, w4) && damage_post(w4, w5) && dead_removed_post(w5, *self));
            assert forall|i: int|
                0 <= i < m0.revealed_tiles@.len() && m0.revealed_tiles@[i] implies #[trigger] self.map.revealed_tiles@[i] by {
                assert(m1.revealed_tiles@[i]);
            }
            assert forall|i: int|
                0 <= i < self.entities@.len() implies (#[trigger] self.entities@[i] matches Some(e)
                    ==> e.wants_to_melee is None && e.suffer_damage@.len() == 0) by {
                assert(damage_applied(w4.entities@[i], w5.entities@[i]));
            }
        }
    }
}

} // verus!

verus! {

impl State {
    /// The world is consistent.
    pub open spec fn wf(&self) -> bool {
        self.ecs.wf()
    }

    /// Runs one simulation step.
    pub fn run_systems(&mut self, paths: &Vec<Option<Vec<usize>>>)
        requires
            old(self).wf(),
        ensures
            final(self).wf(),
            final(self).run_state == old(self).run_state,
            final(self).ecs.entities@.len() == old(self).ecs.entities@.len(),
            forall|i: int|
                0 <= i < old(self).ecs.map.revealed_tiles@.len()
                    && old(self).ecs.map.revealed_tiles@[i]
                    ==> #[trigger] final(self).ecs.map.revealed_tiles@[i],
            forall|i: int|
                0 <= i < final(self).ecs.entities@.len() ==> !is_dead(
                    #[trigger] final(self).ecs.entities@[i],
                ),
            forall|i: int|
                0 <= i < final(self).ecs.entities@.len() ==> (
                #[trigger] final(self).ecs.entities@[i] matches Some(e) ==> e.wants_to_melee is None
                    && e.suffer_damage@.len() == 0),
            step_post(old(self).ecs, final(self).ecs, paths@),
    {
        self.ecs.run_systems(paths);
    }

    /// One turn of the session: a running session steps once and then waits;
    /// a waiting session starts running once the player has acted.
    pub fn advance(&mut self, player_acted: bool, paths: &Vec<Option<Vec<usize>>>)
        requires
            old(self).wf(),
        ensures
            final(self).wf(),
            old(self).run_state == RunState::Running ==> final(self).run_state == RunState::Paused,
            old(self).run_state == RunState::Paused ==> final(self).run_state == (if player_acted {
                RunState::Running
            } else {
                RunState::Paused
            }),
            old(self).run_state == RunState::Paused ==> final(self).ecs == old(self).ecs,
            old(self).run_state == RunState::Running ==> step_post(
                old(self).ecs,
                final(self).ecs,
                paths@,
            ),
    {
        if self.run_state == RunState::Running {
            self.run_systems(paths);
            self.run_state = RunState::Paused;
        } else if player_acted {
            self.run_state = RunState::Running;
        }
    }
}

} // verus!

verus! {

/// The damage pass as a system of its own.
pub struct DamageSystem {}

/// The monster policy pass as a system of its own.
pub struct MonsterAI {}

impl DamageSystem {
    /// Applies and clears every entity's pending damage.
    pub fn run(&mut self, world: &mut World)
        requires
            old(world).wf(),
        ensures
            final(world).wf(),
            final(world).map == old(world).map,
            final(world).player_pos == old(world).player_pos,
            final(world).entities@.len() == old(world).entities@.len(),
            forall|i: int|
                0 <= i < final(world).entities@.len() ==> #[trigger] damage_applied(
                    old(world).entities@[i],
                    final(world).entities@[i],
                ),
            damage_post(*old(world), *final(world)),
    {
        world.run_damage();
    }
}

impl MonsterAI {
    /// Runs the monster policy with the routes in `paths`.
    pub fn run(&mut self, world: &mut World, paths: &Vec<Option<Vec<usize>>>)
        requires
            old(world).wf(),
        ensures
            final(world).wf(),
            final(world).player_pos == old(world).player_pos,
            final(world).entities@.len() == old(world).entities@.len(),
            final(world).map.tiles@ == old(world).map.tiles@,
            final(world).map.revealed_tiles@ == old(world).map.revealed_tiles@,
            forall|i: int|
                0 <= i < final(world).entities@.len() ==> same_but_move(
                    old(world).entities@[i],
                    #[trigger] final(world).entities@[i],
                ),
            forall|i: int|
                0 <= i < final(world).entities@.len() && !monster_sees(
                    old(world).entities@[i],
                    old(world).player_pos,
                ) ==> #[trigger] final(world).entities@[i] == old(world).entities@[i],
            forall|i: int|
                0 <= i < final(world).entities@.len() && monster_sees(
                    old(world).entities@[i],
                    old(world).player_pos,
                ) && in_melee_range(
                    old(world).entities@[i]->Some_0.position->Some_0,
                    old(world).player_pos,
                ) ==> (#[trigger] final(world).entities@[i])->Some_0.position
                    == old(world).entities@[i]->Some_0.position && targets_player(
                    old(world).entities@,
                    final(world).entities@[i],
                ),
            forall|i: int|
                0 <= i < final(world).entities@.len() ==> moved_along(
                    &old(world).map,
                    old(world).entities@[i],
                    #[trigger] final(world).entities@[i],
                    path_for(paths@, i),
                ),
            monster_ai_post(*old(world), *final(world), paths@),
    {
        world.run_monster_ai(paths);
    }
}

} // verus!
