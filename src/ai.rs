use vstd::prelude::*;
use crate::components::{Position, Viewshed, cells_of};
use crate::map::GameMap;

verus! {

/// What a monster does in one step.
#[derive(PartialEq, Eq, Structural, Clone, Copy, Debug)]
pub enum MonsterAction {
    /// The player is out of sight, or no usable path leads to them.
    Idle,
    /// The player is adjacent: attack them.
    Melee,
    /// Step to this cell along the path to the player.
    MoveTo(Position),
}

/// Squared Euclidean distance between two cells.
pub open spec fn dist2(a: Position, b: Position) -> int {
    (a.x - b.x) * (a.x - b.x) + (a.y - b.y) * (a.y - b.y)
}

/// The Euclidean distance is below 1.5: the cells touch, diagonals included,
/// or coincide.
pub open spec fn in_melee_range(a: Position, b: Position) -> bool {
    4 * dist2(a, b) < 9
}

/// The move a path yields: its second waypoint, when there is one, it lies on
/// the map and it can be entered right now.
pub open spec fn path_step(map: &GameMap, path: Option<Seq<usize>>) -> MonsterAction {
    match path {
        Some(steps) => if steps.len() > 1 && steps[1] < map.tiles@.len() && map.walkable(
            steps[1] as int,
        ) {
            MonsterAction::MoveTo(
                Position {
                    x: map.cell_at(steps[1] as int).0 as i32,
                    y: map.cell_at(steps[1] as int).1 as i32,
                },
            )
        } else {
            MonsterAction::Idle
        },
        None => MonsterAction::Idle,
    }
}

/// The waypoints of an optional route.
pub open spec fn path_view(path: &Option<Vec<usize>>) -> Option<Seq<usize>> {
    match path {
        Some(v) => Some(v@),
        None => None,
    }
}

/// The monster policy: idle while the player is out of sight, attack when the
/// player is within 1.5 cells, else take the next step of `path`, the route
/// found from the monster to the player (`None` when there is none).
pub fn monster_decide(
    map: &GameMap,
    viewshed: &Viewshed,
    pos: Position,
    player: Position,
    path: &Option<Vec<usize>>,
) -> (r: MonsterAction)
    requires
        map.wf(),
    ensures
        !cells_of(viewshed.visible_tiles@).contains((player.x as int, player.y as int)) ==> r
            == MonsterAction::Idle,
        cells_of(viewshed.visible_tiles@).contains((player.x as int, player.y as int))
            && in_melee_range(pos, player) ==> r == MonsterAction::Melee,
        cells_of(viewshed.visible_tiles@).contains((player.x as int, player.y as int))
            && !in_melee_range(pos, player) ==> r == path_step(map, path_view(path)),
{
    if !viewshed.can_see(player) {
        return MonsterAction::Idle;
    }
    let dx = pos.x as i64 - player.x as i64;
    let dy = pos.y as i64 - player.y as i64;
    let near = -1 <= dx && dx <= 1 && -1 <= dy && dy <= 1;
    proof {
        let ddx = dx as int;
        let ddy = dy as int;
        assert(near == (4 * (ddx * ddx + ddy * ddy) < 9)) by (nonlinear_arith)
            requires
                near == (-1 <= ddx && ddx <= 1 && -1 <= ddy && ddy <= 1),
        ;
    }
    if near {
        return MonsterAction::Melee;
    }
    match path {
        Some(steps) => {
            if steps.len() > 1 && steps[1] < map.tiles.len() && map.is_walkable(steps[1]) {
                let (x, y) = map.idx_xy(steps[1]);
                MonsterAction::MoveTo(Position { x, y })
            } else {
                MonsterAction::Idle
            }
        },
        None => MonsterAction::Idle,
    }
}

} // verus!
