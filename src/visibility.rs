use vstd::prelude::*;
use crate::components::{Position, Viewshed, cells_of};
use crate::map::{GameMap, TileType};

verus! {

/// rltk's grid point, which its field of view takes and returns.
#[verifier::external_type_specification]
#[verifier::external_body]
pub struct ExPoint(rltk::Point);

impl rltk::BaseMap for GameMap {
    /// Walls block sight.
    fn is_opaque(&self, idx: usize) -> bool {
        idx < self.tiles.len() && self.tiles[idx] == TileType::Wall
    }
}

impl rltk::Algorithm2D for GameMap {
    /// Relies on rltk's `Point::new`: the point `(width, height)`.
    #[verifier::external_body]
    fn dimensions(&self) -> rltk::Point {
        rltk::Point::new(self.width, self.height)
    }
}

/// The cells that rltk's field of view reports as seen from `(x, y)` within
/// `range` on a grid of these tiles.
pub uninterp spec fn fov_of(
    tiles: Seq<TileType>,
    width: int,
    height: int,
    x: int,
    y: int,
    range: int,
) -> Set<(int, int)>;

/// A sight range for which rltk's field of view does no overflowing
/// arithmetic.
pub open spec fn range_ok(range: int) -> bool {
    0 <= range && 4 * range * range <= i32::MAX
}

/// Relies on `rltk::field_of_view`, recursive shadowcasting over walls: the
/// cells it reports depend on the tiles, the grid's size, the origin and the
/// range alone, lie inside the grid, and include the (in-bounds) origin.
#[verifier::external_body]
fn field_of_view(map: &GameMap, x: i32, y: i32, range: i32) -> (r: Vec<Position>)
    requires
        map.wf(),
        map.in_bounds(x as int, y as int),
        range_ok(range as int),
    ensures
        cells_of(r@) == fov_of(
            map.tiles@,
            map.width as int,
            map.height as int,
            x as int,
            y as int,
            range as int,
        ),
        forall|k: int| 0 <= k < r@.len() ==> map.in_bounds(r@[k].x as int, r@[k].y as int),
        cells_of(r@).contains((x as int, y as int)),
{
    rltk::field_of_view(rltk::Point::new(x, y), range, map).into_iter().map(
        |p: rltk::Point| Position { x: p.x, y: p.y },
    ).collect()
}

/// Cell `i` of `map` is one of the positions in `s`.
pub open spec fn seen_index(map: &GameMap, s: Seq<Position>, i: int) -> bool {
    exists|k: int| 0 <= k < s.len() && map.idx_of(s[k].x as int, s[k].y as int) == i
}

/// Recomputes a dirty viewshed of an entity standing at `pos`. For the player
/// the map's visible mask becomes exactly the cells now in view and those cells
/// are added to the revealed mask; another entity's view leaves the map alone.
/// A clean viewshed is left as it is.
pub fn update_viewshed(map: &mut GameMap, viewshed: &mut Viewshed, pos: Position, is_player: bool)
    requires
        old(map).wf(),
        old(map).in_bounds(pos.x as int, pos.y as int),
        range_ok(old(viewshed).range as int),
    ensures
        final(map).wf(),
        final(map).width == old(map).width,
        final(map).height == old(map).height,
        final(map).tiles@ == old(map).tiles@,
        final(map).blocked@ == old(map).blocked@,
        final(map).rooms@ == old(map).rooms@,
        final(map).start_pos == old(map).start_pos,
        final(viewshed).range == old(viewshed).range,
        !final(viewshed).dirty,
        forall|i: int|
            0 <= i < old(map).revealed_tiles@.len() && old(map).revealed_tiles@[i]
                ==> #[trigger] final(map).revealed_tiles@[i],
        !old(viewshed).dirty ==> {
            &&& final(viewshed).visible_tiles@ == old(viewshed).visible_tiles@
            &&& final(map).revealed_tiles@ == old(map).revealed_tiles@
            &&& final(map).visible_tiles@ == old(map).visible_tiles@
        },
        old(viewshed).dirty ==> {
            &&& cells_of(final(viewshed).visible_tiles@) == fov_of(
                old(map).tiles@,
                old(map).width as int,
                old(map).height as int,
                pos.x as int,
                pos.y as int,
                old(viewshed).range as int,
            )
            &&& forall|k: int|
                0 <= k < final(viewshed).visible_tiles@.len() ==> old(map).in_bounds(
                    final(viewshed).visible_tiles@[k].x as int,
                    final(viewshed).visible_tiles@[k].y as int,
                )
        },
        old(viewshed).dirty && is_player ==> forall|i: int|
            0 <= i < final(map).tiles@.len() ==> {
                &&& #[trigger] final(map).visible_tiles@[i] == seen_index(
                    old(map),
                    final(viewshed).visible_tiles@,
                    i,
                )
                &&& final(map).revealed_tiles@[i] == (old(map).revealed_tiles@[i]
                    || final(map).visible_tiles@[i])
            },
        !(old(viewshed).dirty && is_player) ==> {
            &&& final(map).revealed_tiles@ == old(map).revealed_tiles@
            &&& final(map).visible_tiles@ == old(map).visible_tiles@
        },
{
    if !viewshed.dirty {
        return;
    }
    viewshed.dirty = false;
    viewshed.visible_tiles = field_of_view(map, pos.x, pos.y, viewshed.range);
    if is_player {
        let n = map.tiles.len();
        let mut i: usize = 0;
        while i < n
            invariant
                map.wf(),
                n == map.tiles@.len(),
                i <= n,
                map.width == old(map).width,
                map.height == old(map).height,
                map.tiles@ == old(map).tiles@,
                map.blocked@ == old(map).blocked@,
                map.rooms@ == old(map).rooms@,
                map.start_pos == old(map).start_pos,
                map.revealed_tiles@ == old(map).revealed_tiles@,
                forall|j: int| 0 <= j < i ==> !#[trigger] map.visible_tiles@[j],
            decreases n - i,
        {
            map.visible_tiles.set(i, false);
            i += 1;
        }
        let vt = &viewshed.visible_tiles;
        let mut k: usize = 0;
        while k < vt.len()
            invariant
                map.wf(),
                n == map.tiles@.len(),
                k <= vt@.len(),
                map.width == old(map).width,
                map.height == old(map).height,
                map.tiles@ == old(map).tiles@,
                map.blocked@ == old(map).blocked@,
                map.rooms@ == old(map).rooms@,
                map.start_pos == old(map).start_pos,
                forall|t: int| 0 <= t < vt@.len() ==> map.in_bounds(vt@[t].x as int, vt@[t].y as int),
                forall|j: int|
                    0 <= j < n && old(map).revealed_tiles@[j] ==> #[trigger] map.revealed_tiles@[j],
                forall|j: int|
                    0 <= j < n ==> {
                        &&& #[trigger] map.visible_tiles@[j] == seen_index(
                            old(map),
                            vt@.subrange(0, k as int),
                            j,
                        )
                        &&& map.revealed_tiles@[j] == (old(map).revealed_tiles@[j]
                            || map.visible_tiles@[j])
                    },
            decreases vt@.len() - k,
        {
            let p = vt[k];
            let idx = map.xy_idx(p.x, p.y);
            map.visible_tiles.set(idx, true);
            map.revealed_tiles.set(idx, true);
            proof {
                let s0 = vt@.subrange(0, k as int);
                let s1 = vt@.subrange(0, k + 1);
                assert forall|j: int| 0 <= j < n implies seen_index(old(map), s1, j) == (
                seen_index(old(map), s0, j) || j == idx) by {
                    if seen_index(old(map), s0, j) {
                        let t = choose|t: int|
                            0 <= t < s0.len() && old(map).idx_of(s0[t].x as int, s0[t].y as int)
                                == j;
                        assert(s1[t] == s0[t]);
                    }
                    if j == idx {
                        assert(s1[k as int] == p);
                    }
                    if seen_index(old(map), s1, j) {
                        let t = choose|t: int|
                            0 <= t < s1.len() && old(map).idx_of(s1[t].x as int, s1[t].y as int)
                                == j;
                        if t < k {
                            assert(s0[t] == s1[t]);
                        }
                    }
                }
            }
            k += 1;
        }
        proof {
            assert(vt@.subrange(0, vt@.len() as int) =~= vt@);
        }
    }
}

} // verus!
