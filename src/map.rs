use vstd::prelude::*;
use vstd::arithmetic::div_mod::lemma_fundamental_div_mod_converse;
use crate::rect::Room;
use crate::rng::roll_range;

verus! {

/// The terrain of one cell.
#[derive(PartialEq, Eq, Structural, Clone, Copy, Debug)]
pub enum TileType {
    Wall,
    Floor,
}

/// A rectangular grid of tiles stored row by row, with the masks that the
/// visibility and occupancy passes maintain, and the rooms it was built from.
pub struct GameMap {
    pub width: i32,
    pub height: i32,
    pub tiles: Vec<TileType>,
    pub revealed_tiles: Vec<bool>,
    pub visible_tiles: Vec<bool>,
    pub blocked: Vec<bool>,
    pub rooms: Vec<Room>,
    pub start_pos: (i32, i32),
}

/// Index of cell `(x, y)` in a row-major grid `w` cells wide.
pub open spec fn index_of(w: int, x: int, y: int) -> int {
    y * w + x
}

/// Cell of index `idx` in a row-major grid `w` cells wide.
pub open spec fn cell_of(w: int, idx: int) -> (int, int) {
    (idx % w, idx / w)
}

/// `(x, y)` lies in the inclusive rectangle spanned by its two corners.
pub open spec fn in_span(x: int, y: int, x1: int, y1: int, x2: int, y2: int) -> bool {
    x1 <= x <= x2 && y1 <= y <= y2
}

/// The smaller of two integers.
pub open spec fn min_int(a: int, b: int) -> int {
    if a <= b { a } else { b }
}

/// The larger of two integers.
pub open spec fn max_int(a: int, b: int) -> int {
    if a >= b { a } else { b }
}

/// The index of an in-bounds cell is below `w * h`.
pub proof fn lemma_index_in_range(w: int, h: int, x: int, y: int)
    requires
        0 <= x < w,
        0 <= y < h,
    ensures
        0 <= index_of(w, x, y) < w * h,
{
    assert(0 <= y * w + x < w * h) by (nonlinear_arith)
        requires
            0 <= x < w,
            0 <= y < h,
    ;
}

/// Cell-to-index and index-to-cell conversions are mutual inverses on a
/// `w` by `h` grid: a cell maps to an index that maps back to it, and an index
/// below `w * h` maps to an in-bounds cell that maps back to it.
pub proof fn lemma_index_round_trip(w: int, h: int, x: int, y: int, idx: int)
    requires
        w >= 1,
        h >= 1,
        0 <= x < w,
        0 <= y < h,
        0 <= idx < w * h,
    ensures
        0 <= index_of(w, x, y) < w * h,
        cell_of(w, index_of(w, x, y)) == (x, y),
        0 <= cell_of(w, idx).0 < w,
        0 <= cell_of(w, idx).1 < h,
        index_of(w, cell_of(w, idx).0, cell_of(w, idx).1) == idx,
{
    lemma_cell_round_trip(w, h, x, y);
    lemma_cell_in_bounds(w, h, idx);
}

proof fn lemma_cell_round_trip(w: int, h: int, x: int, y: int)
    requires
        0 <= x < w,
        0 <= y < h,
    ensures
        0 <= index_of(w, x, y) < w * h,
        cell_of(w, index_of(w, x, y)) == (x, y),
{
    lemma_index_in_range(w, h, x, y);
    lemma_fundamental_div_mod_converse(y * w + x, w, y, x);
}

proof fn lemma_cell_in_bounds(w: int, h: int, idx: int)
    requires
        w >= 1,
        h >= 1,
        0 <= idx < w * h,
    ensures
        0 <= idx % w < w,
        0 <= idx / w < h,
        (idx / w) * w + idx % w == idx,
{
    assert(0 <= idx / w < h && (idx / w) * w + idx % w == idx) by (nonlinear_arith)
        requires
            w >= 1,
            h >= 1,
            0 <= idx < w * h,
    ;
}

/// Two cells share a side.
pub open spec fn adjacent(a: (int, int), b: (int, int)) -> bool {
    ||| (a.1 == b.1 && (a.0 == b.0 + 1 || b.0 == a.0 + 1))
    ||| (a.0 == b.0 && (a.1 == b.1 + 1 || b.1 == a.1 + 1))
}

/// How a cell is shown: not at all until revealed, dimmed when remembered
/// but out of view, plainly when in view.
#[derive(PartialEq, Eq, Structural, Clone, Copy, Debug)]
pub enum CellView {
    Hidden,
    Remembered(TileType),
    Seen(TileType),
}

/// Shortest side of a generated room.
pub const MIN_ROOM_SIZE: i32 = 6;

/// Longest side of a generated room.
pub const MAX_ROOM_SIZE: i32 = 10;

/// Why a map could not be generated.
#[derive(PartialEq, Eq, Structural, Clone, Copy, Debug)]
pub enum GenerationError {
    /// Fewer than two rooms could be placed in the attempts allowed.
    TooFewRooms,
}

/// The rooms of `m` are well formed, inside the grid's one-cell border, carved
/// to floor and pairwise free of overlap.
pub open spec fn rooms_placed(m: &GameMap) -> bool {
    &&& forall|k: int|
        0 <= k < m.rooms@.len() ==> {
            &&& (#[trigger] m.rooms@[k]).wf()
            &&& m.rooms@[k].within_margin(m.width as int, m.height as int)
            &&& m.room_carved(m.rooms@[k])
        }
    &&& forall|i: int, j: int|
        #![trigger m.rooms@[i], m.rooms@[j]]
        0 <= i < j < m.rooms@.len() ==> !m.rooms@[i].overlaps(&m.rooms@[j])
}

/// Each room's center is joined to the previous room's center by an L-shaped
/// run of floor, so all the centers lie in one open region.
pub open spec fn rooms_joined(m: &GameMap) -> bool {
    forall|k: int|
        1 <= k < m.rooms@.len() ==> m.joined(
            m.rooms@[k - 1].center_spec(),
            (#[trigger] m.rooms@[k]).center_spec(),
        )
}

/// What every generated map satisfies.
pub open spec fn generated_map(m: &GameMap, width: int, height: int) -> bool {
    &&& m.wf()
    &&& m.width == width
    &&& m.height == height
    &&& m.rooms@.len() >= 2
    &&& rooms_placed(m)
    &&& rooms_joined(m)
    &&& m.start_pos.0 == m.rooms@[0].center_spec().0
    &&& m.start_pos.1 == m.rooms@[0].center_spec().1
    &&& forall|i: int| 0 <= i < m.tiles@.len() ==> !m.revealed_tiles@[i]
    &&& forall|i: int| 0 <= i < m.tiles@.len() ==> !m.visible_tiles@[i]
    &&& forall|i: int| 0 <= i < m.tiles@.len() ==> !m.blocked@[i]
}

/// Candidate `c` is kept after the rooms `kept`: it is well formed, lies
/// inside the grid's one-cell border and overlaps none of them.
pub open spec fn acceptable(c: Room, kept: Seq<Room>, width: int, height: int) -> bool {
    &&& c.wf()
    &&& c.within_margin(width, height)
    &&& forall|k: int| 0 <= k < kept.len() ==> !c.overlaps(&#[trigger] kept[k])
}

/// The rooms kept from `cands`, taken in order, each kept when acceptable
/// after those kept before it.
pub open spec fn kept_rooms(cands: Seq<Room>, width: int, height: int) -> Seq<Room>
    decreases cands.len(),
{
    if cands.len() == 0 {
        Seq::empty()
    } else {
        let prev = kept_rooms(cands.drop_last(), width, height);
        if acceptable(cands.last(), prev, width, height) {
            prev.push(cands.last())
        } else {
            prev
        }
    }
}

/// The coin of corridor `k`: `flips[k]`, or `false` past the end.
pub open spec fn flip_at(flips: Seq<bool>, k: int) -> bool {
    0 <= k < flips.len() && flips[k]
}

/// `(x, y)` lies on the corridor from `a` to `b`: along `a`'s row then `b`'s
/// column when `flip`, else along `a`'s column then `b`'s row.
pub open spec fn on_corridor(a: (int, int), b: (int, int), flip: bool, x: int, y: int) -> bool {
    if flip {
        (y == a.1 && min_int(a.0, b.0) <= x <= max_int(a.0, b.0)) || (x == b.0 && min_int(a.1, b.1)
            <= y <= max_int(a.1, b.1))
    } else {
        (x == a.0 && min_int(a.1, b.1) <= y <= max_int(a.1, b.1)) || (y == b.1 && min_int(a.0, b.0)
            <= x <= max_int(a.0, b.0))
    }
}

/// `(x, y)` lies in one of `rooms`.
pub open spec fn in_some_room(rooms: Seq<Room>, x: int, y: int) -> bool {
    exists|k: int| 0 <= k < rooms.len() && (#[trigger] rooms[k]).contains_cell(x, y)
}

/// `(x, y)` lies on one of the first `n - 1` corridors joining consecutive
/// room centers.
pub open spec fn on_some_corridor(rooms: Seq<Room>, flips: Seq<bool>, n: int, x: int, y: int) -> bool {
    exists|k: int|
        1 <= k < n && #[trigger] on_corridor(
            rooms[k - 1].center_spec(),
            rooms[k].center_spec(),
            flip_at(flips, k - 1),
            x,
            y,
        )
}

/// Every kept room is one of the candidates, so there are no more kept rooms
/// than candidates.
pub proof fn lemma_kept_from(cands: Seq<Room>, width: int, height: int)
    ensures
        kept_rooms(cands, width, height).len() <= cands.len(),
        forall|k: int|
            0 <= k < kept_rooms(cands, width, height).len() ==> exists|j: int|
                0 <= j < cands.len() && #[trigger] kept_rooms(cands, width, height)[k] == cands[j],
    decreases cands.len(),
{
    if cands.len() > 0 {
        let prev = cands.drop_last();
        lemma_kept_from(prev, width, height);
        let kp = kept_rooms(prev, width, height);
        let kr = kept_rooms(cands, width, height);
        assert forall|k: int| 0 <= k < kr.len() implies exists|j: int|
            0 <= j < cands.len() && #[trigger] kr[k] == cands[j] by {
            if k < kp.len() {
                assert(kr[k] == kp[k]);
                let j = choose|j: int| 0 <= j < prev.len() && kp[k] == prev[j];
                assert(cands[j] == prev[j]);
            } else {
                assert(kr[k] == cands[cands.len() - 1]);
            }
        }
    }
}

/// Every floor cell of `a` is floor in `b`, on grids of one shape.
pub open spec fn floor_kept(a: &GameMap, b: &GameMap) -> bool {
    &&& a.width == b.width
    &&& a.height == b.height
    &&& a.tiles@.len() == b.tiles@.len()
    &&& forall|i: int|
        0 <= i < a.tiles@.len() && a.tiles@[i] == TileType::Floor ==> #[trigger] b.tiles@[i]
            == TileType::Floor
}

/// Carving only adds floor, so rooms and corridors stay open.
pub proof fn lemma_floor_kept(a: &GameMap, b: &GameMap)
    requires
        a.wf(),
        floor_kept(a, b),
    ensures
        forall|x: int, y: int| a.floor_at(x, y) ==> #[trigger] b.floor_at(x, y),
{
    assert forall|x: int, y: int| a.floor_at(x, y) implies #[trigger] b.floor_at(x, y) by {
        lemma_index_in_range(a.width as int, a.height as int, x, y);
    }
}

impl GameMap {
    /// The grid's size fits the index arithmetic and every mask covers the grid.
    pub open spec fn wf(&self) -> bool {
        &&& self.width >= 1
        &&& self.height >= 1
        &&& self.width * self.height <= i32::MAX
        &&& self.tiles@.len() == self.width * self.height
        &&& self.revealed_tiles@.len() == self.width * self.height
        &&& self.visible_tiles@.len() == self.width * self.height
        &&& self.blocked@.len() == self.width * self.height
    }

    /// `(x, y)` is a cell of the grid.
    pub open spec fn in_bounds(&self, x: int, y: int) -> bool {
        0 <= x < self.width && 0 <= y < self.height
    }

    /// Index of cell `(x, y)` in this grid's row-major order.
    pub open spec fn idx_of(&self, x: int, y: int) -> int {
        index_of(self.width as int, x, y)
    }

    /// Cell of index `idx` in this grid's row-major order.
    pub open spec fn cell_at(&self, idx: int) -> (int, int) {
        cell_of(self.width as int, idx)
    }

    /// Cell `(x, y)` is inside the grid and holds floor.
    pub open spec fn floor_at(&self, x: int, y: int) -> bool {
        self.in_bounds(x, y) && self.tiles@[self.idx_of(x, y)] == TileType::Floor
    }

    /// Every cell between `x1` and `x2` on row `y` is floor.
    pub open spec fn h_run_open(&self, x1: int, x2: int, y: int) -> bool {
        forall|x: int| min_int(x1, x2) <= x <= max_int(x1, x2) ==> #[trigger] self.floor_at(x, y)
    }

    /// Every cell between `y1` and `y2` on column `x` is floor.
    pub open spec fn v_run_open(&self, y1: int, y2: int, x: int) -> bool {
        forall|y: int| min_int(y1, y2) <= y <= max_int(y1, y2) ==> #[trigger] self.floor_at(x, y)
    }

    /// Cells `a` and `b` are joined by an L-shaped run of floor, turning either
    /// at `(b.0, a.1)` or at `(a.0, b.1)`.
    pub open spec fn joined(&self, a: (int, int), b: (int, int)) -> bool {
        ||| (self.h_run_open(a.0, b.0, a.1) && self.v_run_open(a.1, b.1, b.0))
        ||| (self.v_run_open(a.1, b.1, a.0) && self.h_run_open(a.0, b.0, b.1))
    }

    /// Every cell of `room` is floor.
    pub open spec fn room_carved(&self, room: Room) -> bool {
        forall|x: int, y: int| room.contains_cell(x, y) ==> #[trigger] self.floor_at(x, y)
    }

    /// A cell can be entered: it is floor and no blocking entity stands on it.
    pub open spec fn walkable(&self, idx: int) -> bool {
        self.tiles@[idx] == TileType::Floor && !self.blocked@[idx]
    }

    /// A `width` by `height` grid of `tile`, nothing revealed, visible or
    /// blocked, with no rooms and the start at the origin.
    pub fn filled(width: i32, height: i32, tile: TileType) -> (r: GameMap)
        requires
            width >= 1,
            height >= 1,
            width * height <= i32::MAX,
        ensures
            r.wf(),
            r.width == width,
            r.height == height,
            forall|i: int| 0 <= i < width * height ==> r.tiles@[i] == tile,
            forall|i: int| 0 <= i < width * height ==> !r.revealed_tiles@[i],
            forall|i: int| 0 <= i < width * height ==> !r.visible_tiles@[i],
            forall|i: int| 0 <= i < width * height ==> !r.blocked@[i],
            r.rooms@.len() == 0,
            r.start_pos == (0i32, 0i32),
    {
        let n = (width * height) as usize;
        let mut tiles: Vec<TileType> = Vec::new();
        let mut revealed: Vec<bool> = Vec::new();
        let mut visible: Vec<bool> = Vec::new();
        let mut blocked: Vec<bool> = Vec::new();
        let mut i: usize = 0;
        while i < n
            invariant
                n == width * height,
                i <= n,
                tiles@.len() == i,
                revealed@.len() == i,
                visible@.len() == i,
                blocked@.len() == i,
                forall|j: int| 0 <= j < i ==> tiles@[j] == tile,
                forall|j: int| 0 <= j < i ==> !revealed@[j],
                forall|j: int| 0 <= j < i ==> !visible@[j],
                forall|j: int| 0 <= j < i ==> !blocked@[j],
            decreases n - i,
        {
            tiles.push(tile);
            revealed.push(false);
            visible.push(false);
            blocked.push(false);
            i += 1;
        }
        GameMap {
            width,
            height,
            tiles,
            revealed_tiles: revealed,
            visible_tiles: visible,
            blocked,
            rooms: Vec::new(),
            start_pos: (0, 0),
        }
    }

    /// Whether `(x, y)` lies inside the grid.
    pub fn in_bounds_exec(&self, x: i32, y: i32) -> (r: bool)
        ensures
            r == self.in_bounds(x as int, y as int),
    {
        0 <= x && x < self.width && 0 <= y && y < self.height
    }

    /// Index of the in-bounds cell `(x, y)`.
    pub fn xy_idx(&self, x: i32, y: i32) -> (r: usize)
        requires
            self.wf(),
            self.in_bounds(x as int, y as int),
        ensures
            r == self.idx_of(x as int, y as int),
            r < self.tiles@.len(),
    {
        proof {
            lemma_index_in_range(self.width as int, self.height as int, x as int, y as int);
            assert(y * self.width <= y * self.width + x);
        }
        (y as usize) * (self.width as usize) + (x as usize)
    }

    /// Cell of an index below `width * height`.
    pub fn idx_xy(&self, idx: usize) -> (r: (i32, i32))
        requires
            self.wf(),
            idx < self.tiles@.len(),
        ensures
            (r.0 as int, r.1 as int) == self.cell_at(idx as int),
            self.in_bounds(r.0 as int, r.1 as int),
            self.idx_of(r.0 as int, r.1 as int) == idx,
    {
        proof {
            lemma_cell_in_bounds(self.width as int, self.height as int, idx as int);
        }
        let w = self.width as usize;
        ((idx % w) as i32, (idx / w) as i32)
    }
    /// Turns to floor every cell of the inclusive rectangle from `(x1, y1)` to
    /// `(x2, y2)`; cells outside it keep their tile.
    pub fn carve_rect(&mut self, x1: i32, y1: i32, x2: i32, y2: i32)
        requires
            old(self).wf(),
        ensures
            final(self).wf(),
            final(self).width == old(self).width,
            final(self).height == old(self).height,
            final(self).revealed_tiles@ == old(self).revealed_tiles@,
            final(self).visible_tiles@ == old(self).visible_tiles@,
            final(self).blocked@ == old(self).blocked@,
            final(self).rooms@ == old(self).rooms@,
            final(self).start_pos == old(self).start_pos,
            forall|i: int|
                0 <= i < final(self).tiles@.len() ==> #[trigger] final(self).tiles@[i] == if in_span(
                    old(self).cell_at(i).0,
                    old(self).cell_at(i).1,
                    x1 as int,
                    y1 as int,
                    x2 as int,
                    y2 as int,
                ) {
                    TileType::Floor
                } else {
                    old(self).tiles@[i]
                },
    {
        let n = self.tiles.len();
        let mut i: usize = 0;
        while i < n
            invariant
                self.wf(),
                n == self.tiles@.len(),
                i <= n,
                self.width == old(self).width,
                self.height == old(self).height,
                self.revealed_tiles@ == old(self).revealed_tiles@,
                self.visible_tiles@ == old(self).visible_tiles@,
                self.blocked@ == old(self).blocked@,
                self.rooms@ == old(self).rooms@,
                self.start_pos == old(self).start_pos,
                self.tiles@.len() == old(self).tiles@.len(),
                forall|j: int|
                    0 <= j < i ==> #[trigger] self.tiles@[j] == if in_span(
                        old(self).cell_at(j).0,
                        old(self).cell_at(j).1,
                        x1 as int,
                        y1 as int,
                        x2 as int,
                        y2 as int,
                    ) {
                        TileType::Floor
                    } else {
                        old(self).tiles@[j]
                    },
                forall|j: int| i <= j < n ==> #[trigger] self.tiles@[j] == old(self).tiles@[j],
            decreases n - i,
        {
            let (x, y) = self.idx_xy(i);
            if x1 <= x && x <= x2 && y1 <= y && y <= y2 {
                self.tiles.set(i, TileType::Floor);
            }
            i += 1;
        }
    }

    /// Turns the cells of `room` to floor.
    pub fn apply_room_to_map(&mut self, room: &Room)
        requires
            old(self).wf(),
            room.wf(),
        ensures
            final(self).wf(),
            final(self).width == old(self).width,
            final(self).height == old(self).height,
            final(self).revealed_tiles@ == old(self).revealed_tiles@,
            final(self).visible_tiles@ == old(self).visible_tiles@,
            final(self).blocked@ == old(self).blocked@,
            final(self).rooms@ == old(self).rooms@,
            final(self).start_pos == old(self).start_pos,
            floor_kept(old(self), final(self)),
            forall|x: int, y: int|
                room.contains_cell(x, y) && final(self).in_bounds(x, y) ==> #[trigger] final(self).floor_at(x, y),
            forall|i: int|
                0 <= i < final(self).tiles@.len() ==> #[trigger] final(self).tiles@[i] == if room.contains_cell(
                    old(self).cell_at(i).0,
                    old(self).cell_at(i).1,
                ) {
                    TileType::Floor
                } else {
                    old(self).tiles@[i]
                },
    {
        self.carve_rect(room.x, room.y, room.x + room.w - 1, room.y + room.h - 1);
        proof {
            let w = self.width as int;
            let h = self.height as int;
            assert forall|x: int, y: int|
                room.contains_cell(x, y) && self.in_bounds(x, y) implies #[trigger] self.floor_at(
                x,
                y,
            ) by {
                lemma_cell_round_trip(w, h, x, y);
            }
        }
    }

    /// Turns to floor the cells of row `y` between columns `x1` and `x2`.
    pub fn apply_horizontal_tunnel(&mut self, x1: i32, x2: i32, y: i32)
        requires
            old(self).wf(),
        ensures
            final(self).wf(),
            final(self).width == old(self).width,
            final(self).height == old(self).height,
            final(self).revealed_tiles@ == old(self).revealed_tiles@,
            final(self).visible_tiles@ == old(self).visible_tiles@,
            final(self).blocked@ == old(self).blocked@,
            final(self).rooms@ == old(self).rooms@,
            final(self).start_pos == old(self).start_pos,
            floor_kept(old(self), final(self)),
            final(self).in_bounds(x1 as int, y as int) && final(self).in_bounds(x2 as int, y as int)
                ==> final(self).h_run_open(x1 as int, x2 as int, y as int),
            forall|i: int|
                0 <= i < final(self).tiles@.len() ==> #[trigger] final(self).tiles@[i] == if in_span(
                    old(self).cell_at(i).0,
                    old(self).cell_at(i).1,
                    min_int(x1 as int, x2 as int),
                    y as int,
                    max_int(x1 as int, x2 as int),
                    y as int,
                ) {
                    TileType::Floor
                } else {
                    old(self).tiles@[i]
                },
    {
        if x1 <= x2 {
            self.carve_rect(x1, y, x2, y);
        } else {
            self.carve_rect(x2, y, x1, y);
        }
        proof {
            let w = self.width as int;
            let h = self.height as int;
            if self.in_bounds(x1 as int, y as int) && self.in_bounds(x2 as int, y as int) {
                assert forall|x: int|
                    min_int(x1 as int, x2 as int) <= x <= max_int(
                        x1 as int,
                        x2 as int,
                    ) implies #[trigger] self.floor_at(x, y as int) by {
                    lemma_cell_round_trip(w, h, x, y as int);
                }
            }
        }
    }

    /// Turns to floor the cells of column `x` between rows `y1` and `y2`.
    pub fn apply_vertical_tunnel(&mut self, y1: i32, y2: i32, x: i32)
        requires
            old(self).wf(),
        ensures
            final(self).wf(),
            final(self).width == old(self).width,
            final(self).height == old(self).height,
            final(self).revealed_tiles@ == old(self).revealed_tiles@,
            final(self).visible_tiles@ == old(self).visible_tiles@,
            final(self).blocked@ == old(self).blocked@,
            final(self).rooms@ == old(self).rooms@,
            final(self).start_pos == old(self).start_pos,
            floor_kept(old(self), final(self)),
            final(self).in_bounds(x as int, y1 as int) && final(self).in_bounds(x as int, y2 as int)
                ==> final(self).v_run_open(y1 as int, y2 as int, x as int),
            forall|i: int|
                0 <= i < final(self).tiles@.len() ==> #[trigger] final(self).tiles@[i] == if in_span(
                    old(self).cell_at(i).0,
                    old(self).cell_at(i).1,
                    x as int,
                    min_int(y1 as int, y2 as int),
                    x as int,
                    max_int(y1 as int, y2 as int),
                ) {
                    TileType::Floor
                } else {
                    old(self).tiles@[i]
                },
    {
        if y1 <= y2 {
            self.carve_rect(x, y1, x, y2);
        } else {
            self.carve_rect(x, y2, x, y1);
        }
        proof {
            let w = self.width as int;
            let h = self.height as int;
            if self.in_bounds(x as int, y1 as int) && self.in_bounds(x as int, y2 as int) {
                assert forall|y: int|
                    min_int(y1 as int, y2 as int) <= y <= max_int(
                        y1 as int,
                        y2 as int,
                    ) implies #[trigger] self.floor_at(x as int, y) by {
                    lemma_cell_round_trip(w, h, x as int, y);
                }
            }
        }
    }

    /// Whether a creature may step onto cell `idx`: it is floor and not occupied.
    pub fn is_walkable(&self, idx: usize) -> (r: bool)
        requires
            self.wf(),
            idx < self.tiles@.len(),
        ensures
            r == self.walkable(idx as int),
    {
        self.tiles[idx] == TileType::Floor && !self.blocked[idx]
    }
    fn push_exit(&self, r: &mut Vec<usize>, nx: i32, ny: i32)
        requires
            self.wf(),
            self.in_bounds(nx as int, ny as int),
        ensures
            self.walkable(self.idx_of(nx as int, ny as int)) ==> final(r)@ == old(r)@.push(
                self.idx_of(nx as int, ny as int) as usize,
            ),
            !self.walkable(self.idx_of(nx as int, ny as int)) ==> final(r)@ == old(r)@,
    {
        let j = self.xy_idx(nx, ny);
        if self.is_walkable(j) {
            r.push(j);
        }
    }

    /// The cells that share a side with `idx` and can be entered, as indices:
    /// left, right, up, down, each only where it exists. Pathfinding takes
    /// each as an edge of cost one.
    #[verifier::rlimit(40)]
    pub fn get_available_exits(&self, idx: usize) -> (r: Vec<usize>)
        requires
            self.wf(),
            idx < self.tiles@.len(),
        ensures
            forall|j: usize|
                #![trigger r@.contains(j)]
                #![trigger self.walkable(j as int)]
                r@.contains(j) <==> (j < self.tiles@.len() && adjacent(
                    self.cell_at(idx as int),
                    self.cell_at(j as int),
                ) && self.walkable(j as int)),
    {
        let ghost w = self.width as int;
        let ghost h = self.height as int;
        let (x, y) = self.idx_xy(idx);
        let mut r: Vec<usize> = Vec::new();
        let ghost c0 = index_of(w, x - 1, y as int);
        let ghost c1 = index_of(w, x + 1, y as int);
        let ghost c2 = index_of(w, x as int, y - 1);
        let ghost c3 = index_of(w, x as int, y + 1);
        let ghost b0 = x > 0 && self.walkable(c0);
        let ghost b1 = x + 1 < w && self.walkable(c1);
        let ghost b2 = y > 0 && self.walkable(c2);
        let ghost b3 = y + 1 < h && self.walkable(c3);
        if x > 0 {
            self.push_exit(&mut r, x - 1, y);
        }
        let ghost p0 = r@.len() - 1;
        let ghost r0 = r@;
        if x + 1 < self.width {
            self.push_exit(&mut r, x + 1, y);
        }
        let ghost p1 = r@.len() - 1;
        let ghost r1 = r@;
        if y > 0 {
            self.push_exit(&mut r, x, y - 1);
        }
        let ghost p2 = r@.len() - 1;
        let ghost r2 = r@;
        if y + 1 < self.height {
            self.push_exit(&mut r, x, y + 1);
        }
        proof {
            assert(r0.len() <= 1);
            assert(b0 ==> r0 == seq![c0 as usize]);
            assert(!b0 ==> r0.len() == 0);
            assert(b1 ==> r1 == r0.push(c1 as usize));
            assert(!b1 ==> r1 == r0);
            assert(b2 ==> r2 == r1.push(c2 as usize));
            assert(!b2 ==> r2 == r1);
            assert(b3 ==> r@ == r2.push(c3 as usize));
            assert(!b3 ==> r@ == r2);
            assert forall|j: usize|
                #![trigger r@.contains(j)]
                #![trigger self.walkable(j as int)]
                r@.contains(j) <==> (j < self.tiles@.len() && adjacent(
                    self.cell_at(idx as int),
                    self.cell_at(j as int),
                ) && self.walkable(j as int)) by {
                if r@.contains(j) {
                    let t = choose|t: int| 0 <= t < r@.len() && r@[t] == j;
                    if x > 0 {
                        lemma_cell_round_trip(w, h, x - 1, y as int);
                    }
                    if x + 1 < w {
                        lemma_cell_round_trip(w, h, x + 1, y as int);
                    }
                    if y > 0 {
                        lemma_cell_round_trip(w, h, x as int, y - 1);
                    }
                    if y + 1 < h {
                        lemma_cell_round_trip(w, h, x as int, y + 1);
                    }
                    if b3 && t == r@.len() - 1 {
                        assert(j == c3);
                    } else {
                        assert(r2[t] == j);
                        if b2 && t == r2.len() - 1 {
                            assert(j == c2);
                        } else {
                            assert(r1[t] == j);
                            if b1 && t == r1.len() - 1 {
                                assert(j == c1);
                            } else {
                                assert(r0[t] == j);
                                assert(b0 && j == c0);
                            }
                        }
                    }
                }
                if j < self.tiles@.len() && adjacent(
                    self.cell_at(idx as int),
                    self.cell_at(j as int),
                ) && self.walkable(j as int) {
                    lemma_cell_in_bounds(w, h, j as int);
                    let cj = self.cell_at(j as int);
                    if cj == (x - 1, y as int) {
                        assert(j == c0 && b0);
                        assert(r@[p0] == j);
                    } else if cj == (x + 1, y as int) {
                        assert(j == c1 && b1);
                        assert(r@[p1] == j);
                    } else if cj == (x as int, y - 1) {
                        assert(j == c2 && b2);
                        assert(r@[p2] == j);
                    } else {
                        assert(j == c3 && b3);
                        assert(r@[r@.len() - 1] == j);
                    }
                }
            }
        }
        r
    }

    /// Rebuilds the occupancy mask from scratch: a cell is blocked when it is a
    /// wall or when one of `occupied` names it (indices outside the grid are
    /// ignored).
    pub fn populate_blocked(&mut self, occupied: &Vec<usize>)
        requires
            old(self).wf(),
        ensures
            final(self).wf(),
            final(self).width == old(self).width,
            final(self).height == old(self).height,
            final(self).tiles@ == old(self).tiles@,
            final(self).revealed_tiles@ == old(self).revealed_tiles@,
            final(self).visible_tiles@ == old(self).visible_tiles@,
            final(self).rooms@ == old(self).rooms@,
            final(self).start_pos == old(self).start_pos,
            forall|i: int|
                0 <= i < final(self).blocked@.len() ==> #[trigger] final(self).blocked@[i] == (
                old(self).tiles@[i] == TileType::Wall || occupied@.contains(i as usize)),
    {
        let n = self.tiles.len();
        let mut i: usize = 0;
        while i < n
            invariant
                self.wf(),
                n == self.tiles@.len(),
                i <= n,
                self.width == old(self).width,
                self.height == old(self).height,
                self.tiles@ == old(self).tiles@,
                self.revealed_tiles@ == old(self).revealed_tiles@,
                self.visible_tiles@ == old(self).visible_tiles@,
                self.rooms@ == old(self).rooms@,
                self.start_pos == old(self).start_pos,
                forall|j: int|
                    0 <= j < i ==> #[trigger] self.blocked@[j] == (self.tiles@[j]
                        == TileType::Wall),
            decreases n - i,
        {
            let wall = self.tiles[i] == TileType::Wall;
            self.blocked.set(i, wall);
            i += 1;
        }
        let mut k: usize = 0;
        while k < occupied.len()
            invariant
                self.wf(),
                n == self.tiles@.len(),
                k <= occupied@.len(),
                self.width == old(self).width,
                self.height == old(self).height,
                self.tiles@ == old(self).tiles@,
                self.revealed_tiles@ == old(self).revealed_tiles@,
                self.visible_tiles@ == old(self).visible_tiles@,
                self.rooms@ == old(self).rooms@,
                self.start_pos == old(self).start_pos,
                forall|j: int|
                    0 <= j < n ==> #[trigger] self.blocked@[j] == (self.tiles@[j] == TileType::Wall
                        || occupied@.subrange(0, k as int).contains(j as usize)),
            decreases occupied@.len() - k,
        {
            let c = occupied[k];
            if c < n {
                self.blocked.set(c, true);
            }
            proof {
                assert forall|j: int|
                    0 <= j < n implies #[trigger] self.blocked@[j] == (self.tiles@[j]
                        == TileType::Wall || occupied@.subrange(0, k + 1).contains(
                        j as usize,
                    )) by {
                    let s0 = occupied@.subrange(0, k as int);
                    let s1 = occupied@.subrange(0, k + 1);
                    assert(s1 =~= s0.push(c));
                    if s0.contains(j as usize) {
                        let t = choose|t: int| 0 <= t < s0.len() && s0[t] == j as usize;
                        assert(s1[t] == j as usize);
                    }
                    if j as usize == c {
                        assert(s1[k as int] == c);
                    }
                }
            }
            k += 1;
        }
        assert(occupied@.subrange(0, occupied@.len() as int) =~= occupied@);
    }
    /// Builds a `width` by `height` map from candidate rooms and corridor
    /// coins: each candidate is kept when acceptable after the rooms kept
    /// before it, kept rooms are carved, and kept room `k` is joined to room
    /// `k - 1` by an L-shaped corridor turning as `flips[k - 1]` says. Fails
    /// when fewer than two rooms are kept. Exactly the cells of kept rooms and
    /// corridors are floor.
    pub fn from_candidates(
        width: i32,
        height: i32,
        candidates: &Vec<Room>,
        flips: &Vec<bool>,
    ) -> (r: Result<GameMap, GenerationError>)
        requires
            width >= 1,
            height >= 1,
            width * height <= i32::MAX,
        ensures
            r is Ok <==> kept_rooms(candidates@, width as int, height as int).len() >= 2,
            r is Err ==> r == Err::<GameMap, GenerationError>(GenerationError::TooFewRooms),
            r matches Ok(m) ==> {
                &&& generated_map(&m, width as int, height as int)
                &&& m.rooms@ == kept_rooms(candidates@, width as int, height as int)
                &&& forall|i: int|
                    0 <= i < m.tiles@.len() ==> (#[trigger] m.tiles@[i] == TileType::Floor <==> (
                    in_some_room(m.rooms@, m.cell_at(i).0, m.cell_at(i).1) || on_some_corridor(
                        m.rooms@,
                        flips@,
                        m.rooms@.len() as int,
                        m.cell_at(i).0,
                        m.cell_at(i).1,
                    )))
            },
    {
        let mut map = GameMap::filled(width, height, TileType::Wall);
        let mut rooms: Vec<Room> = Vec::new();
        let mut c: usize = 0;
        while c < candidates.len()
            invariant
                map.wf(),
                map.width == width,
                map.height == height,
                map.rooms@.len() == 0,
                forall|i: int| 0 <= i < map.tiles@.len() ==> !map.revealed_tiles@[i],
                forall|i: int| 0 <= i < map.tiles@.len() ==> !map.visible_tiles@[i],
                forall|i: int| 0 <= i < map.tiles@.len() ==> !map.blocked@[i],
                c <= candidates@.len(),
                rooms@ == kept_rooms(candidates@.subrange(0, c as int), width as int, height as int),
                forall|k: int|
                    0 <= k < rooms@.len() ==> {
                        &&& (#[trigger] rooms@[k]).wf()
                        &&& rooms@[k].within_margin(width as int, height as int)
                        &&& map.room_carved(rooms@[k])
                    },
                forall|i: int, j: int|
                    #![trigger rooms@[i], rooms@[j]]
                    0 <= i < j < rooms@.len() ==> !rooms@[i].overlaps(&rooms@[j]),
                forall|i: int|
                    0 <= i < map.tiles@.len() ==> (#[trigger] map.tiles@[i] == TileType::Floor
                        <==> in_some_room(rooms@, map.cell_at(i).0, map.cell_at(i).1)),
            decreases candidates@.len() - c,
        {
            let room = candidates[c];
            let ghost sub = candidates@.subrange(0, c as int + 1);
            proof {
                assert(sub.drop_last() =~= candidates@.subrange(0, c as int));
            }
            let fits = room.w >= 1 && room.h >= 1 && room.x as i64 + room.w as i64 <= i32::MAX as i64
                && room.y as i64 + room.h as i64 <= i32::MAX as i64 && room.x >= 1 && room.y >= 1
                && room.x as i64 + room.w as i64 <= width as i64 - 1 && room.y as i64 + room.h as i64
                <= height as i64 - 1;
            if fits {
                let mut ok = true;
                let mut j: usize = 0;
                while j < rooms.len()
                    invariant
                        j <= rooms@.len(),
                        room.wf(),
                        forall|k: int| 0 <= k < rooms@.len() ==> (#[trigger] rooms@[k]).wf(),
                        ok == (forall|k: int| 0 <= k < j ==> !room.overlaps(&#[trigger] rooms@[k])),
                    decreases rooms@.len() - j,
                {
                    if room.intersects(&rooms[j]) {
                        ok = false;
                    }
                    j += 1;
                }
                if ok {
                    let ghost before = map;
                    let ghost rooms0 = rooms@;
                    map.apply_room_to_map(&room);
                    proof {
                        lemma_floor_kept(&before, &map);
                    }
                    rooms.push(room);
                    proof {
                        assert forall|i: int| 0 <= i < map.tiles@.len() implies (
                        #[trigger] map.tiles@[i] == TileType::Floor <==> in_some_room(
                            rooms@,
                            map.cell_at(i).0,
                            map.cell_at(i).1,
                        )) by {
                            let (x, y) = map.cell_at(i);
                            if in_some_room(rooms0, x, y) {
                                let k = choose|k: int| 0 <= k < rooms0.len() && (#[trigger] rooms0[k]).contains_cell(x, y);
                                assert(rooms@[k] == rooms0[k]);
                            }
                            if room.contains_cell(x, y) {
                                assert(rooms@[rooms0.len() as int] == room);
                            }
                            if in_some_room(rooms@, x, y) {
                                let k = choose|k: int| 0 <= k < rooms@.len() && (#[trigger] rooms@[k]).contains_cell(x, y);
                                if k < rooms0.len() {
                                    assert(rooms0[k] == rooms@[k]);
                                }
                            }
                        }
                    }
                }
            }
            c += 1;
        }
        proof {
            assert(candidates@.subrange(0, candidates@.len() as int) =~= candidates@);
        }
        if rooms.len() < 2 {
            return Err(GenerationError::TooFewRooms);
        }
        let mut i: usize = 1;
        while i < rooms.len()
            invariant
                map.wf(),
                map.width == width,
                map.height == height,
                map.rooms@.len() == 0,
                forall|i: int| 0 <= i < map.tiles@.len() ==> !map.revealed_tiles@[i],
                forall|i: int| 0 <= i < map.tiles@.len() ==> !map.visible_tiles@[i],
                forall|i: int| 0 <= i < map.tiles@.len() ==> !map.blocked@[i],
                1 <= i <= rooms@.len(),
                forall|k: int|
                    0 <= k < rooms@.len() ==> {
                        &&& (#[trigger] rooms@[k]).wf()
                        &&& rooms@[k].within_margin(width as int, height as int)
                        &&& map.room_carved(rooms@[k])
                    },
                forall|k: int|
                    1 <= k < i ==> map.joined(
                        rooms@[k - 1].center_spec(),
                        (#[trigger] rooms@[k]).center_spec(),
                    ),
                forall|t: int|
                    0 <= t < map.tiles@.len() ==> (#[trigger] map.tiles@[t] == TileType::Floor
                        <==> (in_some_room(rooms@, map.cell_at(t).0, map.cell_at(t).1)
                        || on_some_corridor(rooms@, flips@, i as int, map.cell_at(t).0, map.cell_at(t).1))),
            decreases rooms@.len() - i,
        {
            let (px, py) = rooms[i - 1].center();
            let (nx, ny) = rooms[i].center();
            let ghost before = map;
            let flip = i - 1 < flips.len() && flips[i - 1];
            if flip {
                map.apply_horizontal_tunnel(px, nx, py);
                let ghost mid = map;
                map.apply_vertical_tunnel(py, ny, nx);
                proof {
                    lemma_floor_kept(&mid, &map);
                }
            } else {
                map.apply_vertical_tunnel(py, ny, px);
                let ghost mid = map;
                map.apply_horizontal_tunnel(px, nx, ny);
                proof {
                    lemma_floor_kept(&mid, &map);
                }
            }
            proof {
                assert(floor_kept(&before, &map));
                lemma_floor_kept(&before, &map);
                let a = rooms@[i - 1].center_spec();
                let b = rooms@[i as int].center_spec();
                assert forall|t: int| 0 <= t < map.tiles@.len() implies (
                #[trigger] map.tiles@[t] == TileType::Floor <==> (in_some_room(
                    rooms@,
                    map.cell_at(t).0,
                    map.cell_at(t).1,
                ) || on_some_corridor(rooms@, flips@, i + 1, map.cell_at(t).0, map.cell_at(t).1))) by {
                    let (x, y) = map.cell_at(t);
                    assert(before.tiles@[t] == TileType::Floor <==> (in_some_room(rooms@, x, y)
                        || on_some_corridor(rooms@, flips@, i as int, x, y)));
                    if on_some_corridor(rooms@, flips@, i as int, x, y) {
                        let k = choose|k: int|
                            1 <= k < i && #[trigger] on_corridor(
                                rooms@[k - 1].center_spec(),
                                rooms@[k].center_spec(),
                                flip_at(flips@, k - 1),
                                x,
                                y,
                            );
                        assert(on_some_corridor(rooms@, flips@, i + 1, x, y));
                    }
                    if on_corridor(a, b, flip_at(flips@, i - 1), x, y) {
                        assert(on_some_corridor(rooms@, flips@, i + 1, x, y));
                    }
                    if on_some_corridor(rooms@, flips@, i + 1, x, y) {
                        let k = choose|k: int|
                            1 <= k < i + 1 && #[trigger] on_corridor(
                                rooms@[k - 1].center_spec(),
                                rooms@[k].center_spec(),
                                flip_at(flips@, k - 1),
                                x,
                                y,
                            );
                        if k < i {
                            assert(on_some_corridor(rooms@, flips@, i as int, x, y));
                        }
                    }
                }
            }
            i += 1;
        }
        let start = rooms[0].center();
        let ghost before = map;
        map.rooms = rooms;
        map.start_pos = start;
        proof {
            lemma_floor_kept(&before, &map);
            assert forall|k: int| 0 <= k < map.rooms@.len() implies map.room_carved(
                #[trigger] map.rooms@[k],
            ) by {
                assert(before.room_carved(map.rooms@[k]));
            }
            assert forall|k: int| 1 <= k < map.rooms@.len() implies map.joined(
                map.rooms@[k - 1].center_spec(),
                (#[trigger] map.rooms@[k]).center_spec(),
            ) by {
                assert(before.joined(map.rooms@[k - 1].center_spec(), map.rooms@[k].center_spec()));
            }
            assert forall|t: int| 0 <= t < map.tiles@.len() implies (#[trigger] map.tiles@[t]
                == TileType::Floor <==> (in_some_room(map.rooms@, map.cell_at(t).0, map.cell_at(t).1)
                || on_some_corridor(
                map.rooms@,
                flips@,
                map.rooms@.len() as int,
                map.cell_at(t).0,
                map.cell_at(t).1,
            ))) by {
                assert(before.tiles@[t] == map.tiles@[t]);
            }
        }
        Ok(map)
    }

    /// Generates a `width` by `height` map: up to `max_rooms` candidate rooms,
    /// with sides from `MIN_ROOM_SIZE` to `MAX_ROOM_SIZE`, and one corridor
    /// coin per candidate are drawn from `rng`, and `from_candidates` builds
    /// the map from them. Fails when fewer than two rooms were kept, which is
    /// certain when no room fits the grid or two rooms cannot fit side by side.
    pub fn new(
        rng: &mut rltk::RandomNumberGenerator,
        width: i32,
        height: i32,
        max_rooms: u32,
    ) -> (r: Result<GameMap, GenerationError>)
        requires
            width >= 1,
            height >= 1,
            width * height <= i32::MAX,
        ensures
            r is Err ==> r == Err::<GameMap, GenerationError>(GenerationError::TooFewRooms),
            r matches Ok(m) ==> {
                &&& generated_map(&m, width as int, height as int)
                &&& m.rooms@.len() <= max_rooms
                &&& forall|k: int|
                    0 <= k < m.rooms@.len() ==> MIN_ROOM_SIZE <= (#[trigger] m.rooms@[k]).w
                        <= MAX_ROOM_SIZE && MIN_ROOM_SIZE <= m.rooms@[k].h <= MAX_ROOM_SIZE
            },
            (width < MIN_ROOM_SIZE + 3 || height < MIN_ROOM_SIZE + 3 || max_rooms < 2) ==> r
                is Err,
            (width - 2 < 2 * MIN_ROOM_SIZE && height - 2 < 2 * MIN_ROOM_SIZE) ==> r is Err,
    {
        let mut candidates: Vec<Room> = Vec::new();
        let mut attempt: u32 = 0;
        while attempt < max_rooms
            invariant
                width >= 1,
                height >= 1,
                candidates@.len() <= attempt,
                attempt <= max_rooms,
                (width < MIN_ROOM_SIZE + 3 || height < MIN_ROOM_SIZE + 3) ==> candidates@.len() == 0,
                forall|k: int|
                    0 <= k < candidates@.len() ==> MIN_ROOM_SIZE <= (#[trigger] candidates@[k]).w
                        <= MAX_ROOM_SIZE && MIN_ROOM_SIZE <= candidates@[k].h <= MAX_ROOM_SIZE,
            decreases max_rooms - attempt,
        {
            let rw = roll_range(rng, MIN_ROOM_SIZE, MAX_ROOM_SIZE + 1);
            let rh = roll_range(rng, MIN_ROOM_SIZE, MAX_ROOM_SIZE + 1);
            if width - rw - 1 > 1 && height - rh - 1 > 1 {
                let x = roll_range(rng, 1, width - rw - 1);
                let y = roll_range(rng, 1, height - rh - 1);
                candidates.push(Room { x, y, w: rw, h: rh });
            }
            attempt += 1;
        }
        let mut flips: Vec<bool> = Vec::new();
        let mut k: usize = 0;
        while k < candidates.len()
            invariant
                k <= candidates@.len(),
            decreases candidates@.len() - k,
        {
            flips.push(roll_range(rng, 0, 2) == 1);
            k += 1;
        }
        let r = GameMap::from_candidates(width, height, &candidates, &flips);
        proof {
            let kept = kept_rooms(candidates@, width as int, height as int);
            lemma_kept_from(candidates@, width as int, height as int);
            if r is Ok {
                let m = r->Ok_0;
                assert forall|k: int| 0 <= k < m.rooms@.len() implies MIN_ROOM_SIZE <= (
                #[trigger] m.rooms@[k]).w <= MAX_ROOM_SIZE && MIN_ROOM_SIZE <= m.rooms@[k].h
                    <= MAX_ROOM_SIZE by {
                    let j = choose|j: int| 0 <= j < candidates@.len() && kept[k] == candidates@[j];
                    assert(candidates@[j] == m.rooms@[k]);
                }
                if width - 2 < 2 * MIN_ROOM_SIZE && height - 2 < 2 * MIN_ROOM_SIZE {
                    assert(m.rooms@[0].w >= MIN_ROOM_SIZE);
                    assert(m.rooms@[1].w >= MIN_ROOM_SIZE);
                    assert(!m.rooms@[0].overlaps(&m.rooms@[1]));
                }
            }
        }
        r
    }

    /// How cell `idx` is to be drawn.
    pub fn cell_view(&self, idx: usize) -> (r: CellView)
        requires
            self.wf(),
            idx < self.tiles@.len(),
        ensures
            r == (if !self.revealed_tiles@[idx as int] {
                CellView::Hidden
            } else if self.visible_tiles@[idx as int] {
                CellView::Seen(self.tiles@[idx as int])
            } else {
                CellView::Remembered(self.tiles@[idx as int])
            }),
    {
        if !self.revealed_tiles[idx] {
            CellView::Hidden
        } else if self.visible_tiles[idx] {
            CellView::Seen(self.tiles[idx])
        } else {
            CellView::Remembered(self.tiles[idx])
        }
    }
}

} // verus!
