use vstd::prelude::*;

verus! {

/// A cell of the map.
#[derive(PartialEq, Eq, Structural, Clone, Copy, Debug)]
pub struct Position {
    pub x: i32,
    pub y: i32,
}

/// Marks the entity the player controls.
#[derive(PartialEq, Eq, Structural, Clone, Copy, Debug)]
pub struct Player {}

/// Marks an entity driven by the monster policy.
#[derive(PartialEq, Eq, Structural, Clone, Copy, Debug)]
pub struct Monster {}

/// Marks an entity that occupies its cell exclusively.
#[derive(PartialEq, Eq, Structural, Clone, Copy, Debug)]
pub struct BlocksTile {}

/// A display name.
#[derive(Debug)]
pub struct Named {
    pub name: String,
}

/// What an entity sees: the cells in view, how far it sees, and whether its
/// position changed since the cells were computed.
#[derive(Debug)]
pub struct Viewshed {
    pub visible_tiles: Vec<Position>,
    pub range: i32,
    pub dirty: bool,
}

/// Health and fighting strength.
#[derive(PartialEq, Eq, Structural, Clone, Copy, Debug)]
pub struct CombatStats {
    pub max_hp: i32,
    pub current_hp: i32,
    pub defence: i32,
    pub power: i32,
}

/// The cells named by a list of positions.
pub open spec fn cells_of(s: Seq<Position>) -> Set<(int, int)> {
    Set::new(|c: (int, int)| exists|k: int| 0 <= k < s.len() && s[k].x == c.0 && s[k].y == c.1)
}

impl Viewshed {
    /// A viewshed of the given range that has seen nothing yet and asks to be
    /// computed.
    pub fn new(range: i32) -> (r: Viewshed)
        ensures
            r.visible_tiles@.len() == 0,
            r.range == range,
            r.dirty,
    {
        Viewshed { visible_tiles: Vec::new(), range, dirty: true }
    }

    /// Whether `p` is among the visible cells.
    pub fn can_see(&self, p: Position) -> (r: bool)
        ensures
            r == cells_of(self.visible_tiles@).contains((p.x as int, p.y as int)),
    {
        let mut k: usize = 0;
        while k < self.visible_tiles.len()
            invariant
                k <= self.visible_tiles@.len(),
                forall|j: int|
                    0 <= j < k ==> !(self.visible_tiles@[j].x == p.x && self.visible_tiles@[j].y
                        == p.y),
            decreases self.visible_tiles@.len() - k,
        {
            let c = self.visible_tiles[k];
            if c.x == p.x && c.y == p.y {
                proof {
                    assert(cells_of(self.visible_tiles@).contains((p.x as int, p.y as int)));
                }
                return true;
            }
            k += 1;
        }
        false
    }
}

} // verus!
