use vstd::prelude::*;
use crate::map::{GameMap, adjacent, generated_map, max_int, min_int};

verus! {

/// `s` is a walk over floor cells of `m`, each step to a cell sharing a side.
pub open spec fn floor_walk(m: &GameMap, s: Seq<(int, int)>) -> bool {
    &&& s.len() >= 1
    &&& forall|k: int| 0 <= k < s.len() ==> m.floor_at(#[trigger] s[k].0, s[k].1)
    &&& forall|k: int| 0 <= k < s.len() - 1 ==> adjacent(#[trigger] s[k], s[k + 1])
}

/// Cells `a` and `b` lie in one connected region of floor.
pub open spec fn floor_connected(m: &GameMap, a: (int, int), b: (int, int)) -> bool {
    exists|s: Seq<(int, int)>| floor_walk(m, s) && s[0] == a && s.last() == b
}

proof fn lemma_connected_trans(m: &GameMap, a: (int, int), b: (int, int), c: (int, int))
    requires
        floor_connected(m, a, b),
        floor_connected(m, b, c),
    ensures
        floor_connected(m, a, c),
{
    let s1 = choose|s: Seq<(int, int)>| floor_walk(m, s) && s[0] == a && s.last() == b;
    let s2 = choose|s: Seq<(int, int)>| floor_walk(m, s) && s[0] == b && s.last() == c;
    let s = s1 + s2.drop_first();
    assert forall|k: int| 0 <= k < s.len() implies m.floor_at(#[trigger] s[k].0, s[k].1) by {
        if k >= s1.len() {
            assert(s[k] == s2[k - s1.len() + 1]);
        }
    }
    assert forall|k: int| 0 <= k < s.len() - 1 implies adjacent(#[trigger] s[k], s[k + 1]) by {
        if k == s1.len() - 1 {
            assert(s[k] == s2[0]);
            assert(s[k + 1] == s2[1]);
        } else if k >= s1.len() {
            assert(s[k] == s2[k - s1.len() + 1]);
            assert(s[k + 1] == s2[k - s1.len() + 2]);
        }
    }
    if s2.len() == 1 {
        assert(s.last() == s1.last());
    } else {
        assert(s.last() == s2.last());
    }
    assert(floor_walk(m, s) && s[0] == a && s.last() == c);
}

proof fn lemma_row_connected(m: &GameMap, x1: int, x2: int, y: int)
    requires
        m.h_run_open(x1, x2, y),
    ensures
        floor_connected(m, (x1, y), (x2, y)),
{
    if x1 <= x2 {
        let s = Seq::new((x2 - x1 + 1) as nat, |k: int| (x1 + k, y));
        assert forall|k: int| 0 <= k < s.len() implies m.floor_at(#[trigger] s[k].0, s[k].1) by {
            assert(min_int(x1, x2) <= x1 + k <= max_int(x1, x2));
        }
        assert(floor_walk(m, s) && s[0] == (x1, y) && s.last() == (x2, y));
    } else {
        let s = Seq::new((x1 - x2 + 1) as nat, |k: int| (x1 - k, y));
        assert forall|k: int| 0 <= k < s.len() implies m.floor_at(#[trigger] s[k].0, s[k].1) by {
            assert(min_int(x1, x2) <= x1 - k <= max_int(x1, x2));
        }
        assert(floor_walk(m, s) && s[0] == (x1, y) && s.last() == (x2, y));
    }
}

proof fn lemma_column_connected(m: &GameMap, y1: int, y2: int, x: int)
    requires
        m.v_run_open(y1, y2, x),
    ensures
        floor_connected(m, (x, y1), (x, y2)),
{
    if y1 <= y2 {
        let s = Seq::new((y2 - y1 + 1) as nat, |k: int| (x, y1 + k));
        assert forall|k: int| 0 <= k < s.len() implies m.floor_at(#[trigger] s[k].0, s[k].1) by {
            assert(min_int(y1, y2) <= y1 + k <= max_int(y1, y2));
        }
        assert(floor_walk(m, s) && s[0] == (x, y1) && s.last() == (x, y2));
    } else {
        let s = Seq::new((y1 - y2 + 1) as nat, |k: int| (x, y1 - k));
        assert forall|k: int| 0 <= k < s.len() implies m.floor_at(#[trigger] s[k].0, s[k].1) by {
            assert(min_int(y1, y2) <= y1 - k <= max_int(y1, y2));
        }
        assert(floor_walk(m, s) && s[0] == (x, y1) && s.last() == (x, y2));
    }
}

proof fn lemma_joined_connected(m: &GameMap, a: (int, int), b: (int, int))
    requires
        m.joined(a, b),
    ensures
        floor_connected(m, a, b),
{
    if m.h_run_open(a.0, b.0, a.1) && m.v_run_open(a.1, b.1, b.0) {
        lemma_row_connected(m, a.0, b.0, a.1);
        lemma_column_connected(m, a.1, b.1, b.0);
        lemma_connected_trans(m, a, (b.0, a.1), b);
    } else {
        lemma_column_connected(m, a.1, b.1, a.0);
        lemma_row_connected(m, a.0, b.0, b.1);
        lemma_connected_trans(m, a, (a.0, b.1), b);
    }
}

/// On every generated map the floor holds one connected region containing the
/// center of every room: each center is reached from the first room's center
/// by a walk over floor cells that share sides.
pub proof fn lemma_generated_rooms_connected(m: &GameMap, width: int, height: int)
    requires
        generated_map(m, width, height),
    ensures
        forall|k: int|
            0 <= k < m.rooms@.len() ==> floor_connected(
                m,
                m.rooms@[0].center_spec(),
                #[trigger] m.rooms@[k].center_spec(),
            ),
{
    assert forall|k: int| 0 <= k < m.rooms@.len() implies floor_connected(
        m,
        m.rooms@[0].center_spec(),
        #[trigger] m.rooms@[k].center_spec(),
    ) by {
        lemma_connected_prefix(m, k);
    }
}

proof fn lemma_connected_prefix(m: &GameMap, k: int)
    requires
        0 <= k < m.rooms@.len(),
        crate::map::rooms_placed(m),
        crate::map::rooms_joined(m),
    ensures
        floor_connected(m, m.rooms@[0].center_spec(), m.rooms@[k].center_spec()),
    decreases k,
{
    let c0 = m.rooms@[0].center_spec();
    if k == 0 {
        let r = m.rooms@[0];
        assert(r.contains_cell(c0.0, c0.1));
        assert(m.floor_at(c0.0, c0.1));
        let s = seq![c0];
        assert(floor_walk(m, s) && s[0] == c0 && s.last() == c0);
    } else {
        lemma_connected_prefix(m, k - 1);
        lemma_joined_connected(m, m.rooms@[k - 1].center_spec(), m.rooms@[k].center_spec());
        lemma_connected_trans(
            m,
            c0,
            m.rooms@[k - 1].center_spec(),
            m.rooms@[k].center_spec(),
        );
    }
}

} // verus!
