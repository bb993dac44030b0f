//! Heat maps: per-cell occupancy counts over a population of candidate
//! board layouts, the primitive behind likelihood-guided targeting.

use crate::board::{
    contains_pos2, grid_spec, lemma_pos_contains, placements_in_bounds, pos_views, Board,
};
use crate::geometry::Pos2;
use vstd::prelude::*;

verus! {

/// Errors of heat-map aggregation over a board collection.
#[derive(Clone, Copy, Debug, PartialEq, Eq, Structural)]
pub enum HeatMapErrors {
    /// The boards do not share one playable shape.
    InconsistentShapes,
    /// A board's placements leave the non-negative grid.
    OutOfBounds,
}

/// Whether board `b` occupies cell `c`.
pub open spec fn occupied(b: Board, c: (int, int)) -> bool {
    grid_spec(b.ships@).contains(c)
}

/// In how many of the boards cell `c` is occupied.
pub open spec fn occ_count(boards: Seq<Board>, c: (int, int)) -> nat
    decreases boards.len(),
{
    if boards.len() == 0 {
        0
    } else {
        occ_count(boards.drop_last(), c) + (if occupied(boards.last(), c) {
            1nat
        } else {
            0nat
        })
    }
}

/// The playable cells with every repeat dropped, keeping the first
/// occurrence of each, in order.
pub open spec fn dedup_pos(s: Seq<Pos2>) -> Seq<Pos2>
    decreases s.len(),
{
    if s.len() == 0 {
        Seq::<Pos2>::empty()
    } else {
        let rest = dedup_pos(s.drop_last());
        if rest.contains(s.last()) {
            rest
        } else {
            rest.push(s.last())
        }
    }
}

/// Deduplication keeps exactly the cells of the input and leaves no
/// repeats.
proof fn lemma_dedup_pos_props(s: Seq<Pos2>)
    ensures
        forall|p: Pos2| dedup_pos(s).contains(p) <==> s.contains(p),
        dedup_pos(s).no_duplicates(),
    decreases s.len(),
{
    if s.len() > 0 {
        lemma_dedup_pos_props(s.drop_last());
        assert forall|p: Pos2| s.contains(p) implies dedup_pos(s).contains(p) by {
            let i = choose|i: int| 0 <= i < s.len() && s[i] == p;
            let rest = dedup_pos(s.drop_last());
            if i < s.len() - 1 {
                assert(s.drop_last()[i] == p);
                assert(s.drop_last().contains(p));
                if !rest.contains(s.last()) {
                    let j = choose|j: int| 0 <= j < rest.len() && rest[j] == p;
                    assert(dedup_pos(s)[j] == p);
                }
            } else {
                assert(p == s.last());
                if !rest.contains(p) {
                    assert(dedup_pos(s) == rest.push(p));
                    assert(dedup_pos(s)[rest.len() as int] == p);
                }
            }
        }
        assert forall|p: Pos2| dedup_pos(s).contains(p) implies s.contains(p) by {
            if s.drop_last().contains(p) {
                let i = choose|i: int| 0 <= i < s.drop_last().len() && s.drop_last()[i] == p;
                assert(s[i] == p);
            } else {
                assert(s[s.len() - 1] == s.last());
            }
        }
    }
}

/// A heat map over a population of candidate layouts: for each playable
/// cell, in how many of `total` boards it is occupied. The score meant
/// for a cell is its count divided by `total`; the empty population
/// yields the empty map (no cells, `total` zero), never an error.
#[derive(Clone, Debug)]
pub struct HeatMap {
    pub cells: Vec<(Pos2, usize)>,
    pub total: usize,
}

/// Whether the two cell lists hold the same cells in the same order.
fn eq_pos_vec(a: &Vec<Pos2>, b: &Vec<Pos2>) -> (r: bool)
    ensures
        r == (a@ == b@),
{
    if a.len() != b.len() {
        return false;
    }
    let mut i: usize = 0;
    while i < a.len()
        invariant
            a@.len() == b@.len(),
            i <= a@.len(),
            forall|k: int| 0 <= k < i ==> a@[k] == b@[k],
        decreases a@.len() - i,
    {
        if a[i] != b[i] {
            return false;
        }
        i += 1;
    }
    proof {
        assert(a@ =~= b@);
    }
    true
}

impl HeatMap {
    /// Aggregates a population of boards into per-cell occupancy counts:
    /// one entry for each distinct playable cell of the shared shape, in
    /// first-occurrence order. Rejects boards that disagree on the
    /// playable shape, or whose placements leave the grid; the empty
    /// population yields the empty map.
    pub fn new(boards: &Vec<Board>) -> (r: Result<HeatMap, HeatMapErrors>)
        ensures
            (exists|i: int|
                0 <= i < boards@.len() && (#[trigger] boards@[i]).shape@ != boards@[0].shape@)
                ==> r == Err::<HeatMap, HeatMapErrors>(HeatMapErrors::InconsistentShapes),
            (forall|i: int|
                0 <= i < boards@.len() ==> (#[trigger] boards@[i]).shape@ == boards@[0].shape@)
                && (exists|i: int|
                0 <= i < boards@.len() && !placements_in_bounds(
                    (#[trigger] boards@[i]).ships@,
                )) ==> r == Err::<HeatMap, HeatMapErrors>(HeatMapErrors::OutOfBounds),
            (forall|i: int|
                0 <= i < boards@.len() ==> (#[trigger] boards@[i]).shape@ == boards@[0].shape@
                    && placements_in_bounds(boards@[i].ships@)) ==> r is Ok,
            r matches Ok(h) ==> {
                &&& h.total == boards@.len()
                &&& boards@.len() == 0 ==> h.cells@ == Seq::<(Pos2, usize)>::empty()
                &&& boards@.len() > 0 ==> h.cells@.len() == dedup_pos(boards@[0].shape@).len()
                    && (forall|k: int|
                    0 <= k < h.cells@.len() ==> (#[trigger] h.cells@[k]).0 == dedup_pos(
                        boards@[0].shape@,
                    )[k] && h.cells@[k].1 == occ_count(boards@, h.cells@[k].0@))
            },
    {
        if boards.len() == 0 {
            return Ok(HeatMap { cells: Vec::new(), total: 0 });
        }
        let mut i: usize = 1;
        while i < boards.len()
            invariant
                boards@.len() > 0,
                1 <= i <= boards@.len(),
                forall|k: int| 0 <= k < i ==> (#[trigger] boards@[k]).shape@ == boards@[0].shape@,
            decreases boards@.len() - i,
        {
            if !eq_pos_vec(&boards[i].shape, &boards[0].shape) {
                return Err(HeatMapErrors::InconsistentShapes);
            }
            i += 1;
        }
        let mut grids: Vec<Vec<Pos2>> = Vec::new();
        let mut g: usize = 0;
        while g < boards.len()
            invariant
                forall|k: int| 0 <= k < boards@.len() ==> (#[trigger] boards@[k]).shape@
                    == boards@[0].shape@,
                g <= boards@.len(),
                grids@.len() == g,
                forall|k: int|
                    0 <= k < g ==> pos_views((#[trigger] grids@[k])@) == grid_spec(
                        boards@[k].ships@,
                    ),
                forall|k: int| 0 <= k < g ==> placements_in_bounds((#[trigger] boards@[k]).ships@),
            decreases boards@.len() - g,
        {
            match boards[g].get_grid() {
                Ok(grid) => {
                    grids.push(grid);
                },
                Err(_) => {
                    return Err(HeatMapErrors::OutOfBounds);
                },
            }
            g += 1;
        }
        let shape0 = &boards[0].shape;
        let mut cells: Vec<Pos2> = Vec::new();
        let mut s: usize = 0;
        proof {
            lemma_dedup_pos_props(shape0@);
        }
        while s < shape0.len()
            invariant
                cells@ == dedup_pos(shape0@.take(s as int)),
                s <= shape0@.len(),
                forall|p: Pos2| dedup_pos(shape0@.take(s as int)).contains(p) <==> shape0@.take(
                    s as int,
                ).contains(p),
            decreases shape0@.len() - s,
        {
            let p = shape0[s];
            proof {
                assert(shape0@.take(s + 1).drop_last() =~= shape0@.take(s as int));
                assert(shape0@.take(s + 1).last() == p);
            }
            if !contains_pos2(&cells, p) {
                cells.push(p);
            }
            proof {
                lemma_dedup_pos_props(shape0@.take(s + 1));
            }
            s += 1;
        }
        proof {
            assert(shape0@.take(shape0@.len() as int) =~= shape0@);
        }
        let mut scored: Vec<(Pos2, usize)> = Vec::new();
        let mut c: usize = 0;
        while c < cells.len()
            invariant
                cells@ == dedup_pos(boards@[0].shape@),
                grids@.len() == boards@.len(),
                forall|k: int|
                    0 <= k < grids@.len() ==> pos_views((#[trigger] grids@[k])@) == grid_spec(
                        boards@[k].ships@,
                    ),
                c <= cells@.len(),
                scored@.len() == c,
                forall|k: int|
                    0 <= k < c ==> (#[trigger] scored@[k]).0 == cells@[k] && scored@[k].1
                        == occ_count(boards@, cells@[k]@),
            decreases cells@.len() - c,
        {
            let cell = cells[c];
            let mut count: usize = 0;
            let mut g2: usize = 0;
            while g2 < grids.len()
                invariant
                    grids@.len() == boards@.len(),
                    forall|k: int|
                        0 <= k < grids@.len() ==> pos_views((#[trigger] grids@[k])@) == grid_spec(
                            boards@[k].ships@,
                        ),
                    g2 <= grids@.len(),
                    count <= g2,
                    count as nat == occ_count(boards@.take(g2 as int), cell@),
                decreases grids@.len() - g2,
            {
                proof {
                    assert(boards@.take(g2 + 1).drop_last() =~= boards@.take(g2 as int));
                    assert(boards@.take(g2 + 1).last() == boards@[g2 as int]);
                    lemma_pos_contains(grids@[g2 as int]@, cell);
                }
                if contains_pos2(&grids[g2], cell) {
                    count += 1;
                }
                g2 += 1;
            }
            proof {
                assert(boards@.take(boards@.len() as int) =~= boards@);
            }
            scored.push((cell, count));
            c += 1;
        }
        Ok(HeatMap { cells: scored, total: boards.len() })
    }

    /// How many cells the map scores.
    pub fn size(&self) -> (r: usize)
        ensures
            r == self.cells@.len(),
    {
        self.cells.len()
    }

    /// The occupancy count recorded for a cell, when the cell is scored.
    pub fn get(&self, pos: Pos2) -> (r: Option<usize>)
        ensures
            r is Some <==> exists|k: int| 0 <= k < self.cells@.len() && (#[trigger] self.cells@[k]).0
                == pos,
            r matches Some(c) ==> exists|k: int|
                0 <= k < self.cells@.len() && (#[trigger] self.cells@[k]).0 == pos
                    && self.cells@[k].1 == c,
    {
        let mut i: usize = 0;
        while i < self.cells.len()
            invariant
                i <= self.cells@.len(),
                forall|k: int| 0 <= k < i ==> (#[trigger] self.cells@[k]).0 != pos,
            decreases self.cells@.len() - i,
        {
            if self.cells[i].0 == pos {
                return Some(self.cells[i].1);
            }
            i += 1;
        }
        None
    }
}

} // verus!

verus! {

/// Removing one board takes away exactly its own contribution to a
/// cell's count.
proof fn lemma_occ_count_remove(s: Seq<Board>, j: int, c: (int, int))
    requires
        0 <= j < s.len(),
    ensures
        occ_count(s, c) == occ_count(s.remove(j), c) + (if occupied(s[j], c) {
            1nat
        } else {
            0nat
        }),
    decreases s.len(),
{
    if j == s.len() - 1 {
        assert(s.remove(j) =~= s.drop_last());
    } else {
        lemma_occ_count_remove(s.drop_last(), j, c);
        assert(s.remove(j).drop_last() =~= s.drop_last().remove(j));
        assert(s.remove(j).last() == s.last());
    }
}

/// Heat-map scores are stable under reordering of the candidate boards:
/// two populations made of the same boards give every cell the same
/// occupancy count.
pub proof fn lemma_occ_count_order_blind(s1: Seq<Board>, s2: Seq<Board>, c: (int, int))
    requires
        s1.to_multiset() == s2.to_multiset(),
    ensures
        occ_count(s1, c) == occ_count(s2, c),
    decreases s1.len(),
{
    broadcast use vstd::seq_lib::group_to_multiset_ensures;

    assert(s1.to_multiset().len() == s1.len());
    assert(s2.to_multiset().len() == s2.len());
    if s1.len() == 0 {
        assert(s2.len() == 0);
    } else {
        let x = s1.last();
        assert(s1.contains(x));
        assert(s2.to_multiset().count(x) > 0);
        assert(s2.contains(x));
        let j = choose|j: int| 0 <= j < s2.len() && s2[j] == x;
        let s1r = s1.remove(s1.len() - 1);
        let s2r = s2.remove(j);
        assert(s1r.to_multiset() =~= s1.to_multiset().remove(x));
        assert(s2r.to_multiset() =~= s2.to_multiset().remove(x));
        lemma_occ_count_order_blind(s1r, s2r, c);
        assert(s1r =~= s1.drop_last());
        lemma_occ_count_remove(s2, j, c);
    }
}

} // verus!
