//! Boards: placed ships over a playable cell set with recorded shots, the
//! derived occupied-cell grid and completion ratio, and the builder that
//! enumerates valid layouts.

use crate::geometry::{cell_in_bounds, vadd, BoundsError, Pos2, Vec2};
use crate::ship::Ship;
use vstd::prelude::*;

verus! {

broadcast use vstd::seq_lib::seq_to_set_is_finite;

/// The positions of a cell sequence as pairs of mathematical integers.
pub open spec fn pos_views(s: Seq<Pos2>) -> Seq<(int, int)> {
    s.map_values(|p: Pos2| p@)
}

/// The cells one placed ship covers: each offset applied to its anchor.
pub open spec fn translated(pos: Pos2, shape: Seq<Vec2>) -> Seq<(int, int)> {
    shape.map_values(|v: Vec2| vadd(pos@, v@))
}

/// The occupied cells of a sequence of placed ships, ship after ship;
/// overlapping ships repeat their shared cells.
pub open spec fn grid_spec(ships: Seq<(Pos2, Ship)>) -> Seq<(int, int)>
    decreases ships.len(),
{
    if ships.len() == 0 {
        Seq::<(int, int)>::empty()
    } else {
        grid_spec(ships.drop_last()) + translated(ships.last().0, ships.last().1.shape@)
    }
}

/// Every cell of every placed ship stays on the non-negative grid.
pub open spec fn placements_in_bounds(ships: Seq<(Pos2, Ship)>) -> bool {
    forall|i: int, j: int|
        0 <= i < ships.len() && 0 <= j < ships[i].1.shape@.len() ==> cell_in_bounds(
            #[trigger] vadd(ships[i].0@, ships[i].1.shape@[j]@),
        )
}

/// The distinct shot cells that land on an occupied cell.
pub open spec fn hit_cells(shots: Seq<Pos2>, grid: Seq<(int, int)>) -> Set<(int, int)> {
    pos_views(shots).to_set().intersect(grid.to_set())
}

/// The larger coordinate-wise maximum of a cell set, zero when empty:
/// the board's width and height as a displacement.
pub open spec fn max_xy(s: Seq<Pos2>) -> (int, int)
    decreases s.len(),
{
    if s.len() == 0 {
        (0, 0)
    } else {
        let m = max_xy(s.drop_last());
        let lx = s.last().x as int;
        let ly = s.last().y as int;
        (if lx > m.0 { lx } else { m.0 }, if ly > m.1 { ly } else { m.1 })
    }
}

/// Errors of the layout search: a ship of the pool for which no legal
/// placement exists.
#[derive(Clone, Copy, Debug, PartialEq, Eq, Structural)]
pub enum BoardErrors {
    /// No placement of the ship at this pool index satisfies the board
    /// shape, overlap and whitespace constraints.
    NoPlacement { ship: usize },
}

/// A placed layout: ships at positions, the playable cell set, and the
/// shots taken so far. Construction performs no structural validation;
/// vetting layouts is the builder's task.
#[derive(Clone, Debug, PartialEq, Eq, PartialOrd, Ord, Hash)]
pub struct Board {
    pub ships: Vec<(Pos2, Ship)>,
    pub shape: Vec<Pos2>,
    pub shots: Vec<Pos2>,
}

/// How far a board's ships have been shot down: `hits` distinct occupied
/// cells were hit out of `cells` occupied cells in all. The ratio meant is
/// `hits / cells`, in `[0, 1]`; a board with no occupied cells reads as
/// ratio zero.
#[derive(Clone, Copy, Debug, PartialEq, Eq, Structural)]
pub struct Completion {
    pub hits: usize,
    pub cells: usize,
}

/// Whether `v` holds `t`, by component-wise equality.
pub(crate) fn contains_pos2(v: &Vec<Pos2>, t: Pos2) -> (r: bool)
    ensures
        r == v@.contains(t),
{
    let mut i: usize = 0;
    while i < v.len()
        invariant
            i <= v@.len(),
            forall|k: int| 0 <= k < i ==> v@[k] != t,
        decreases v@.len() - i,
    {
        if v[i] == t {
            assert(v@.contains(t)) by { assert(v@[i as int] == t); }
            return true;
        }
        i += 1;
    }
    false
}

/// The cells a ship placed at `pos` covers, or the offset that would
/// leave the grid.
fn translate_ship(pos: Pos2, ship: &Ship) -> (r: Result<Vec<Pos2>, BoundsError>)
    ensures
        r is Ok <==> (forall|j: int|
            0 <= j < ship.shape@.len() ==> cell_in_bounds(
                #[trigger] vadd(pos@, ship.shape@[j]@),
            )),
        r matches Ok(g) ==> pos_views(g@) == translated(pos, ship.shape@),
        r matches Err(e) ==> e.pos == pos && !cell_in_bounds(vadd(pos@, e.offset@)) && exists|
            j: int,
        | 0 <= j < ship.shape@.len() && ship.shape@[j] == e.offset,
    {
    let mut out: Vec<Pos2> = Vec::new();
    let mut j: usize = 0;
    while j < ship.shape.len()
        invariant
            j <= ship.shape@.len(),
            out@.len() == j,
            forall|k: int| 0 <= k < j ==> (#[trigger] out@[k])@ == vadd(pos@, ship.shape@[k]@),
            forall|k: int| 0 <= k < j ==> cell_in_bounds(#[trigger] vadd(pos@, ship.shape@[k]@)),
        decreases ship.shape@.len() - j,
    {
        let v = ship.shape[j];
        match pos.offset(v) {
            Ok(p) => {
                out.push(p);
            },
            Err(e) => {
                assert(ship.shape@[j as int] == e.offset);
                return Err(e);
            },
        }
        j += 1;
    }
    assert(pos_views(out@) =~= translated(pos, ship.shape@));
    Ok(out)
}

impl Board {
    /// Accepts any ships, playable shape and shots without structural
    /// validation. Always succeeds.
    pub fn new(ships: Vec<(Pos2, Ship)>, shape: Vec<Pos2>, shots: Vec<Pos2>) -> (r: Result<
        Self,
        BoardErrors,
    >)
        ensures
            r matches Ok(b) && b.ships == ships && b.shape == shape && b.shots == shots,
    {
        Ok(Self { ships, shape, shots })
    }

    /// The board's extent: the largest x and largest y over its playable
    /// cells, as a displacement; zero on an empty shape.
    pub fn size(&self) -> (r: Vec2)
        requires
            forall|i: int|
                0 <= i < self.shape@.len() ==> (#[trigger] self.shape@[i]).x <= isize::MAX
                    && self.shape@[i].y <= isize::MAX,
        ensures
            r@ == max_xy(self.shape@),
    {
        let mut max_x: usize = 0;
        let mut max_y: usize = 0;
        let mut i: usize = 0;
        while i < self.shape.len()
            invariant
                forall|k: int|
                    0 <= k < self.shape@.len() ==> (#[trigger] self.shape@[k]).x <= isize::MAX
                        && self.shape@[k].y <= isize::MAX,
                i <= self.shape@.len(),
                (max_x as int, max_y as int) == max_xy(self.shape@.take(i as int)),
                max_x <= isize::MAX,
                max_y <= isize::MAX,
            decreases self.shape@.len() - i,
        {
            let p = self.shape[i];
            proof {
                assert(self.shape@.take(i + 1).drop_last() =~= self.shape@.take(i as int));
                assert(self.shape@.take(i + 1).last() == p);
            }
            if p.x > max_x {
                max_x = p.x;
            }
            if p.y > max_y {
                max_y = p.y;
            }
            i += 1;
        }
        proof {
            assert(self.shape@.take(self.shape@.len() as int) =~= self.shape@);
        }
        Vec2::new(max_x as isize, max_y as isize)
    }

    /// The full occupied-cell list: every offset of every placed ship
    /// applied to that ship's anchor, ship after ship, duplicates kept.
    /// Fails with the offending position and offset when a cell would
    /// leave the grid.
    pub fn get_grid(&self) -> (r: Result<Vec<Pos2>, BoundsError>)
        ensures
            r is Ok <==> placements_in_bounds(self.ships@),
            r matches Ok(g) ==> pos_views(g@) == grid_spec(self.ships@),
            r matches Err(e) ==> !cell_in_bounds(vadd(e.pos@, e.offset@)) && exists|i: int|
                0 <= i < self.ships@.len() && (#[trigger] self.ships@[i]).0 == e.pos
                    && self.ships@[i].1.shape@.contains(e.offset),
    {
        let mut out: Vec<Pos2> = Vec::new();
        let mut i: usize = 0;
        while i < self.ships.len()
            invariant
                i <= self.ships@.len(),
                pos_views(out@) == grid_spec(self.ships@.take(i as int)),
                forall|k: int, j: int|
                    0 <= k < i && 0 <= j < self.ships@[k].1.shape@.len() ==> cell_in_bounds(
                        #[trigger] vadd(self.ships@[k].0@, self.ships@[k].1.shape@[j]@),
                    ),
            decreases self.ships@.len() - i,
        {
            let pos = self.ships[i].0;
            let part = match translate_ship(pos, &self.ships[i].1) {
                Ok(g) => g,
                Err(e) => {
                    return Err(e);
                },
            };
            let ghost old_out = out@;
            let mut part = part;
            let ghost old_part = part@;
            out.append(&mut part);
            proof {
                assert(self.ships@.take(i + 1).drop_last() =~= self.ships@.take(i as int));
                assert(self.ships@.take(i + 1).last() == self.ships@[i as int]);
                assert(pos_views(out@) =~= grid_spec(self.ships@.take(i + 1))) by {
                    assert(out@ == old_out + old_part);
                    assert(pos_views(old_out) == grid_spec(self.ships@.take(i as int)));
                    assert(pos_views(old_part) == translated(pos, self.ships@[i as int].1.shape@));
                }
            }
            i += 1;
        }
        proof {
            assert(self.ships@.take(self.ships@.len() as int) =~= self.ships@);
        }
        Ok(out)
    }

    /// How far the board is shot down: the count of occupied cells and the
    /// count of distinct shot cells among them. The completion ratio meant
    /// is `hits / cells` (zero when no cell is occupied); the counts are
    /// returned so that no caller is forced through inexact arithmetic.
    pub fn get_completion(&self) -> (r: Result<Completion, BoundsError>)
        ensures
            r is Ok <==> placements_in_bounds(self.ships@),
            r matches Ok(c) ==> {
                &&& c.cells == grid_spec(self.ships@).len()
                &&& c.hits == hit_cells(self.shots@, grid_spec(self.ships@)).len()
                &&& c.hits <= c.cells
            },
    {
        let to_hit = match self.get_grid() {
            Ok(g) => g,
            Err(e) => {
                return Err(e);
            },
        };
        let ghost grid = grid_spec(self.ships@);
        let mut seen: Vec<Pos2> = Vec::new();
        let mut i: usize = 0;
        while i < self.shots.len()
            invariant
                i <= self.shots@.len(),
                pos_views(to_hit@) == grid,
                seen@.no_duplicates(),
                forall|k: int| 0 <= k < seen@.len() ==> #[trigger] grid.contains(seen@[k]@),
                pos_views(seen@).to_set() =~= hit_cells(self.shots@.take(i as int), grid),
            decreases self.shots@.len() - i,
        {
            let s = self.shots[i];
            let ghost old_seen = seen@;
            if contains_pos2(&to_hit, s) && !contains_pos2(&seen, s) {
                seen.push(s);
                proof {
                    assert(grid.contains(s@)) by {
                        let k = choose|k: int| 0 <= k < to_hit@.len() && to_hit@[k] == s;
                        assert(pos_views(to_hit@)[k] == s@);
                    }
                    assert(seen@.no_duplicates()) by {
                        assert forall|a: int, b: int| 0 <= a < b < seen@.len() implies seen@[a]
                            != seen@[b] by {
                            if b == seen@.len() - 1 {
                                assert(!old_seen.contains(seen@[b]));
                            }
                        }
                    }
                }
            }
            proof {
                lemma_hit_cells_step(self.shots@, i as int, grid);
                assert(pos_views(seen@).to_set() =~= hit_cells(
                    self.shots@.take(i + 1),
                    grid,
                )) by {
                    lemma_membership_transfer(seen@, old_seen, to_hit@, s, grid);
                }
            }
            i += 1;
        }
        proof {
            assert(self.shots@.take(self.shots@.len() as int) =~= self.shots@);
            seen@.unique_seq_to_set();
            lemma_pos_views_no_dups(seen@);
            lemma_hits_at_most_cells(self.shots@, grid);
        }
        Ok(Completion { hits: seen.len(), cells: to_hit.len() })
    }
}

/// Distinct positions have distinct integer views, so a duplicate-free
/// cell list has as many views as entries.
proof fn lemma_pos_views_no_dups(s: Seq<Pos2>)
    requires
        s.no_duplicates(),
    ensures
        pos_views(s).no_duplicates(),
        pos_views(s).to_set().len() == s.len(),
{
    assert forall|a: int, b: int| 0 <= a < b < pos_views(s).len() implies pos_views(s)[a]
        != pos_views(s)[b] by {
        assert(s[a] != s[b]);
    }
    pos_views(s).unique_seq_to_set();
}

/// Extending the shot prefix by one extends its hit set by that shot's
/// cell exactly when the shot lands on an occupied cell.
proof fn lemma_hit_cells_step(shots: Seq<Pos2>, i: int, grid: Seq<(int, int)>)
    requires
        0 <= i < shots.len(),
    ensures
        grid.to_set().contains(shots[i]@) ==> hit_cells(shots.take(i + 1), grid) =~= hit_cells(
            shots.take(i),
            grid,
        ).insert(shots[i]@),
        !grid.to_set().contains(shots[i]@) ==> hit_cells(shots.take(i + 1), grid) =~= hit_cells(
            shots.take(i),
            grid,
        ),
{
    assert forall|c: (int, int)| pos_views(shots.take(i + 1)).to_set().contains(c) implies (
    pos_views(shots.take(i)).to_set().contains(c) || c == shots[i]@) by {
        let k = choose|k: int|
            0 <= k < shots.take(i + 1).len() && #[trigger] pos_views(shots.take(i + 1))[k] == c;
        if k < i {
            assert(pos_views(shots.take(i))[k] == c);
        }
    }
    assert forall|c: (int, int)| pos_views(shots.take(i)).to_set().contains(c) implies pos_views(
        shots.take(i + 1),
    ).to_set().contains(c) by {
        let k = choose|k: int| 0 <= k < shots.take(i).len() && pos_views(shots.take(i))[k] == c;
        assert(pos_views(shots.take(i + 1))[k] == c);
    }
    assert(pos_views(shots.take(i + 1))[i] == shots[i]@);
}

/// Carries the seen-set invariant across one loop step of the completion
/// count: membership in the occupied-cell list transfers to the occupied
/// grid, and pushing the shot inserts its cell.
proof fn lemma_membership_transfer(
    seen: Seq<Pos2>,
    old_seen: Seq<Pos2>,
    to_hit: Seq<Pos2>,
    s: Pos2,
    grid: Seq<(int, int)>,
)
    requires
        pos_views(to_hit) == grid,
        (seen == old_seen || seen == old_seen.push(s)),
        seen == old_seen ==> !(to_hit.contains(s) && !old_seen.contains(s)),
        seen == old_seen.push(s) ==> to_hit.contains(s) && !old_seen.contains(s),
    ensures
        to_hit.contains(s) <==> grid.to_set().contains(s@),
        seen == old_seen.push(s) ==> pos_views(seen).to_set() =~= pos_views(
            old_seen,
        ).to_set().insert(s@),
        old_seen.contains(s) ==> pos_views(old_seen).to_set().contains(s@),
{
    if to_hit.contains(s) {
        let k = choose|k: int| 0 <= k < to_hit.len() && to_hit[k] == s;
        assert(pos_views(to_hit)[k] == s@);
        assert(grid.to_set().contains(s@));
    }
    if grid.to_set().contains(s@) {
        let k = choose|k: int| 0 <= k < grid.len() && grid[k] == s@;
        assert(pos_views(to_hit)[k] == s@);
        assert(to_hit[k]@ == s@);
        assert(to_hit[k] == s);
        assert(to_hit.contains(s));
    }
    if seen == old_seen.push(s) {
        assert forall|c: (int, int)| pos_views(seen).to_set().contains(c) implies pos_views(
            old_seen,
        ).to_set().contains(c) || c == s@ by {
            let k = choose|k: int| 0 <= k < seen.len() && pos_views(seen)[k] == c;
            if k < old_seen.len() {
                assert(pos_views(old_seen)[k] == c);
            }
        }
        assert forall|c: (int, int)| pos_views(old_seen).to_set().contains(c) implies pos_views(
            seen,
        ).to_set().contains(c) by {
            let k = choose|k: int| 0 <= k < old_seen.len() && pos_views(old_seen)[k] == c;
            assert(pos_views(seen)[k] == c);
        }
        assert(pos_views(seen)[old_seen.len() as int] == s@);
    }
    if old_seen.contains(s) {
        let k = choose|k: int| 0 <= k < old_seen.len() && old_seen[k] == s;
        assert(pos_views(old_seen)[k] == s@);
    }
}

/// No more distinct occupied cells are hit than there are occupied cells.
proof fn lemma_hits_at_most_cells(shots: Seq<Pos2>, grid: Seq<(int, int)>)
    ensures
        hit_cells(shots, grid).len() <= grid.len(),
{
    grid.lemma_cardinality_of_set();
    assert(hit_cells(shots, grid) == grid.to_set().intersect(pos_views(shots).to_set())) by {
        assert(hit_cells(shots, grid) =~= grid.to_set().intersect(pos_views(shots).to_set()));
    }
    vstd::set_lib::lemma_len_intersect(grid.to_set(), pos_views(shots).to_set());
}

} // verus!

use crate::geometry::vccw;

verus! {

/// Chebyshev distance between two cells: the larger coordinate gap.
pub open spec fn cheb(a: (int, int), b: (int, int)) -> int {
    let dx = if a.0 >= b.0 { a.0 - b.0 } else { b.0 - a.0 };
    let dy = if a.1 >= b.1 { a.1 - b.1 } else { b.1 - a.1 };
    if dx >= dy { dx } else { dy }
}

/// Every cell of `c1` lies strictly more than `ws` away, in Chebyshev
/// distance, from every cell of `c2`; with `ws` zero this is exactly
/// no shared cell.
pub open spec fn cells_apart(c1: Seq<(int, int)>, c2: Seq<(int, int)>, ws: int) -> bool {
    forall|a: int, b: int|
        0 <= a < c1.len() && 0 <= b < c2.len() ==> cheb(#[trigger] c1[a], #[trigger] c2[b]) > ws
}

/// Every cell of `c` is a playable cell of `shape`.
pub open spec fn cells_within(c: Seq<(int, int)>, shape: Seq<Pos2>) -> bool {
    forall|a: int| 0 <= a < c.len() ==> pos_views(shape).contains(#[trigger] c[a])
}

/// The cells one placed ship covers.
pub open spec fn ship_cells(p: (Pos2, Ship)) -> Seq<(int, int)> {
    translated(p.0, p.1.shape@)
}

/// Every placed ship lies wholly inside the playable shape.
pub open spec fn placement_within(ships: Seq<(Pos2, Ship)>, shape: Seq<Pos2>) -> bool {
    forall|i: int| 0 <= i < ships.len() ==> cells_within(ship_cells(#[trigger] ships[i]), shape)
}

/// Any two placed ships keep more than `ws` Chebyshev distance between
/// all their cells.
pub open spec fn placement_separated(ships: Seq<(Pos2, Ship)>, ws: int) -> bool {
    forall|i: int, j: int|
        0 <= i < j < ships.len() ==> cells_apart(
            ship_cells(#[trigger] ships[i]),
            ship_cells(#[trigger] ships[j]),
            ws,
        )
}

/// A cell turned `n` quarters counter-clockwise.
pub open spec fn ccw_n(c: (int, int), n: nat) -> (int, int)
    decreases n,
{
    if n == 0 {
        c
    } else {
        vccw(ccw_n(c, (n - 1) as nat))
    }
}

/// `b` is `a` turned `n` quarters counter-clockwise, offset by offset.
pub open spec fn turned(a: Seq<Vec2>, b: Seq<Vec2>, n: nat) -> bool {
    b.len() == a.len() && forall|i: int| 0 <= i < a.len() ==> (#[trigger] b[i])@ == ccw_n(a[i]@, n)
}

/// `b` is one of the four quarter-turn rotations of `a`.
pub open spec fn rotation_of(a: Seq<Vec2>, b: Seq<Vec2>) -> bool {
    exists|n: nat| n < 4 && turned(a, b, n)
}

/// Every ship of the pool is well formed and rotatable.
pub open spec fn pool_wf(pool: Seq<Ship>) -> bool {
    forall|i: int| 0 <= i < pool.len() ==> (#[trigger] pool[i]).wf() && pool[i].turnable()
}

/// The first `placed.len()` pool ships stand, each as some rotation of
/// its pool shape, inside the playable shape and mutually separated.
pub open spec fn partial_valid(
    pool: Seq<Ship>,
    placed: Seq<(Pos2, Ship)>,
    shape: Seq<Pos2>,
    ws: int,
) -> bool {
    &&& placed.len() <= pool.len()
    &&& forall|i: int|
        0 <= i < placed.len() ==> rotation_of(pool[i].shape@, (#[trigger] placed[i]).1.shape@)
    &&& placement_within(placed, shape)
    &&& placement_separated(placed, ws)
}

/// A complete valid layout of the whole pool: one rotation of every pool
/// ship placed inside `shape`, mutually separated by more than `ws`, with
/// no shots taken.
pub open spec fn layout_valid(pool: Seq<Ship>, shape: Seq<Pos2>, ws: int, b: Board) -> bool {
    &&& b.ships@.len() == pool.len()
    &&& partial_valid(pool, b.ships@, shape, ws)
    &&& b.shape@ == shape
    &&& b.shots@ == Seq::<Pos2>::empty()
}

/// A placement inside the playable shape only covers playable cells, so
/// it stays on the non-negative grid.
proof fn lemma_within_bounds(ships: Seq<(Pos2, Ship)>, shape: Seq<Pos2>)
    requires
        placement_within(ships, shape),
    ensures
        placements_in_bounds(ships),
{
    assert forall|i: int, j: int|
        0 <= i < ships.len() && 0 <= j < ships[i].1.shape@.len() implies cell_in_bounds(
        #[trigger] vadd(ships[i].0@, ships[i].1.shape@[j]@),
    ) by {
        assert(cells_within(ship_cells(ships[i]), shape));
        let c = ship_cells(ships[i])[j];
        assert(c == vadd(ships[i].0@, ships[i].1.shape@[j]@));
        assert(pos_views(shape).contains(c));
        let k = choose|k: int| 0 <= k < shape.len() && #[trigger] pos_views(shape)[k] == c;
        assert(c == shape[k]@);
    }
}

/// Validity reads placements only through anchors and shape views, so it
/// carries over to an anchor- and view-equal copy.
proof fn lemma_valid_congruent(
    pool: Seq<Ship>,
    a: Seq<(Pos2, Ship)>,
    b: Seq<(Pos2, Ship)>,
    shape: Seq<Pos2>,
    ws: int,
)
    requires
        a.len() == b.len(),
        forall|i: int|
            0 <= i < a.len() ==> (#[trigger] b[i]).0 == a[i].0 && b[i].1.shape@ == a[i].1.shape@,
        partial_valid(pool, a, shape, ws),
    ensures
        partial_valid(pool, b, shape, ws),
{
    assert forall|i: int| 0 <= i < b.len() implies ship_cells(#[trigger] b[i]) == ship_cells(
        a[i],
    ) by {
        assert(b[i].0 == a[i].0 && b[i].1.shape@ == a[i].1.shape@);
    }
}

/// A position is a playable cell exactly when its integer view is among
/// the shape's cell views.
pub(crate) proof fn lemma_pos_contains(s: Seq<Pos2>, p: Pos2)
    ensures
        s.contains(p) <==> pos_views(s).contains(p@),
{
    if s.contains(p) {
        let k = choose|k: int| 0 <= k < s.len() && s[k] == p;
        assert(pos_views(s)[k] == p@);
    }
    if pos_views(s).contains(p@) {
        let k = choose|k: int| 0 <= k < s.len() && #[trigger] pos_views(s)[k] == p@;
        assert(s[k]@ == p@);
        assert(s[k] == p);
    }
}

/// Chebyshev distance between two playable cells.
fn cheb_dist(a: Pos2, b: Pos2) -> (r: usize)
    ensures
        r as int == cheb(a@, b@),
{
    let dx = if a.x >= b.x {
        a.x - b.x
    } else {
        b.x - a.x
    };
    let dy = if a.y >= b.y {
        a.y - b.y
    } else {
        b.y - a.y
    };
    if dx >= dy {
        dx
    } else {
        dy
    }
}

/// Whether every cell of `c1` keeps more than `ws` Chebyshev distance
/// from every cell of `c2`.
fn cells_apart_exec(c1: &Vec<Pos2>, c2: &Vec<Pos2>, ws: usize) -> (r: bool)
    ensures
        r == cells_apart(pos_views(c1@), pos_views(c2@), ws as int),
{
    let mut a: usize = 0;
    while a < c1.len()
        invariant
            a <= c1@.len(),
            forall|x: int, y: int|
                0 <= x < a && 0 <= y < c2@.len() ==> cheb(
                    #[trigger] pos_views(c1@)[x],
                    #[trigger] pos_views(c2@)[y],
                ) > ws,
        decreases c1@.len() - a,
    {
        let mut b: usize = 0;
        while b < c2.len()
            invariant
                a < c1@.len(),
                b <= c2@.len(),
                forall|x: int, y: int|
                    0 <= x < a && 0 <= y < c2@.len() ==> cheb(
                        #[trigger] pos_views(c1@)[x],
                        #[trigger] pos_views(c2@)[y],
                    ) > ws,
                forall|y: int|
                    0 <= y < b ==> cheb(pos_views(c1@)[a as int], #[trigger] pos_views(c2@)[y])
                        > ws,
            decreases c2@.len() - b,
        {
            if cheb_dist(c1[a], c2[b]) <= ws {
                assert(pos_views(c1@)[a as int] == c1@[a as int]@);
                assert(pos_views(c2@)[b as int] == c2@[b as int]@);
                return false;
            }
            b += 1;
        }
        a += 1;
    }
    true
}

/// Whether every cell of `c` is a playable cell of `shape`.
fn cells_within_exec(c: &Vec<Pos2>, shape: &Vec<Pos2>) -> (r: bool)
    ensures
        r == cells_within(pos_views(c@), shape@),
{
    let mut a: usize = 0;
    while a < c.len()
        invariant
            a <= c@.len(),
            forall|x: int| 0 <= x < a ==> pos_views(shape@).contains(#[trigger] pos_views(c@)[x]),
        decreases c@.len() - a,
    {
        let inside = contains_pos2(shape, c[a]);
        proof {
            lemma_pos_contains(shape@, c@[a as int]);
            assert(pos_views(c@)[a as int] == c@[a as int]@);
        }
        if !inside {
            return false;
        }
        a += 1;
    }
    true
}

/// A copy of a displacement list, offset by offset.
fn copy_vec2s(v: &Vec<Vec2>) -> (r: Vec<Vec2>)
    ensures
        r@ == v@,
{
    let mut out: Vec<Vec2> = Vec::new();
    let mut i: usize = 0;
    while i < v.len()
        invariant
            i <= v@.len(),
            out@ == v@.take(i as int),
        decreases v@.len() - i,
    {
        out.push(v[i]);
        proof {
            assert(out@ =~= v@.take(i + 1));
        }
        i += 1;
    }
    proof {
        assert(v@.take(v@.len() as int) =~= v@);
    }
    out
}

/// A copy of a cell list, cell by cell.
fn copy_pos2s(v: &Vec<Pos2>) -> (r: Vec<Pos2>)
    ensures
        r@ == v@,
{
    let mut out: Vec<Pos2> = Vec::new();
    let mut i: usize = 0;
    while i < v.len()
        invariant
            i <= v@.len(),
            out@ == v@.take(i as int),
        decreases v@.len() - i,
    {
        out.push(v[i]);
        proof {
            assert(out@ =~= v@.take(i + 1));
        }
        i += 1;
    }
    proof {
        assert(v@.take(v@.len() as int) =~= v@);
    }
    out
}

/// A copy of a placement list: same anchors, view-equal ship shapes.
fn copy_placed(v: &Vec<(Pos2, Ship)>) -> (r: Vec<(Pos2, Ship)>)
    ensures
        r@.len() == v@.len(),
        forall|i: int|
            0 <= i < v@.len() ==> (#[trigger] r@[i]).0 == v@[i].0 && r@[i].1.shape@
                == v@[i].1.shape@,
{
    let mut out: Vec<(Pos2, Ship)> = Vec::new();
    let mut i: usize = 0;
    while i < v.len()
        invariant
            i <= v@.len(),
            out@.len() == i,
            forall|k: int|
                0 <= k < i ==> (#[trigger] out@[k]).0 == v@[k].0 && out@[k].1.shape@
                    == v@[k].1.shape@,
        decreases v@.len() - i,
    {
        let pos = v[i].0;
        let ship = Ship { shape: copy_vec2s(&v[i].1.shape) };
        out.push((pos, ship));
        i += 1;
    }
    out
}

/// Whether the candidate cells fit: wholly inside the playable shape and
/// more than `ws` away from every already placed ship.
fn fits(cells: &Vec<Pos2>, placed: &Vec<(Pos2, Ship)>, shape: &Vec<Pos2>, ws: usize) -> (r: bool)
    requires
        placement_within(placed@, shape@),
    ensures
        r == (cells_within(pos_views(cells@), shape@) && forall|j: int|
            0 <= j < placed@.len() ==> cells_apart(
                ship_cells(#[trigger] placed@[j]),
                pos_views(cells@),
                ws as int,
            )),
{
    if !cells_within_exec(cells, shape) {
        return false;
    }
    proof {
        lemma_within_bounds(placed@, shape@);
    }
    let mut j: usize = 0;
    while j < placed.len()
        invariant
            placement_within(placed@, shape@),
            placements_in_bounds(placed@),
            cells_within(pos_views(cells@), shape@),
            j <= placed@.len(),
            forall|k: int|
                0 <= k < j ==> cells_apart(
                    ship_cells(#[trigger] placed@[k]),
                    pos_views(cells@),
                    ws as int,
                ),
        decreases placed@.len() - j,
    {
        let pos = placed[j].0;
        let pc = match translate_ship(pos, &placed[j].1) {
            Ok(g) => g,
            Err(_) => {
                // placed ships stay in bounds, so translation cannot fail
                proof {
                    assert(false);
                }
                return false;
            },
        };
        if !cells_apart_exec(&pc, cells, ws) {
            return false;
        }
        j += 1;
    }
    true
}

/// Whether the two offset lists hold the same offsets in the same order.
fn eq_vec2_vec(a: &Vec<Vec2>, b: &Vec<Vec2>) -> (r: bool)
    ensures
        r == (a@ == b@),
{
    if a.len() != b.len() {
        return false;
    }
    let mut i: usize = 0;
    while i < a.len()
        invariant
            a@.len() == b@.len(),
            i <= a@.len(),
            forall|k: int| 0 <= k < i ==> a@[k] == b@[k],
        decreases a@.len() - i,
    {
        if a[i] != b[i] {
            return false;
        }
        i += 1;
    }
    proof {
        assert(a@ =~= b@);
    }
    true
}

/// Whether some board added at or after position `lo` carries exactly
/// the placements `p`.
pub open spec fn covered_in(out: Seq<Board>, lo: int, p: Seq<(Pos2, Ship)>) -> bool {
    exists|k: int| lo <= k < out.len() && matches_placed((#[trigger] out[k]).ships@, p)
}

/// Whether layout `p` puts a ship of this shape at this anchor in slot
/// `idx`.
pub open spec fn places_at(p: Seq<(Pos2, Ship)>, idx: int, pos: Pos2, s: Seq<Vec2>) -> bool {
    0 <= idx < p.len() && p[idx].0 == pos && p[idx].1.shape@ == s
}

/// A layout found among the added boards stays found when more boards
/// are added behind it.
proof fn lemma_covered_mono(out1: Seq<Board>, out2: Seq<Board>, lo: int, p: Seq<(Pos2, Ship)>)
    requires
        0 <= lo,
        covered_in(out1, lo, p),
        out2.len() >= out1.len(),
        forall|k: int| 0 <= k < out1.len() ==> out2[k] == out1[k],
    ensures
        covered_in(out2, lo, p),
{
    let k = choose|k: int| lo <= k < out1.len() && matches_placed((#[trigger] out1[k]).ships@, p);
    assert(out2[k] == out1[k]);
    assert(matches_placed(out2[k].ships@, p));
}

/// In a full valid layout the next ship's placement fits: its cells lie
/// inside the playable shape, on the non-negative grid, and clear of
/// every already placed ship.
proof fn lemma_extension_placement_fits(
    pool: Seq<Ship>,
    placed: Seq<(Pos2, Ship)>,
    shape: Seq<Pos2>,
    ws: int,
    p: Seq<(Pos2, Ship)>,
    idx: int,
    pos: Pos2,
    cshape: Seq<Vec2>,
    ccells: Seq<(int, int)>,
)
    requires
        complete_extension(pool, placed, shape, ws, p),
        placed.len() == idx,
        idx < pool.len(),
        places_at(p, idx, pos, cshape),
        ccells == translated(pos, cshape),
    ensures
        cells_within(ccells, shape),
        forall|j: int|
            0 <= j < placed.len() ==> cells_apart(ship_cells(#[trigger] placed[j]), ccells, ws),
        forall|j: int| 0 <= j < cshape.len() ==> cell_in_bounds(#[trigger] vadd(pos@, cshape[j]@)),
{
    assert(cells_within(ship_cells(p[idx]), shape));
    assert(ship_cells(p[idx]) == ccells);
    assert forall|j: int| 0 <= j < placed.len() implies cells_apart(
        ship_cells(#[trigger] placed[j]),
        ccells,
        ws,
    ) by {
        assert(cells_apart(ship_cells(p[j]), ship_cells(p[idx]), ws));
        assert(ship_cells(p[j]) == ship_cells(placed[j]));
    }
    lemma_within_bounds(p, shape);
    assert forall|j: int| 0 <= j < cshape.len() implies cell_in_bounds(
        #[trigger] vadd(pos@, cshape[j]@),
    ) by {
        assert(cell_in_bounds(vadd(p[idx].0@, p[idx].1.shape@[j]@)));
    }
}

/// A shape that is some rotation of the pool shape equals one of the
/// four computed rotations.
proof fn lemma_rotation_determined(pool_ship: Ship, cands: Seq<Ship>, s: Seq<Vec2>)
    requires
        cands.len() == 4,
        forall|m: int|
            0 <= m < 4 ==> turned(pool_ship.shape@, (#[trigger] cands[m]).shape@, m as nat),
        rotation_of(pool_ship.shape@, s),
    ensures
        exists|m: int| 0 <= m < 4 && (#[trigger] cands[m]).shape@ == s,
{
    let n = choose|n: nat| n < 4 && turned(pool_ship.shape@, s, n);
    lemma_turned_unique(pool_ship.shape@, cands[n as int].shape@, s, n);
    assert(cands[n as int].shape@ == s);
}

/// Appends to `out` every valid completion of `placed` that places the
/// remaining pool ships, each tried at every playable anchor in all four
/// rotations: sound (every added board is a valid layout) and complete
/// (every valid layout extending `placed` is added).
fn search(
    pool: &Vec<Ship>,
    idx: usize,
    placed: &Vec<(Pos2, Ship)>,
    shape: &Vec<Pos2>,
    ws: usize,
    out: &mut Vec<Board>,
)
    requires
        idx <= pool@.len(),
        placed@.len() == idx,
        pool_wf(pool@),
        partial_valid(pool@, placed@, shape@, ws as int),
    ensures
        final(out)@.len() >= old(out)@.len(),
        idx == pool@.len() ==> final(out)@.len() == old(out)@.len() + 1,
        forall|k: int| 0 <= k < old(out)@.len() ==> final(out)@[k] == old(out)@[k],
        forall|k: int|
            old(out)@.len() <= k < final(out)@.len() ==> layout_valid(
                pool@,
                shape@,
                ws as int,
                #[trigger] final(out)@[k],
            ),
        forall|p: Seq<(Pos2, Ship)>|
            #[trigger] complete_extension(pool@, placed@, shape@, ws as int, p) ==> covered_in(
                final(out)@,
                old(out)@.len() as int,
                p,
            ),
    decreases pool@.len() - idx,
{
    let ghost lo = out@.len() as int;
    if idx == pool.len() {
        let b = Board { ships: copy_placed(placed), shape: copy_pos2s(shape), shots: Vec::new() };
        proof {
            lemma_valid_congruent(pool@, placed@, b.ships@, shape@, ws as int);
        }
        out.push(b);
        proof {
            assert forall|p: Seq<(Pos2, Ship)>|
                #[trigger] complete_extension(pool@, placed@, shape@, ws as int, p) implies
            covered_in(out@, lo, p) by {
                assert(matches_placed(out@[lo].ships@, p));
            }
        }
        return ;
    }
    let base = Ship { shape: copy_vec2s(&pool[idx].shape) };
    let r90 = base.turn_counter();
    let r180 = r90.turn_counter();
    let r270 = r180.turn_counter();
    let mut cands: Vec<Ship> = Vec::new();
    proof {
        assert(turned(pool@[idx as int].shape@, base.shape@, 0));
        assert(turned(pool@[idx as int].shape@, r90.shape@, 1)) by {
            assert forall|i: int| 0 <= i < pool@[idx as int].shape@.len() implies (
            #[trigger] r90.shape@[i])@ == ccw_n(pool@[idx as int].shape@[i]@, 1) by {
                assert(r90.shape@[i]@ == vccw(base.shape@[i]@));
            }
        }
        assert(turned(pool@[idx as int].shape@, r180.shape@, 2)) by {
            assert forall|i: int| 0 <= i < pool@[idx as int].shape@.len() implies (
            #[trigger] r180.shape@[i])@ == ccw_n(pool@[idx as int].shape@[i]@, 2) by {
                assert(r180.shape@[i]@ == vccw(r90.shape@[i]@));
                assert(r90.shape@[i]@ == ccw_n(pool@[idx as int].shape@[i]@, 1));
            }
        }
        assert(turned(pool@[idx as int].shape@, r270.shape@, 3)) by {
            assert forall|i: int| 0 <= i < pool@[idx as int].shape@.len() implies (
            #[trigger] r270.shape@[i])@ == ccw_n(pool@[idx as int].shape@[i]@, 3) by {
                assert(r270.shape@[i]@ == vccw(r180.shape@[i]@));
                assert(r180.shape@[i]@ == ccw_n(pool@[idx as int].shape@[i]@, 2));
            }
        }
    }
    cands.push(base);
    cands.push(r90);
    cands.push(r180);
    cands.push(r270);
    assert(forall|n: int|
        0 <= n < 4 ==> (#[trigger] cands@[n]).wf() && cands@[n].turnable() && turned(
            pool@[idx as int].shape@,
            cands@[n].shape@,
            n as nat,
        ));
    let mut pi: usize = 0;
    while pi < shape.len()
        invariant
            idx < pool@.len(),
            pool@.len() <= usize::MAX,
            placed@.len() == idx,
            pool_wf(pool@),
            partial_valid(pool@, placed@, shape@, ws as int),
            cands@.len() == 4,
            forall|n: int|
                0 <= n < 4 ==> (#[trigger] cands@[n]).wf() && cands@[n].turnable() && turned(
                    pool@[idx as int].shape@,
                    cands@[n].shape@,
                    n as nat,
                ),
            pi <= shape@.len(),
            lo == old(out)@.len(),
            out@.len() >= old(out)@.len(),
            forall|k: int| 0 <= k < old(out)@.len() ==> out@[k] == old(out)@[k],
            forall|k: int|
                old(out)@.len() <= k < out@.len() ==> layout_valid(
                    pool@,
                    shape@,
                    ws as int,
                    #[trigger] out@[k],
                ),
            forall|p: Seq<(Pos2, Ship)>|
                (#[trigger] complete_extension(pool@, placed@, shape@, ws as int, p) && exists|
                    q: int,
                | 0 <= q < pi && shape@[q] == p[idx as int].0) ==> covered_in(out@, lo, p),
        decreases shape@.len() - pi,
    {
        let pos = shape[pi];
        let mut n: usize = 0;
        while n < 4
            invariant
                idx < pool@.len(),
                pool@.len() <= usize::MAX,
                placed@.len() == idx,
                pool_wf(pool@),
                partial_valid(pool@, placed@, shape@, ws as int),
                cands@.len() == 4,
                forall|m: int|
                    0 <= m < 4 ==> (#[trigger] cands@[m]).wf() && cands@[m].turnable() && turned(
                        pool@[idx as int].shape@,
                        cands@[m].shape@,
                        m as nat,
                    ),
                n <= 4,
                pi < shape@.len(),
                pos == shape@[pi as int],
                lo == old(out)@.len(),
                out@.len() >= old(out)@.len(),
                forall|k: int| 0 <= k < old(out)@.len() ==> out@[k] == old(out)@[k],
                forall|k: int|
                    old(out)@.len() <= k < out@.len() ==> layout_valid(
                        pool@,
                        shape@,
                        ws as int,
                        #[trigger] out@[k],
                    ),
                forall|p: Seq<(Pos2, Ship)>|
                    (#[trigger] complete_extension(pool@, placed@, shape@, ws as int, p) && exists|
                        q: int,
                    | 0 <= q < pi && shape@[q] == p[idx as int].0) ==> covered_in(out@, lo, p),
                forall|p: Seq<(Pos2, Ship)>|
                    (#[trigger] complete_extension(pool@, placed@, shape@, ws as int, p)
                        && p[idx as int].0 == pos && exists|m2: int|
                        0 <= m2 < n && (#[trigger] cands@[m2]).shape@ == p[idx as int].1.shape@)
                        ==> covered_in(out@, lo, p),
            decreases 4 - n,
        {
            let ghost out_at_n = out@;
            let mut repeat = false;
            let ghost mut mwit: int = 0;
            let mut m: usize = 0;
            while m < n
                invariant
                    cands@.len() == 4,
                    n < 4,
                    m <= n,
                    repeat ==> 0 <= mwit < n && cands@[mwit].shape@ == cands@[n as int].shape@,
                decreases n - m,
            {
                if eq_vec2_vec(&cands[m].shape, &cands[n].shape) {
                    repeat = true;
                    proof {
                        mwit = m as int;
                    }
                }
                m += 1;
            }
            if repeat {
                proof {
                    assert forall|p: Seq<(Pos2, Ship)>|
                        (#[trigger] complete_extension(pool@, placed@, shape@, ws as int, p)
                            && p[idx as int].0 == pos && exists|m2: int|
                            0 <= m2 < n + 1 && (#[trigger] cands@[m2]).shape@
                                == p[idx as int].1.shape@) implies covered_in(out@, lo, p) by {
                        let m2 = choose|m2: int|
                            0 <= m2 < n + 1 && (#[trigger] cands@[m2]).shape@
                                == p[idx as int].1.shape@;
                        if m2 == n {
                            assert(cands@[mwit].shape@ == p[idx as int].1.shape@);
                        }
                    }
                }
                n += 1;
                continue ;
            }
            let cand_cells = translate_ship(pos, &cands[n]);
            match cand_cells {
                Ok(cells) => {
                    if fits(&cells, placed, shape, ws) {
                        let mut extended = copy_placed(placed);
                        let cand_ship = Ship { shape: copy_vec2s(&cands[n].shape) };
                        extended.push((pos, cand_ship));
                        proof {
                            lemma_extend_valid(
                                pool@,
                                placed@,
                                extended@,
                                shape@,
                                ws as int,
                                pos,
                                cands@[n as int].shape@,
                                pos_views(cells@),
                                n as nat,
                            );
                        }
                        let ghost pre = out@;
                        search(pool, idx + 1, &extended, shape, ws, out);
                        proof {
                            assert forall|k: int|
                                old(out)@.len() <= k < out@.len() implies layout_valid(
                                pool@,
                                shape@,
                                ws as int,
                                #[trigger] out@[k],
                            ) by {
                                if k < pre.len() {
                                    assert(out@[k] == pre[k]);
                                }
                            }
                            assert forall|p: Seq<(Pos2, Ship)>|
                                (#[trigger] complete_extension(pool@, placed@, shape@, ws as int, p)
                                    && p[idx as int].0 == pos && p[idx as int].1.shape@
                                    == cands@[n as int].shape@) implies covered_in(
                                out@,
                                lo,
                                p,
                            ) by {
                                assert(complete_extension(
                                    pool@,
                                    extended@,
                                    shape@,
                                    ws as int,
                                    p,
                                )) by {
                                    assert forall|i: int| 0 <= i < extended@.len() implies (
                                    #[trigger] p[i]).0 == extended@[i].0 && p[i].1.shape@
                                        == extended@[i].1.shape@ by {
                                        if i < idx {
                                            assert(extended@[i].0 == placed@[i].0
                                                && extended@[i].1.shape@ == placed@[i].1.shape@);
                                        }
                                    }
                                }
                                assert(covered_in(out@, pre.len() as int, p));
                                let k = choose|k: int|
                                    pre.len() <= k < out@.len() && matches_placed(
                                        (#[trigger] out@[k]).ships@,
                                        p,
                                    );
                                assert(lo <= k < out@.len());
                            }
                        }
                    } else {
                        proof {
                            assert forall|p: Seq<(Pos2, Ship)>|
                                (#[trigger] complete_extension(pool@, placed@, shape@, ws as int, p)
                                    && p[idx as int].0 == pos && p[idx as int].1.shape@
                                    == cands@[n as int].shape@) implies covered_in(
                                out@,
                                lo,
                                p,
                            ) by {
                                lemma_extension_placement_fits(
                                    pool@,
                                    placed@,
                                    shape@,
                                    ws as int,
                                    p,
                                    idx as int,
                                    pos,
                                    cands@[n as int].shape@,
                                    pos_views(cells@),
                                );
                            }
                        }
                    }
                },
                Err(e) => {
                    proof {
                        assert forall|p: Seq<(Pos2, Ship)>|
                            (#[trigger] complete_extension(pool@, placed@, shape@, ws as int, p)
                                && p[idx as int].0 == pos && p[idx as int].1.shape@
                                == cands@[n as int].shape@) implies covered_in(out@, lo, p) by {
                            let j = choose|j: int|
                                0 <= j < cands@[n as int].shape@.len() && cands@[n as int].shape@[j]
                                    == e.offset;
                            lemma_extension_placement_fits(
                                pool@,
                                placed@,
                                shape@,
                                ws as int,
                                p,
                                idx as int,
                                pos,
                                cands@[n as int].shape@,
                                translated(pos, cands@[n as int].shape@),
                            );
                            assert(cell_in_bounds(vadd(pos@, cands@[n as int].shape@[j]@)));
                        }
                    }
                },
            }
            proof {
                assert forall|p: Seq<(Pos2, Ship)>|
                    (#[trigger] complete_extension(pool@, placed@, shape@, ws as int, p)
                        && p[idx as int].0 == pos && exists|m2: int|
                        0 <= m2 < n + 1 && (#[trigger] cands@[m2]).shape@
                            == p[idx as int].1.shape@) implies covered_in(out@, lo, p) by {
                    let m2 = choose|m2: int|
                        0 <= m2 < n + 1 && (#[trigger] cands@[m2]).shape@ == p[idx as int].1.shape@;
                    if m2 < n {
                        assert(covered_in(out_at_n, lo, p));
                        lemma_covered_mono(out_at_n, out@, lo, p);
                    }
                }
                assert forall|p: Seq<(Pos2, Ship)>|
                    (#[trigger] complete_extension(pool@, placed@, shape@, ws as int, p) && exists|
                        q: int,
                    | 0 <= q < pi && shape@[q] == p[idx as int].0) implies covered_in(
                    out@,
                    lo,
                    p,
                ) by {
                    assert(covered_in(out_at_n, lo, p));
                    lemma_covered_mono(out_at_n, out@, lo, p);
                }
            }
            n += 1;
        }
        proof {
            assert forall|p: Seq<(Pos2, Ship)>|
                (#[trigger] complete_extension(pool@, placed@, shape@, ws as int, p) && exists|
                    q: int,
                | 0 <= q < pi + 1 && shape@[q] == p[idx as int].0) implies covered_in(
                out@,
                lo,
                p,
            ) by {
                let q = choose|q: int| 0 <= q < pi + 1 && shape@[q] == p[idx as int].0;
                if q == pi {
                    assert(p[idx as int].0 == pos);
                    assert(rotation_of(pool@[idx as int].shape@, p[idx as int].1.shape@));
                    lemma_rotation_determined(
                        pool@[idx as int],
                        cands@,
                        p[idx as int].1.shape@,
                    );
                }
            }
        }
        pi += 1;
    }
    proof {
        assert forall|p: Seq<(Pos2, Ship)>|
            #[trigger] complete_extension(pool@, placed@, shape@, ws as int, p) implies covered_in(
            out@,
            lo,
            p,
        ) by {
            assert(cells_within(ship_cells(p[idx as int]), shape@));
            let n0 = choose|n0: nat|
                n0 < 4 && turned(pool@[idx as int].shape@, p[idx as int].1.shape@, n0);
            lemma_anchor_in_shape(pool@[idx as int], p[idx as int], shape@, n0);
            let q = choose|q: int| 0 <= q < shape@.len() && shape@[q] == p[idx as int].0;
            assert(0 <= q < pi && shape@[q] == p[idx as int].0);
        }
    }
}

/// Extending a valid partial placement by a fitting rotation of the next
/// pool ship keeps it valid.
proof fn lemma_extend_valid(
    pool: Seq<Ship>,
    placed: Seq<(Pos2, Ship)>,
    extended: Seq<(Pos2, Ship)>,
    shape: Seq<Pos2>,
    ws: int,
    pos: Pos2,
    cand_shape: Seq<Vec2>,
    cand_cells: Seq<(int, int)>,
    n: nat,
)
    requires
        placed.len() < pool.len(),
        partial_valid(pool, placed, shape, ws),
        extended.len() == placed.len() + 1,
        forall|i: int|
            0 <= i < placed.len() ==> (#[trigger] extended[i]).0 == placed[i].0
                && extended[i].1.shape@ == placed[i].1.shape@,
        extended.last().0 == pos,
        extended.last().1.shape@ == cand_shape,
        n < 4,
        turned(pool[placed.len() as int].shape@, cand_shape, n),
        cand_cells == translated(pos, cand_shape),
        cells_within(cand_cells, shape),
        forall|j: int|
            0 <= j < placed.len() ==> cells_apart(
                ship_cells(#[trigger] placed[j]),
                cand_cells,
                ws,
            ),
    ensures
        partial_valid(pool, extended, shape, ws),
{
    let le = placed.len() as int;
    assert forall|i: int| 0 <= i < le implies ship_cells(#[trigger] extended[i]) == ship_cells(
        placed[i],
    ) by {
        assert(extended[i].0 == placed[i].0 && extended[i].1.shape@ == placed[i].1.shape@);
    }
    assert(ship_cells(extended[le]) == cand_cells);
    assert forall|i: int| 0 <= i < extended.len() implies rotation_of(
        pool[i].shape@,
        (#[trigger] extended[i]).1.shape@,
    ) by {
        if i < le {
            assert(rotation_of(pool[i].shape@, placed[i].1.shape@));
        } else {
            assert(turned(pool[le].shape@, extended[le].1.shape@, n));
        }
    }
    assert forall|i: int| 0 <= i < extended.len() implies cells_within(
        ship_cells(#[trigger] extended[i]),
        shape,
    ) by {
        if i < le {
            assert(cells_within(ship_cells(placed[i]), shape));
        }
    }
    assert forall|i: int, j: int| 0 <= i < j < extended.len() implies cells_apart(
        ship_cells(#[trigger] extended[i]),
        ship_cells(#[trigger] extended[j]),
        ws,
    ) by {
        if j < le {
            assert(cells_apart(ship_cells(placed[i]), ship_cells(placed[j]), ws));
        } else {
            assert(cells_apart(ship_cells(placed[i]), cand_cells, ws));
        }
    }
}

} // verus!

verus! {

/// A mutable accumulator of a ship pool, a playable shape and a
/// whitespace separation, from which valid `Board` layouts are
/// enumerated.
#[derive(Debug, Default)]
pub struct BoardBuilder {
    pub ships: Vec<Ship>,
    pub shape: Vec<Pos2>,
    pub whitespace: usize,
}

impl BoardBuilder {
    pub fn new(ships: Vec<Ship>, shape: Vec<Pos2>, whitespace: usize) -> (r: Self)
        ensures
            r.ships == ships,
            r.shape == shape,
            r.whitespace == whitespace,
    {
        Self { ships, shape, whitespace }
    }

    /// Replaces the ship pool.
    pub fn set_ships(&mut self, ships: Vec<Ship>) -> (r: &mut Self)
        ensures
            (*r).ships == ships,
            (*r).shape == old(self).shape,
            (*r).whitespace == old(self).whitespace,
            *final(self) == *final(r),
    {
        self.ships = ships;
        self
    }

    /// Appends one ship to the pool.
    pub fn add_ship(&mut self, ship: Ship) -> (r: &mut Self)
        ensures
            (*r).ships@ == old(self).ships@.push(ship),
            (*r).shape == old(self).shape,
            (*r).whitespace == old(self).whitespace,
            *final(self) == *final(r),
    {
        self.ships.push(ship);
        self
    }

    /// Replaces the playable shape.
    pub fn set_shape(&mut self, shape: Vec<Pos2>) -> (r: &mut Self)
        ensures
            (*r).ships == old(self).ships,
            (*r).shape == shape,
            (*r).whitespace == old(self).whitespace,
            *final(self) == *final(r),
    {
        self.shape = shape;
        self
    }

    /// Replaces the whitespace separation.
    pub fn set_whitespace(&mut self, whitespace: usize) -> (r: &mut Self)
        ensures
            (*r).ships == old(self).ships,
            (*r).shape == old(self).shape,
            (*r).whitespace == whitespace,
            *final(self) == *final(r),
    {
        self.whitespace = whitespace;
        self
    }

    pub fn ships(&self) -> (r: &[Ship])
        ensures
            r@ == self.ships@,
    {
        self.ships.as_slice()
    }

    pub fn shape(&self) -> (r: &[Pos2])
        ensures
            r@ == self.shape@,
    {
        self.shape.as_slice()
    }

    pub fn whitespace(&self) -> (r: usize)
        ensures
            r == self.whitespace,
    {
        self.whitespace
    }

    pub fn ships_mut(&mut self) -> (r: &mut Vec<Ship>)
        ensures
            *r == old(self).ships,
            final(self).ships == *final(r),
            final(self).shape == old(self).shape,
            final(self).whitespace == old(self).whitespace,
    {
        &mut self.ships
    }

    pub fn shape_mut(&mut self) -> (r: &mut Vec<Pos2>)
        ensures
            *r == old(self).shape,
            final(self).shape == *final(r),
            final(self).ships == old(self).ships,
            final(self).whitespace == old(self).whitespace,
    {
        &mut self.shape
    }

    pub fn whitespace_mut(&mut self) -> (r: &mut usize)
        ensures
            *r == old(self).whitespace,
            final(self).whitespace == *final(r),
            final(self).ships == old(self).ships,
            final(self).shape == old(self).shape,
    {
        &mut self.whitespace
    }

    /// Enumerates every layout that places one rotation of each pool ship
    /// at a playable anchor, wholly inside the shape, with every pair of
    /// ships more than `whitespace` apart in Chebyshev distance. Succeeds
    /// exactly when at least one such layout exists, and the result then
    /// holds every one of them: the search drops no valid layout. When
    /// none exists, returns one `NoPlacement` error for each pool ship
    /// that admits no placement even alone on the board; when every ship
    /// is placeable alone but they cannot be combined, a single error
    /// names the first ship.
    pub fn build(&mut self) -> (r: Result<Vec<Board>, Vec<BoardErrors>>)
        requires
            pool_wf(old(self).ships@),
        ensures
            *final(self) == *old(self),
            r is Ok <==> exists|p: Seq<(Pos2, Ship)>|
                complete_extension(
                    old(self).ships@,
                    Seq::<(Pos2, Ship)>::empty(),
                    old(self).shape@,
                    old(self).whitespace as int,
                    p,
                ),
            r matches Ok(boards) ==> boards@.len() >= 1 && (forall|k: int|
                0 <= k < boards@.len() ==> layout_valid(
                    old(self).ships@,
                    old(self).shape@,
                    old(self).whitespace as int,
                    #[trigger] boards@[k],
                )) && (forall|p: Seq<(Pos2, Ship)>|
                #[trigger] complete_extension(
                    old(self).ships@,
                    Seq::<(Pos2, Ship)>::empty(),
                    old(self).shape@,
                    old(self).whitespace as int,
                    p,
                ) ==> covered_in(boards@, 0, p)),
            old(self).ships@.len() == 0 ==> (r matches Ok(boards) && boards@.len() == 1),
            r matches Err(es) ==> es@.len() >= 1 && old(self).ships@.len() > 0,
    {
        let mut out: Vec<Board> = Vec::new();
        let empty: Vec<(Pos2, Ship)> = Vec::new();
        search(&self.ships, 0, &empty, &self.shape, self.whitespace, &mut out);
        if out.len() > 0 {
            proof {
                assert(complete_extension(
                    self.ships@,
                    Seq::<(Pos2, Ship)>::empty(),
                    self.shape@,
                    self.whitespace as int,
                    out@[0].ships@,
                ));
            }
            return Ok(out);
        }
        proof {
            assert forall|p: Seq<(Pos2, Ship)>| !complete_extension(
                self.ships@,
                Seq::<(Pos2, Ship)>::empty(),
                self.shape@,
                self.whitespace as int,
                p,
            ) by {
                if complete_extension(
                    self.ships@,
                    Seq::<(Pos2, Ship)>::empty(),
                    self.shape@,
                    self.whitespace as int,
                    p,
                ) {
                    assert(covered_in(out@, 0, p));
                }
            }
        }
        let mut errs: Vec<BoardErrors> = Vec::new();
        let mut i: usize = 0;
        while i < self.ships.len()
            invariant
                pool_wf(self.ships@),
            decreases self.ships@.len() - i,
        {
            let lone = Ship { shape: copy_vec2s(&self.ships[i].shape) };
            let mut pool1: Vec<Ship> = Vec::new();
            pool1.push(lone);
            let none: Vec<(Pos2, Ship)> = Vec::new();
            let mut found: Vec<Board> = Vec::new();
            search(&pool1, 0, &none, &self.shape, self.whitespace, &mut found);
            if found.len() == 0 {
                errs.push(BoardErrors::NoPlacement { ship: i });
            }
            i += 1;
        }
        if errs.len() == 0 {
            errs.push(BoardErrors::NoPlacement { ship: 0 });
        }
        Err(errs)
    }
}

} // verus!

use crate::ship::origin;

verus! {

/// The two placement lists agree anchor for anchor and, offset for
/// offset, shape for shape.
pub open spec fn matches_placed(a: Seq<(Pos2, Ship)>, b: Seq<(Pos2, Ship)>) -> bool {
    a.len() == b.len() && forall|i: int|
        0 <= i < a.len() ==> (#[trigger] a[i]).0 == b[i].0 && a[i].1.shape@ == b[i].1.shape@
}

/// A full valid layout of the pool that keeps every placement already in
/// `placed` as it stands.
pub open spec fn complete_extension(
    pool: Seq<Ship>,
    placed: Seq<(Pos2, Ship)>,
    shape: Seq<Pos2>,
    ws: int,
    p: Seq<(Pos2, Ship)>,
) -> bool {
    &&& p.len() == pool.len()
    &&& placed.len() <= p.len()
    &&& forall|i: int|
        0 <= i < placed.len() ==> (#[trigger] p[i]).0 == placed[i].0 && p[i].1.shape@
            == placed[i].1.shape@
    &&& partial_valid(pool, p, shape, ws)
}

/// A quarter turn fixes the origin.
proof fn lemma_ccw_n_zero(n: nat)
    ensures
        ccw_n((0, 0), n) == (0int, 0int),
    decreases n,
{
    if n > 0 {
        lemma_ccw_n_zero((n - 1) as nat);
    }
}

/// Two shapes turned the same way from one shape are the same shape.
proof fn lemma_turned_unique(a: Seq<Vec2>, b1: Seq<Vec2>, b2: Seq<Vec2>, n: nat)
    requires
        turned(a, b1, n),
        turned(a, b2, n),
    ensures
        b1 == b2,
{
    assert forall|i: int| 0 <= i < b1.len() implies b1[i] == b2[i] by {
        assert(b1[i]@ == ccw_n(a[i]@, n));
        assert(b2[i]@ == ccw_n(a[i]@, n));
    }
    assert(b1 =~= b2);
}

/// A rotation of a well-formed pool shape still holds the origin anchor,
/// so its placement covers its own anchor cell; inside the playable shape
/// that anchor is a playable cell.
proof fn lemma_anchor_in_shape(pool_ship: Ship, pl: (Pos2, Ship), shape: Seq<Pos2>, n: nat)
    requires
        pool_ship.wf(),
        turned(pool_ship.shape@, pl.1.shape@, n),
        cells_within(ship_cells(pl), shape),
    ensures
        shape.contains(pl.0),
{
    let k = choose|k: int| 0 <= k < pool_ship.shape@.len() && pool_ship.shape@[k] == origin();
    assert(pl.1.shape@[k]@ == ccw_n((0, 0), n)) by {
        assert(pl.1.shape@[k]@ == ccw_n(pool_ship.shape@[k]@, n));
    }
    lemma_ccw_n_zero(n);
    assert(ship_cells(pl)[k] == vadd(pl.0@, pl.1.shape@[k]@));
    assert(ship_cells(pl)[k] == pl.0@);
    assert(pos_views(shape).contains(pl.0@));
    lemma_pos_contains(shape, pl.0);
}

} // verus!
