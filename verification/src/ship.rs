//! Ship shapes: a set of displacement offsets anchored at the origin, with
//! quarter-turn rotation and exact-offset-set equivalence.

use crate::geometry::{vccw, vcw, Vec2};
use itertools::Itertools;
use vstd::prelude::*;

verus! {

/// The origin offset that anchors every ship shape.
pub open spec fn origin() -> Vec2 {
    Vec2 { x: 0, y: 0 }
}

/// `s` with the origin appended when it is missing.
pub open spec fn anchored(s: Seq<Vec2>) -> Seq<Vec2> {
    if s.contains(origin()) {
        s
    } else {
        s.push(origin())
    }
}

/// `s` with every repeated offset dropped, keeping the first occurrence of
/// each, in order.
pub open spec fn dedup_first(s: Seq<Vec2>) -> Seq<Vec2>
    decreases s.len(),
{
    if s.len() == 0 {
        Seq::<Vec2>::empty()
    } else {
        let rest = dedup_first(s.drop_last());
        if rest.contains(s.last()) {
            rest
        } else {
            rest.push(s.last())
        }
    }
}

/// Deduplication keeps exactly the elements of the input and leaves no
/// repeats.
pub proof fn lemma_dedup_first_props(s: Seq<Vec2>)
    ensures
        forall|v: Vec2| dedup_first(s).contains(v) <==> s.contains(v),
        dedup_first(s).no_duplicates(),
    decreases s.len(),
{
    if s.len() > 0 {
        lemma_dedup_first_props(s.drop_last());
        assert forall|v: Vec2| s.contains(v) implies dedup_first(s).contains(v) by {
            let i = choose|i: int| 0 <= i < s.len() && s[i] == v;
            if i < s.len() - 1 {
                assert(s.drop_last()[i] == v);
                assert(s.drop_last().contains(v));
                let rest = dedup_first(s.drop_last());
                assert(rest.contains(v));
                if !rest.contains(s.last()) {
                    let j = choose|j: int| 0 <= j < rest.len() && rest[j] == v;
                    assert(dedup_first(s)[j] == v);
                }
            } else {
                assert(v == s.last());
                let rest = dedup_first(s.drop_last());
                if !rest.contains(v) {
                    assert(dedup_first(s) == rest.push(v));
                    assert(dedup_first(s)[rest.len() as int] == v);
                }
            }
        }
        assert forall|v: Vec2| dedup_first(s).contains(v) implies s.contains(v) by {
            if s.drop_last().contains(v) {
                let i = choose|i: int| 0 <= i < s.drop_last().len() && s.drop_last()[i] == v;
                assert(s[i] == v);
            } else {
                assert(s[s.len() - 1] == s.last());
            }
        }
    }
}

/// Relies on itertools' `Itertools::unique`, with `Vec2`'s derived
/// component-wise `Eq` and `Hash`: it yields each distinct element once,
/// keeping the first occurrence of each, in input order.
#[verifier::external_body]
fn dedup_vec2(v: Vec<Vec2>) -> (r: Vec<Vec2>)
    ensures
        r@ == dedup_first(v@),
{
    v.into_iter().unique().collect()
}

/// Whether `v` holds `t`, by component-wise equality.
pub(crate) fn contains_vec2(v: &Vec<Vec2>, t: Vec2) -> (r: bool)
    ensures
        r == v@.contains(t),
{
    let mut i: usize = 0;
    while i < v.len()
        invariant
            i <= v@.len(),
            forall|k: int| 0 <= k < i ==> v@[k] != t,
        decreases v@.len() - i,
    {
        if v[i] == t {
            assert(v@.contains(t)) by { assert(v@[i as int] == t); }
            return true;
        }
        i += 1;
    }
    false
}

/// A ship shape: offsets relative to the placement anchor. Constructors
/// keep the shape deduplicated and anchored at the origin.
#[derive(Clone, Debug, PartialEq, Eq, PartialOrd, Ord, Hash)]
pub struct Ship {
    pub shape: Vec<Vec2>,
}

/// Rejections of a ship shape under the strict anchoring policy.
#[derive(Clone, Copy, Debug, PartialEq, Eq, Structural)]
pub enum ShipError {
    /// The shape does not name the origin anchor.
    NoRootVec,
}

/// The four canonical rotations of one shape, keyed by the angle turned
/// counter-clockwise, so that no caller has to rely on an array order.
#[derive(Clone, Debug, PartialEq, Eq)]
pub struct Rotations {
    pub r0: Ship,
    pub r90: Ship,
    pub r180: Ship,
    pub r270: Ship,
}

impl Ship {
    /// The shape invariant: the origin anchor is present and no offset is
    /// repeated.
    pub open spec fn wf(self) -> bool {
        self.shape@.contains(origin()) && self.shape@.no_duplicates()
    }

    /// No offset component is the one value whose negation overflows, so
    /// every chain of quarter turns stays representable.
    pub open spec fn turnable(self) -> bool {
        forall|i: int|
            0 <= i < self.shape@.len() ==> (#[trigger] self.shape@[i]).x != isize::MIN
                && self.shape@[i].y != isize::MIN
    }

    /// Builds a ship under the lenient anchoring policy: a missing origin
    /// is inserted, never rejected, and repeated offsets are dropped
    /// (first occurrence kept). Always succeeds.
    pub fn new(shape: Vec<Vec2>) -> (r: Result<Self, ShipError>)
        ensures
            r matches Ok(s) && s.shape@ == dedup_first(anchored(shape@)),
            r matches Ok(s) ==> s.wf(),
    {
        let ghost orig = shape@;
        let mut shape = shape;
        if !contains_vec2(&shape, Vec2 { x: 0, y: 0 }) {
            shape.push(Vec2 { x: 0, y: 0 });
        }
        assert(shape@ == anchored(orig));
        let shape = dedup_vec2(shape);
        proof {
            lemma_dedup_first_props(anchored(orig));
            assert(anchored(orig).contains(origin())) by {
                if !orig.contains(origin()) {
                    assert(anchored(orig).last() == origin());
                }
            }
        }
        Ok(Self { shape })
    }

    /// Builds a ship under the strict anchoring policy: a shape that does
    /// not name the origin is rejected rather than completed.
    pub fn new_strict(shape: Vec<Vec2>) -> (r: Result<Self, ShipError>)
        ensures
            shape@.contains(origin()) ==> (r matches Ok(s) && s.shape@ == dedup_first(shape@)
                && s.wf()),
            !shape@.contains(origin()) ==> r == Err::<Ship, ShipError>(ShipError::NoRootVec),
    {
        if !contains_vec2(&shape, Vec2 { x: 0, y: 0 }) {
            return Err(ShipError::NoRootVec);
        }
        let ghost orig = shape@;
        let shape = dedup_vec2(shape);
        proof {
            lemma_dedup_first_props(orig);
        }
        Ok(Self { shape })
    }

    /// The shape turned one quarter clockwise, offset by offset.
    pub fn turn_clock(&self) -> (r: Self)
        requires
            self.wf(),
            self.turnable(),
        ensures
            r.wf(),
            r.turnable(),
            r.shape@.len() == self.shape@.len(),
            forall|i: int| 0 <= i < self.shape@.len() ==> (#[trigger] r.shape@[i])@ == vcw(
                self.shape@[i]@,
            ),
    {
        let mut out: Vec<Vec2> = Vec::new();
        let mut i: usize = 0;
        while i < self.shape.len()
            invariant
                self.wf(),
                self.turnable(),
                i <= self.shape@.len(),
                out@.len() == i,
                forall|k: int| 0 <= k < i ==> (#[trigger] out@[k])@ == vcw(self.shape@[k]@),
            decreases self.shape@.len() - i,
        {
            let v = self.shape[i];
            out.push(v.turn_clock());
            i += 1;
        }
        let r = Self { shape: out };
        proof {
            lemma_rotation_keeps_wf(self.shape@, r.shape@, true);
        }
        r
    }

    /// Turns this ship one quarter clockwise in place.
    pub fn turn_clock_mut(&mut self)
        requires
            old(self).wf(),
            old(self).turnable(),
        ensures
            final (self).wf(),
            final (self).turnable(),
            final (self).shape@.len() == old(self).shape@.len(),
            forall|i: int|
                0 <= i < old(self).shape@.len() ==> (#[trigger] final (self).shape@[i])@ == vcw(
                    old(self).shape@[i]@,
                ),
    {
        let t = self.turn_clock();
        *self = t;
    }

    /// The shape turned one quarter counter-clockwise, offset by offset.
    pub fn turn_counter(&self) -> (r: Self)
        requires
            self.wf(),
            self.turnable(),
        ensures
            r.wf(),
            r.turnable(),
            r.shape@.len() == self.shape@.len(),
            forall|i: int| 0 <= i < self.shape@.len() ==> (#[trigger] r.shape@[i])@ == vccw(
                self.shape@[i]@,
            ),
    {
        let mut out: Vec<Vec2> = Vec::new();
        let mut i: usize = 0;
        while i < self.shape.len()
            invariant
                self.wf(),
                self.turnable(),
                i <= self.shape@.len(),
                out@.len() == i,
                forall|k: int| 0 <= k < i ==> (#[trigger] out@[k])@ == vccw(self.shape@[k]@),
            decreases self.shape@.len() - i,
        {
            let v = self.shape[i];
            out.push(v.turn_counter());
            i += 1;
        }
        let r = Self { shape: out };
        proof {
            lemma_rotation_keeps_wf(self.shape@, r.shape@, false);
        }
        r
    }

    /// Turns this ship one quarter counter-clockwise in place.
    pub fn turn_counter_mut(&mut self)
        requires
            old(self).wf(),
            old(self).turnable(),
        ensures
            final (self).wf(),
            final (self).turnable(),
            final (self).shape@.len() == old(self).shape@.len(),
            forall|i: int|
                0 <= i < old(self).shape@.len() ==> (#[trigger] final (self).shape@[i])@ == vccw(
                    old(self).shape@[i]@,
                ),
    {
        let t = self.turn_counter();
        *self = t;
    }

    /// Whether the two shapes hold exactly the same offsets, regardless of
    /// order: exact-offset-set equality, not equivalence under rotation.
    pub fn is_equivalent(&self, other: &Self) -> (r: bool)
        requires
            self.wf(),
            other.wf(),
        ensures
            r == (self.shape@.to_set() == other.shape@.to_set()),
    {
        if self.shape.len() != other.shape.len() {
            proof {
                self.shape@.unique_seq_to_set();
                other.shape@.unique_seq_to_set();
            }
            return false;
        }
        let mut i: usize = 0;
        while i < self.shape.len()
            invariant
                self.wf(),
                other.wf(),
                self.shape@.len() == other.shape@.len(),
                i <= self.shape@.len(),
                forall|k: int| 0 <= k < i ==> other.shape@.contains(#[trigger] self.shape@[k]),
            decreases self.shape@.len() - i,
        {
            if !contains_vec2(&other.shape, self.shape[i]) {
                proof {
                    assert(self.shape@.to_set().contains(self.shape@[i as int]));
                    assert(!other.shape@.to_set().contains(self.shape@[i as int]));
                }
                return false;
            }
            i += 1;
        }
        proof {
            self.shape@.unique_seq_to_set();
            other.shape@.unique_seq_to_set();
            assert(self.shape@.to_set() <= other.shape@.to_set()) by {
                assert forall|v: Vec2| self.shape@.to_set().contains(v)
                    implies other.shape@.to_set().contains(v) by {
                    assert(self.shape@.contains(v));
                }
            }
            vstd::set_lib::lemma_subset_equality(self.shape@.to_set(), other.shape@.to_set());
        }
        true
    }

    /// The shape and its three quarter-turn rotations, labeled by angle
    /// turned counter-clockwise. The base shape is anchored and
    /// deduplicated as under the lenient policy; each rotation turns it
    /// offset by offset. Always succeeds.
    pub fn get_new(shape: Vec<Vec2>) -> (r: Result<Rotations, ShipError>)
        requires
            forall|i: int|
                0 <= i < shape@.len() ==> (#[trigger] shape@[i]).x != isize::MIN
                    && shape@[i].y != isize::MIN,
        ensures
            r matches Ok(rot) && rot.r0.shape@ == dedup_first(anchored(shape@)),
            r matches Ok(rot) ==> {
                &&& rot.r0.wf() && rot.r90.wf() && rot.r180.wf() && rot.r270.wf()
                &&& rot.r90.shape@.len() == rot.r0.shape@.len()
                &&& rot.r180.shape@.len() == rot.r0.shape@.len()
                &&& rot.r270.shape@.len() == rot.r0.shape@.len()
                &&& forall|i: int| 0 <= i < rot.r0.shape@.len() ==> (#[trigger] rot.r90.shape@[i])@
                    == vccw(rot.r0.shape@[i]@)
                &&& forall|i: int| 0 <= i < rot.r0.shape@.len() ==> (#[trigger] rot.r180.shape@[i])@
                    == vccw(vccw(rot.r0.shape@[i]@))
                &&& forall|i: int| 0 <= i < rot.r0.shape@.len() ==> (#[trigger] rot.r270.shape@[i])@
                    == vccw(vccw(vccw(rot.r0.shape@[i]@)))
            },
    {
        let norm = match Self::new(shape) {
            Ok(s) => s,
            Err(_) => {
                return Err(ShipError::NoRootVec);
            },
        };
        proof {
            lemma_dedup_first_props(anchored(shape@));
            assert forall|i: int| 0 <= i < norm.shape@.len() implies (#[trigger] norm.shape@[i]).x
                != isize::MIN && norm.shape@[i].y != isize::MIN by {
            lemma_anchored_components(shape@, norm.shape@[i]);
            }
            assert(norm.turnable());
        }
        let r90 = norm.turn_counter();
        let r180 = r90.turn_counter();
        let r270 = r180.turn_counter();
        Ok(Rotations { r0: norm, r90, r180, r270 })
    }
}

/// An offset of the anchored shape is an input offset or the origin, so
/// its components escape the one non-negatable value whenever the inputs'
/// do.
proof fn lemma_anchored_components(s: Seq<Vec2>, v: Vec2)
    requires
        forall|i: int|
            0 <= i < s.len() ==> (#[trigger] s[i]).x != isize::MIN && s[i].y != isize::MIN,
        anchored(s).contains(v),
    ensures
        v.x != isize::MIN && v.y != isize::MIN,
{
    if s.contains(v) {
    } else {
        let i = choose|i: int| 0 <= i < anchored(s).len() && anchored(s)[i] == v;
        if i < s.len() {
            assert(s[i] == v);
            assert(s.contains(v));
        } else {
            assert(v == origin());
        }
    }
}

/// A shape rotated offset by offset, all one way, keeps the invariant:
/// the anchor turns onto itself and distinct offsets stay distinct.
proof fn lemma_rotation_keeps_wf(s: Seq<Vec2>, r: Seq<Vec2>, cw_turn: bool)
    requires
        s.contains(origin()),
        s.no_duplicates(),
        r.len() == s.len(),
        cw_turn ==> forall|i: int| 0 <= i < s.len() ==> (#[trigger] r[i])@ == vcw(s[i]@),
        !cw_turn ==> forall|i: int| 0 <= i < s.len() ==> (#[trigger] r[i])@ == vccw(s[i]@),
        forall|i: int|
            0 <= i < s.len() ==> (#[trigger] s[i]).x != isize::MIN && s[i].y != isize::MIN,
    ensures
        r.contains(origin()),
        r.no_duplicates(),
        forall|i: int|
            0 <= i < r.len() ==> (#[trigger] r[i]).x != isize::MIN && r[i].y != isize::MIN,
{
    let k = choose|k: int| 0 <= k < s.len() && s[k] == origin();
    assert(r[k]@ == (0int, 0int));
    assert(r[k] == origin());
    assert(r.contains(origin()));
    assert forall|i: int, j: int| 0 <= i < j < r.len() implies r[i] != r[j] by {
        assert(s[i] != s[j]);
        if r[i] == r[j] {
            assert(r[i]@ == r[j]@);
            assert(s[i]@ == s[j]@);
            assert(s[i] == s[j]);
        }
    }
    assert forall|i: int| 0 <= i < r.len() implies (#[trigger] r[i]).x != isize::MIN && r[i].y
        != isize::MIN by {
        assert(r[i]@ == vcw(s[i]@) || r[i]@ == vccw(s[i]@));
    }
}

} // verus!
