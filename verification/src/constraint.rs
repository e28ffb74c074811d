//! Version constraints: unions of ranges over versions.
//!
//! A range admits the versions between its two bounds; a constraint is
//! satisfied by a version when any of its ranges admits it. The
//! resolver needs three operations: satisfaction, complement (for
//! emitting incompatibilities), and a refinement test between two
//! constraints (for widening one incompatibility over a run of
//! versions).

use vstd::prelude::*;

use crate::version::{
    lemma_version_congruence, lemma_version_le_trans, lemma_version_lt_trans, lemma_version_order,
    version_eq, version_le, version_lt, Version,
};

verus! {

/// One end of a range.
#[derive(Debug, Clone, PartialEq, Eq)]
pub enum Bound {
    Unbounded,
    Inclusive(Version),
    Exclusive(Version),
}

/// The versions between a lower and an upper bound.
#[derive(Debug, Clone, PartialEq, Eq)]
pub struct Range {
    pub lower: Bound,
    pub upper: Bound,
}

/// A union of ranges.
#[derive(Debug, Clone, PartialEq, Eq)]
pub struct Constraint {
    pub ranges: Vec<Range>,
}

/// How two constraints relate, as far as the resolver needs to know.
#[derive(Debug, Clone, Copy, PartialEq, Eq, Structural)]
pub enum Relation {
    /// The two constraints are written identically.
    Equal,
    /// Every range of the other constraint is covered by one of ours.
    Superset,
    /// Anything else.
    Unrelated,
}

/// A version clears a lower bound.
pub open spec fn lower_ok(b: Bound, v: Version) -> bool {
    match b {
        Bound::Unbounded => true,
        Bound::Inclusive(a) => version_le(a, v),
        Bound::Exclusive(a) => version_lt(a, v),
    }
}

/// A version clears an upper bound.
pub open spec fn upper_ok(b: Bound, v: Version) -> bool {
    match b {
        Bound::Unbounded => true,
        Bound::Inclusive(a) => version_le(v, a),
        Bound::Exclusive(a) => version_lt(v, a),
    }
}

/// A range admits a version.
pub open spec fn in_range(r: Range, v: Version) -> bool {
    lower_ok(r.lower, v) && upper_ok(r.upper, v)
}

/// A constraint is satisfied by a version.
pub open spec fn sat(ranges: Seq<Range>, v: Version) -> bool {
    exists|i: int| 0 <= i < ranges.len() && in_range(#[trigger] ranges[i], v)
}

/// Lower bound `x` admits every version lower bound `y` admits.
pub open spec fn lower_covers(x: Bound, y: Bound) -> bool {
    match (x, y) {
        (Bound::Unbounded, _) => true,
        (_, Bound::Unbounded) => false,
        (Bound::Inclusive(a), Bound::Inclusive(b)) => version_le(a, b),
        (Bound::Inclusive(a), Bound::Exclusive(b)) => version_le(a, b),
        (Bound::Exclusive(a), Bound::Inclusive(b)) => version_lt(a, b),
        (Bound::Exclusive(a), Bound::Exclusive(b)) => version_le(a, b),
    }
}

/// Upper bound `x` admits every version upper bound `y` admits.
pub open spec fn upper_covers(x: Bound, y: Bound) -> bool {
    match (x, y) {
        (Bound::Unbounded, _) => true,
        (_, Bound::Unbounded) => false,
        (Bound::Inclusive(a), Bound::Inclusive(b)) => version_le(b, a),
        (Bound::Inclusive(a), Bound::Exclusive(b)) => version_le(b, a),
        (Bound::Exclusive(a), Bound::Inclusive(b)) => version_lt(b, a),
        (Bound::Exclusive(a), Bound::Exclusive(b)) => version_le(b, a),
    }
}

/// Range `x` admits every version range `y` admits.
pub open spec fn range_covers(x: Range, y: Range) -> bool {
    lower_covers(x.lower, y.lower) && upper_covers(x.upper, y.upper)
}

/// Some range of `a` covers the `k`-th range of `b`.
pub open spec fn covered(a: Seq<Range>, b: Seq<Range>, k: int) -> bool {
    exists|i: int| 0 <= i < a.len() && range_covers(#[trigger] a[i], b[k])
}

/// Every range of `b` is covered by some range of `a`.
pub open spec fn spec_refines(a: Seq<Range>, b: Seq<Range>) -> bool {
    forall|j: int| 0 <= j < b.len() ==> #[trigger] covered(a, b, j)
}

/// A covering lower bound admits whatever the covered one admits.
proof fn lemma_lower_covers_sound(x: Bound, y: Bound, v: Version)
    requires
        lower_covers(x, y),
        lower_ok(y, v),
    ensures
        lower_ok(x, v),
{
    match (x, y) {
        (Bound::Inclusive(a), Bound::Inclusive(b)) => {
            lemma_version_le_trans(a, b, v);
        },
        (Bound::Inclusive(a), Bound::Exclusive(b)) => {
            lemma_version_le_trans(a, b, v);
            if version_eq(a, b) {
                lemma_version_congruence(a, b, v);
            }
        },
        (Bound::Exclusive(a), Bound::Inclusive(b)) => {
            if version_lt(b, v) {
                lemma_version_lt_trans(a, b, v);
            } else {
                lemma_version_congruence(b, v, a);
            }
        },
        (Bound::Exclusive(a), Bound::Exclusive(b)) => {
            if version_eq(a, b) {
                lemma_version_congruence(a, b, v);
            } else {
                lemma_version_lt_trans(a, b, v);
            }
        },
        _ => {},
    }
}

/// A covering upper bound admits whatever the covered one admits.
proof fn lemma_upper_covers_sound(x: Bound, y: Bound, v: Version)
    requires
        upper_covers(x, y),
        upper_ok(y, v),
    ensures
        upper_ok(x, v),
{
    match (x, y) {
        (Bound::Inclusive(a), Bound::Inclusive(b)) => {
            lemma_version_le_trans(v, b, a);
        },
        (Bound::Inclusive(a), Bound::Exclusive(b)) => {
            if version_eq(b, a) {
                lemma_version_congruence(b, a, v);
            } else {
                lemma_version_lt_trans(v, b, a);
            }
        },
        (Bound::Exclusive(a), Bound::Inclusive(b)) => {
            if version_lt(v, b) {
                lemma_version_lt_trans(v, b, a);
            } else {
                lemma_version_congruence(v, b, a);
            }
        },
        (Bound::Exclusive(a), Bound::Exclusive(b)) => {
            if version_eq(b, a) {
                lemma_version_congruence(b, a, v);
            } else {
                lemma_version_lt_trans(v, b, a);
            }
        },
        _ => {},
    }
}

/// Refinement is sound: when `a` refines `b`, every version satisfying
/// `b` satisfies `a`.
pub proof fn lemma_refines_sound(a: Seq<Range>, b: Seq<Range>, v: Version)
    requires
        spec_refines(a, b),
        sat(b, v),
    ensures
        sat(a, v),
{
    let j = choose|j: int| 0 <= j < b.len() && in_range(#[trigger] b[j], v);
    assert(covered(a, b, j));
    let i = choose|i: int| 0 <= i < a.len() && range_covers(#[trigger] a[i], b[j]);
    lemma_lower_covers_sound(a[i].lower, b[j].lower, v);
    lemma_upper_covers_sound(a[i].upper, b[j].upper, v);
    assert(in_range(a[i], v));
}

/// The ghost value of a bound.
pub enum BoundV {
    Unbounded,
    Inclusive(crate::package::VersionV),
    Exclusive(crate::package::VersionV),
}

impl View for Bound {
    type V = BoundV;

    open spec fn view(&self) -> BoundV {
        match self {
            Bound::Unbounded => BoundV::Unbounded,
            Bound::Inclusive(v) => BoundV::Inclusive(v@),
            Bound::Exclusive(v) => BoundV::Exclusive(v@),
        }
    }
}

/// The ghost value of a range.
pub struct RangeV {
    pub lower: BoundV,
    pub upper: BoundV,
}

impl View for Range {
    type V = RangeV;

    open spec fn view(&self) -> RangeV {
        RangeV { lower: self.lower@, upper: self.upper@ }
    }
}

impl View for Constraint {
    type V = Seq<RangeV>;

    open spec fn view(&self) -> Seq<RangeV> {
        self.ranges@.map_values(|r: Range| r@)
    }
}

/// Bounds with equal ghost values admit the same versions.
pub proof fn lemma_bound_view_ok(x: Bound, y: Bound, v: Version)
    requires
        x@ == y@,
    ensures
        lower_ok(x, v) == lower_ok(y, v),
        upper_ok(x, v) == upper_ok(y, v),
{
    match (x, y) {
        (Bound::Inclusive(a), Bound::Inclusive(b)) => {
            crate::package::lemma_version_eq_is_view_eq(a, b);
            lemma_version_congruence(a, b, v);
        },
        (Bound::Exclusive(a), Bound::Exclusive(b)) => {
            crate::package::lemma_version_eq_is_view_eq(a, b);
            lemma_version_congruence(a, b, v);
        },
        _ => {},
    }
}

/// Ranges with equal ghost values admit the same versions.
pub proof fn lemma_range_view_ok(x: Range, y: Range, v: Version)
    requires
        x@ == y@,
    ensures
        in_range(x, v) == in_range(y, v),
{
    lemma_bound_view_ok(x.lower, y.lower, v);
    lemma_bound_view_ok(x.upper, y.upper, v);
}

impl Bound {
    /// A copy with the same ghost value.
    pub fn duplicate(&self) -> (r: Bound)
        ensures
            r@ == self@,
    {
        match self {
            Bound::Unbounded => Bound::Unbounded,
            Bound::Inclusive(v) => Bound::Inclusive(v.duplicate()),
            Bound::Exclusive(v) => Bound::Exclusive(v.duplicate()),
        }
    }
}

impl Range {
    /// A copy with the same ghost value.
    pub fn duplicate(&self) -> (r: Range)
        ensures
            r@ == self@,
    {
        Range { lower: self.lower.duplicate(), upper: self.upper.duplicate() }
    }

    /// Does this range admit the version?
    pub fn satisfies(&self, v: &Version) -> (r: bool)
        ensures
            r == in_range(*self, *v),
    {
        let low = match &self.lower {
            Bound::Unbounded => true,
            Bound::Inclusive(a) => a.le_version(v),
            Bound::Exclusive(a) => a.lt_version(v),
        };
        if !low {
            return false;
        }
        match &self.upper {
            Bound::Unbounded => true,
            Bound::Inclusive(a) => v.le_version(a),
            Bound::Exclusive(a) => v.lt_version(a),
        }
    }
}

impl Constraint {
    /// The constraint that admits every version.
    pub fn any() -> (r: Constraint)
        ensures
            forall|v: Version| sat(r.ranges@, v),
            r.ranges@.len() == 1,
    {
        let mut ranges: Vec<Range> = Vec::new();
        ranges.push(Range { lower: Bound::Unbounded, upper: Bound::Unbounded });
        proof {
            assert forall|v: Version| sat(ranges@, v) by {
                assert(in_range(ranges@[0], v));
            }
        }
        Constraint { ranges }
    }

    /// A constraint of one range.
    pub fn of_range(range: Range) -> (r: Constraint)
        ensures
            forall|v: Version| sat(r.ranges@, v) == in_range(range, v),
            r.ranges@.len() == 1,
            r.ranges@[0] == range,
    {
        let ghost rv = range;
        let mut ranges: Vec<Range> = Vec::new();
        ranges.push(range);
        proof {
            assert forall|v: Version| sat(ranges@, v) == in_range(rv, v) by {
                if in_range(rv, v) {
                    assert(in_range(ranges@[0], v));
                }
            }
        }
        Constraint { ranges }
    }

    /// A copy with the same ghost value.
    pub fn duplicate(&self) -> (r: Constraint)
        ensures
            r@ == self@,
            forall|v: Version| sat(r.ranges@, v) == sat(self.ranges@, v),
    {
        let mut ranges: Vec<Range> = Vec::new();
        let mut i: usize = 0;
        while i < self.ranges.len()
            invariant
                i <= self.ranges@.len(),
                ranges@.len() == i,
                forall|j: int| 0 <= j < i ==> #[trigger] ranges@[j]@ == self.ranges@[j]@,
            decreases self.ranges@.len() - i,
        {
            ranges.push(self.ranges[i].duplicate());
            i = i + 1;
        }
        let r = Constraint { ranges };
        proof {
            assert(r@ =~= self@);
            assert forall|v: Version| sat(r.ranges@, v) == sat(self.ranges@, v) by {
                lemma_sat_view_eq(r.ranges@, self.ranges@, v);
            }
        }
        r
    }

    /// Does any range admit the version?
    pub fn satisfies(&self, v: &Version) -> (r: bool)
        ensures
            r == sat(self.ranges@, *v),
    {
        let mut i: usize = 0;
        while i < self.ranges.len()
            invariant
                i <= self.ranges@.len(),
                forall|j: int| 0 <= j < i ==> !in_range(#[trigger] self.ranges@[j], *v),
            decreases self.ranges@.len() - i,
        {
            if self.ranges[i].satisfies(v) {
                return true;
            }
            i = i + 1;
        }
        false
    }
}

/// Range lists with pointwise-equal ghost values satisfy the same
/// versions.
pub proof fn lemma_sat_view_eq(a: Seq<Range>, b: Seq<Range>, v: Version)
    requires
        a.len() == b.len(),
        forall|i: int| 0 <= i < a.len() ==> #[trigger] a[i]@ == b[i]@,
    ensures
        sat(a, v) == sat(b, v),
{
    if sat(a, v) {
        let i = choose|i: int| 0 <= i < a.len() && in_range(#[trigger] a[i], v);
        lemma_range_view_ok(a[i], b[i], v);
        assert(in_range(b[i], v));
    }
    if sat(b, v) {
        let i = choose|i: int| 0 <= i < b.len() && in_range(#[trigger] b[i], v);
        lemma_range_view_ok(a[i], b[i], v);
        assert(in_range(a[i], v));
    }
}


/// The pieces a version falls into when it misses a range: below the
/// lower bound, or above the upper bound.
fn complement_range(r: &Range) -> (out: Vec<Range>)
    ensures
        forall|v: Version| sat(out@, v) == !in_range(*r, v),
{
    let mut out: Vec<Range> = Vec::new();
    let ghost mut low_piece: Option<Range> = None;
    match &r.lower {
        Bound::Unbounded => {},
        Bound::Inclusive(a) => {
            let piece = Range { lower: Bound::Unbounded, upper: Bound::Exclusive(a.duplicate()) };
            proof {
                low_piece = Some(piece);
            }
            out.push(piece);
        },
        Bound::Exclusive(a) => {
            let piece = Range { lower: Bound::Unbounded, upper: Bound::Inclusive(a.duplicate()) };
            proof {
                low_piece = Some(piece);
            }
            out.push(piece);
        },
    }
    let ghost n_low = out@.len();
    match &r.upper {
        Bound::Unbounded => {},
        Bound::Inclusive(a) => {
            out.push(Range { lower: Bound::Exclusive(a.duplicate()), upper: Bound::Unbounded });
        },
        Bound::Exclusive(a) => {
            out.push(Range { lower: Bound::Inclusive(a.duplicate()), upper: Bound::Unbounded });
        },
    }
    proof {
        assert forall|v: Version| sat(out@, v) == !in_range(*r, v) by {
            lemma_complement_range_cases(*r, out@, n_low as int, v);
        }
    }
    out
}

/// Case analysis for `complement_range`: the pieces cover exactly the
/// versions outside the range.
proof fn lemma_complement_range_cases(r: Range, out: Seq<Range>, n_low: int, v: Version)
    requires
        n_low == (if r.lower is Unbounded { 0int } else { 1int }),
        out.len() == n_low + (if r.upper is Unbounded { 0int } else { 1int }),
        (match r.lower {
            Bound::Unbounded => true,
            Bound::Inclusive(a) => out[0].lower is Unbounded && (out[0].upper matches
                Bound::Exclusive(b) && b@ == a@),
            Bound::Exclusive(a) => out[0].lower is Unbounded && (out[0].upper matches
                Bound::Inclusive(b) && b@ == a@),
        }),
        (match r.upper {
            Bound::Unbounded => true,
            Bound::Inclusive(a) => out[n_low].upper is Unbounded && (out[n_low].lower matches
                Bound::Exclusive(b) && b@ == a@),
            Bound::Exclusive(a) => out[n_low].upper is Unbounded && (out[n_low].lower matches
                Bound::Inclusive(b) && b@ == a@),
        }),
    ensures
        sat(out, v) == !in_range(r, v),
{
    let low_fail = !lower_ok(r.lower, v);
    let up_fail = !upper_ok(r.upper, v);
    match r.lower {
        Bound::Unbounded => {},
        Bound::Inclusive(a) => {
            let b = out[0].upper->Exclusive_0;
            crate::package::lemma_version_eq_is_view_eq(a, b);
            lemma_version_congruence(a, b, v);
            lemma_version_order(a, v);
            assert(low_fail == in_range(out[0], v));
        },
        Bound::Exclusive(a) => {
            let b = out[0].upper->Inclusive_0;
            crate::package::lemma_version_eq_is_view_eq(a, b);
            lemma_version_congruence(a, b, v);
            lemma_version_order(a, v);
            assert(low_fail == in_range(out[0], v));
        },
    }
    match r.upper {
        Bound::Unbounded => {},
        Bound::Inclusive(a) => {
            let b = out[n_low].lower->Exclusive_0;
            crate::package::lemma_version_eq_is_view_eq(a, b);
            lemma_version_congruence(a, b, v);
            lemma_version_order(a, v);
            assert(up_fail == in_range(out[n_low], v));
        },
        Bound::Exclusive(a) => {
            let b = out[n_low].lower->Inclusive_0;
            crate::package::lemma_version_eq_is_view_eq(a, b);
            lemma_version_congruence(a, b, v);
            lemma_version_order(a, v);
            assert(up_fail == in_range(out[n_low], v));
        },
    }
    if sat(out, v) {
        let i = choose|i: int| 0 <= i < out.len() && in_range(#[trigger] out[i], v);
        assert(!in_range(r, v));
    }
    if !in_range(r, v) {
        if low_fail {
            assert(!(r.lower is Unbounded));
            assert(in_range(out[0], v));
            assert(sat(out, v));
        } else {
            assert(up_fail);
            assert(!(r.upper is Unbounded));
            assert(in_range(out[n_low], v));
            assert(sat(out, v));
        }
    }
}

/// The stronger of two lower bounds.
fn max_lower(a: &Bound, b: &Bound) -> (r: Bound)
    ensures
        forall|v: Version| lower_ok(r, v) == (lower_ok(*a, v) && lower_ok(*b, v)),
{
    let a_weaker = match (a, b) {
        (Bound::Unbounded, _) => true,
        (_, Bound::Unbounded) => false,
        (Bound::Inclusive(x), Bound::Inclusive(y)) => x.le_version(y),
        (Bound::Inclusive(x), Bound::Exclusive(y)) => x.le_version(y),
        (Bound::Exclusive(x), Bound::Inclusive(y)) => x.lt_version(y),
        (Bound::Exclusive(x), Bound::Exclusive(y)) => x.le_version(y),
    };
    let r = if a_weaker {
        b.duplicate()
    } else {
        a.duplicate()
    };
    proof {
        assert forall|v: Version| lower_ok(r, v) == (lower_ok(*a, v) && lower_ok(*b, v)) by {
            if a_weaker {
                lemma_bound_view_ok(r, *b, v);
                if lower_ok(*b, v) {
                    lemma_lower_covers_sound(*a, *b, v);
                }
            } else {
                lemma_bound_view_ok(r, *a, v);
                lemma_lower_total(*a, *b);
                if lower_ok(*a, v) {
                    lemma_lower_covers_sound(*b, *a, v);
                }
            }
        }
    }
    r
}

/// The stronger of two upper bounds.
fn min_upper(a: &Bound, b: &Bound) -> (r: Bound)
    ensures
        forall|v: Version| upper_ok(r, v) == (upper_ok(*a, v) && upper_ok(*b, v)),
{
    let a_weaker = match (a, b) {
        (Bound::Unbounded, _) => true,
        (_, Bound::Unbounded) => false,
        (Bound::Inclusive(x), Bound::Inclusive(y)) => y.le_version(x),
        (Bound::Inclusive(x), Bound::Exclusive(y)) => y.le_version(x),
        (Bound::Exclusive(x), Bound::Inclusive(y)) => y.lt_version(x),
        (Bound::Exclusive(x), Bound::Exclusive(y)) => y.le_version(x),
    };
    let r = if a_weaker {
        b.duplicate()
    } else {
        a.duplicate()
    };
    proof {
        assert forall|v: Version| upper_ok(r, v) == (upper_ok(*a, v) && upper_ok(*b, v)) by {
            if a_weaker {
                lemma_bound_view_ok(r, *b, v);
                if upper_ok(*b, v) {
                    lemma_upper_covers_sound(*a, *b, v);
                }
            } else {
                lemma_bound_view_ok(r, *a, v);
                lemma_upper_total(*a, *b);
                if upper_ok(*a, v) {
                    lemma_upper_covers_sound(*b, *a, v);
                }
            }
        }
    }
    r
}

/// Of two lower bounds, one always covers the other.
proof fn lemma_lower_total(a: Bound, b: Bound)
    ensures
        lower_covers(a, b) || lower_covers(b, a),
{
    match (a, b) {
        (Bound::Inclusive(x), Bound::Inclusive(y)) => {
            lemma_version_order(x, y);
        },
        (Bound::Inclusive(x), Bound::Exclusive(y)) => {
            lemma_version_order(x, y);
            lemma_version_order(y, x);
        },
        (Bound::Exclusive(x), Bound::Inclusive(y)) => {
            lemma_version_order(x, y);
            lemma_version_order(y, x);
        },
        (Bound::Exclusive(x), Bound::Exclusive(y)) => {
            lemma_version_order(x, y);
            lemma_version_order(y, x);
        },
        _ => {},
    }
}

/// Of two upper bounds, one always covers the other.
proof fn lemma_upper_total(a: Bound, b: Bound)
    ensures
        upper_covers(a, b) || upper_covers(b, a),
{
    match (a, b) {
        (Bound::Inclusive(x), Bound::Inclusive(y)) => {
            lemma_version_order(x, y);
        },
        (Bound::Inclusive(x), Bound::Exclusive(y)) => {
            lemma_version_order(x, y);
            lemma_version_order(y, x);
        },
        (Bound::Exclusive(x), Bound::Inclusive(y)) => {
            lemma_version_order(x, y);
            lemma_version_order(y, x);
        },
        (Bound::Exclusive(x), Bound::Exclusive(y)) => {
            lemma_version_order(x, y);
            lemma_version_order(y, x);
        },
        _ => {},
    }
}

/// All pairwise intersections of two range lists: satisfied exactly by
/// the versions both lists admit.
fn intersect_ranges(a: &Vec<Range>, b: &Vec<Range>) -> (out: Vec<Range>)
    ensures
        forall|v: Version| sat(out@, v) == (sat(a@, v) && sat(b@, v)),
{
    let mut out: Vec<Range> = Vec::new();
    let mut i: usize = 0;
    while i < a.len()
        invariant
            i <= a@.len(),
            forall|v: Version|
                #![trigger sat(out@, v)]
                sat(out@, v) == (exists|k: int|
                    0 <= k < i && in_range(#[trigger] a@[k], v) && sat(b@, v)),
        decreases a@.len() - i,
    {
        let mut j: usize = 0;
        while j < b.len()
            invariant
                i < a@.len(),
                j <= b@.len(),
                forall|v: Version|
                    #![trigger sat(out@, v)]
                    sat(out@, v) == ((exists|k: int|
                        0 <= k < i && in_range(#[trigger] a@[k], v) && sat(b@, v)) || (in_range(
                        a@[i as int],
                        v,
                    ) && exists|k: int| 0 <= k < j && in_range(#[trigger] b@[k], v))),
            decreases b@.len() - j,
        {
            let lower = max_lower(&a[i].lower, &b[j].lower);
            let upper = min_upper(&a[i].upper, &b[j].upper);
            let ghost old_out = out@;
            out.push(Range { lower, upper });
            proof {
                assert forall|v: Version|
                    #![trigger sat(out@, v)]
                    sat(out@, v) == (sat(old_out, v) || (in_range(a@[i as int], v) && in_range(
                        b@[j as int],
                        v,
                    ))) by {
                    let last = out@[out@.len() - 1];
                    assert(in_range(last, v) == (in_range(a@[i as int], v) && in_range(
                        b@[j as int],
                        v,
                    )));
                    if sat(out@, v) {
                        let k = choose|k: int| 0 <= k < out@.len() && in_range(
                            #[trigger] out@[k],
                            v,
                        );
                        if k < old_out.len() {
                            assert(in_range(old_out[k], v));
                            assert(sat(old_out, v));
                        }
                    }
                    if sat(old_out, v) {
                        let k = choose|k: int| 0 <= k < old_out.len() && in_range(
                            #[trigger] old_out[k],
                            v,
                        );
                        assert(in_range(out@[k], v));
                    }
                    if in_range(last, v) {
                        assert(sat(out@, v));
                    }
                }
            }
            j = j + 1;
        }
        i = i + 1;
    }
    proof {
        assert forall|v: Version| sat(out@, v) == (sat(a@, v) && sat(b@, v)) by {
            if sat(a@, v) {
                let k = choose|k: int| 0 <= k < a@.len() && in_range(#[trigger] a@[k], v);
            }
        }
    }
    out
}

impl Constraint {
    /// The versions this constraint rejects: satisfied exactly by the
    /// versions the constraint does not admit.
    pub fn complement(&self) -> (r: Constraint)
        ensures
            forall|v: Version|
                #![trigger sat(r.ranges@, v)]
                sat(r.ranges@, v) == !sat(self.ranges@, v),
    {
        let mut acc: Vec<Range> = Vec::new();
        acc.push(Range { lower: Bound::Unbounded, upper: Bound::Unbounded });
        proof {
            assert forall|v: Version| sat(acc@, v) by {
                assert(in_range(acc@[0], v));
            }
        }
        let mut i: usize = 0;
        while i < self.ranges.len()
            invariant
                i <= self.ranges@.len(),
                forall|v: Version|
                    #![trigger sat(acc@, v)]
                    sat(acc@, v) == (forall|k: int|
                        0 <= k < i ==> !in_range(#[trigger] self.ranges@[k], v)),
            decreases self.ranges@.len() - i,
    {
            let piece = complement_range(&self.ranges[i]);
            let next = intersect_ranges(&acc, &piece);
            proof {
                assert forall|v: Version|
                    #![trigger sat(next@, v)]
                    sat(next@, v) == (forall|k: int|
                        0 <= k < i + 1 ==> !in_range(#[trigger] self.ranges@[k], v)) by {
                    if sat(next@, v) {
                        assert(sat(acc@, v) && sat(piece@, v));
                        assert(!in_range(self.ranges@[i as int], v));
                    }
                }
            }
            acc = next;
            i = i + 1;
        }
        let r = Constraint { ranges: acc };
        proof {
            assert forall|v: Version|
                #![trigger sat(r.ranges@, v)]
                sat(r.ranges@, v) == !sat(self.ranges@, v) by {
                if sat(self.ranges@, v) {
                    let k = choose|k: int|
                        0 <= k < self.ranges@.len() && in_range(#[trigger] self.ranges@[k], v);
                }
            }
        }
        r
    }

    /// Does every range of `other` sit inside one of ours?
    pub fn refines(&self, other: &Constraint) -> (r: bool)
        ensures
            r == spec_refines(self.ranges@, other.ranges@),
    {
        let mut j: usize = 0;
        while j < other.ranges.len()
            invariant
                j <= other.ranges@.len(),
                forall|k: int| 0 <= k < j ==> #[trigger] covered(self.ranges@, other.ranges@, k),
            decreases other.ranges@.len() - j,
        {
            let mut i: usize = 0;
            let mut found = false;
            while i < self.ranges.len()
                invariant
                    j < other.ranges@.len(),
                    i <= self.ranges@.len(),
                    found ==> covered(self.ranges@, other.ranges@, j as int),
                    !found ==> forall|k: int|
                        0 <= k < i ==> !range_covers(
                            #[trigger] self.ranges@[k],
                            other.ranges@[j as int],
                        ),
                decreases self.ranges@.len() - i,
            {
                if !found {
                    if range_covers_exec(&self.ranges[i], &other.ranges[j]) {
                        found = true;
                        proof {
                            assert(covered(self.ranges@, other.ranges@, j as int)) by {
                                assert(range_covers(
                                    self.ranges@[i as int],
                                    other.ranges@[j as int],
                                ));
                            }
                        }
                    }
                }
                i = i + 1;
            }
            if !found {
                proof {
                    if spec_refines(self.ranges@, other.ranges@) {
                        assert(covered(self.ranges@, other.ranges@, j as int));
                        let k = choose|k: int|
                            0 <= k < self.ranges@.len() && range_covers(
                                #[trigger] self.ranges@[k],
                                other.ranges@[j as int],
                            );
                        assert(!range_covers(self.ranges@[k], other.ranges@[j as int]));
                    }
                }
                return false;
            }
            j = j + 1;
        }
        true
    }

    /// How this constraint relates to another: written identically,
    /// admitting at least everything the other admits, or neither.
    pub fn relation(&self, other: &Constraint) -> (r: Relation)
        ensures
            r == Relation::Equal ==> self@ == other@,
            r == Relation::Superset ==> spec_refines(self.ranges@, other.ranges@),
            r == Relation::Unrelated ==> !(self@ == other@) && !spec_refines(
                self.ranges@,
                other.ranges@,
            ),
    {
        if self.eq_constraint(other) {
            Relation::Equal
        } else if self.refines(other) {
            Relation::Superset
        } else {
            Relation::Unrelated
        }
    }

    /// Compares two constraints by value.
    pub fn eq_constraint(&self, other: &Constraint) -> (r: bool)
        ensures
            r == (self@ == other@),
    {
        if self.ranges.len() != other.ranges.len() {
            proof {
                assert(self@.len() == self.ranges@.len());
                assert(other@.len() == other.ranges@.len());
            }
            return false;
        }
        let mut i: usize = 0;
        while i < self.ranges.len()
            invariant
                self.ranges@.len() == other.ranges@.len(),
                i <= self.ranges@.len(),
                forall|k: int| 0 <= k < i ==> #[trigger] self.ranges@[k]@ == other.ranges@[k]@,
            decreases self.ranges@.len() - i,
        {
            if !bound_eq(&self.ranges[i].lower, &other.ranges[i].lower) || !bound_eq(
                &self.ranges[i].upper,
                &other.ranges[i].upper,
            ) {
                proof {
                    assert(self@[i as int] == self.ranges@[i as int]@);
                    assert(other@[i as int] == other.ranges@[i as int]@);
                }
                return false;
            }
            i = i + 1;
        }
        proof {
            assert(self@ =~= other@);
        }
        true
    }
}

fn bound_eq(a: &Bound, b: &Bound) -> (r: bool)
    ensures
        r == (a@ == b@),
{
    match (a, b) {
        (Bound::Unbounded, Bound::Unbounded) => true,
        (Bound::Inclusive(x), Bound::Inclusive(y)) => {
            let r = x.eq_version(y);
            proof {
                crate::package::lemma_version_eq_is_view_eq(*x, *y);
            }
            r
        },
        (Bound::Exclusive(x), Bound::Exclusive(y)) => {
            let r = x.eq_version(y);
            proof {
                crate::package::lemma_version_eq_is_view_eq(*x, *y);
            }
            r
        },
        _ => false,
    }
}

fn range_covers_exec(x: &Range, y: &Range) -> (r: bool)
    ensures
        r == range_covers(*x, *y),
{
    let low = match (&x.lower, &y.lower) {
        (Bound::Unbounded, _) => true,
        (_, Bound::Unbounded) => false,
        (Bound::Inclusive(a), Bound::Inclusive(b)) => a.le_version(b),
        (Bound::Inclusive(a), Bound::Exclusive(b)) => a.le_version(b),
        (Bound::Exclusive(a), Bound::Inclusive(b)) => a.lt_version(b),
        (Bound::Exclusive(a), Bound::Exclusive(b)) => a.le_version(b),
    };
    if !low {
        return false;
    }
    match (&x.upper, &y.upper) {
        (Bound::Unbounded, _) => true,
        (_, Bound::Unbounded) => false,
        (Bound::Inclusive(a), Bound::Inclusive(b)) => b.le_version(a),
        (Bound::Inclusive(a), Bound::Exclusive(b)) => b.le_version(a),
        (Bound::Exclusive(a), Bound::Inclusive(b)) => b.lt_version(a),
        (Bound::Exclusive(a), Bound::Exclusive(b)) => b.le_version(a),
    }
}


/// Versions with equal ghost values satisfy the same constraints.
pub proof fn lemma_sat_view_eq_single(ranges: Seq<Range>, a: Version, b: Version)
    requires
        a@ == b@,
    ensures
        sat(ranges, a) == sat(ranges, b),
{
    crate::package::lemma_version_eq_is_view_eq(a, b);
    assert forall|i: int| 0 <= i < ranges.len() implies in_range(#[trigger] ranges[i], a)
        == in_range(ranges[i], b) by {
        match ranges[i].lower {
            Bound::Inclusive(x) => {
                lemma_version_congruence(a, b, x);
            },
            Bound::Exclusive(x) => {
                lemma_version_congruence(a, b, x);
            },
            _ => {},
        }
        match ranges[i].upper {
            Bound::Inclusive(x) => {
                lemma_version_congruence(a, b, x);
            },
            Bound::Exclusive(x) => {
                lemma_version_congruence(a, b, x);
            },
            _ => {},
        }
    }
    if sat(ranges, a) {
        let i = choose|i: int| 0 <= i < ranges.len() && in_range(#[trigger] ranges[i], a);
        assert(in_range(ranges[i], b));
    }
    if sat(ranges, b) {
        let i = choose|i: int| 0 <= i < ranges.len() && in_range(#[trigger] ranges[i], b);
        assert(in_range(ranges[i], a));
    }
}


/// A one-range constraint built over copies of two versions admits
/// exactly the versions between the originals.
pub proof fn lemma_range_view_congruence(ranges: Seq<Range>, lo: Version, hi: Version, v: Version)
    requires
        ranges.len() == 1,
        ranges[0].lower matches Bound::Inclusive(a) && a@ == lo@,
        ranges[0].upper matches Bound::Inclusive(b) && b@ == hi@,
    ensures
        sat(ranges, v) == (version_le(lo, v) && version_le(v, hi)),
{
    let a = ranges[0].lower->Inclusive_0;
    let b = ranges[0].upper->Inclusive_0;
    crate::package::lemma_version_eq_is_view_eq(a, lo);
    crate::package::lemma_version_eq_is_view_eq(b, hi);
    lemma_version_congruence(a, lo, v);
    lemma_version_congruence(b, hi, v);
    if sat(ranges, v) {
        let i = choose|i: int| 0 <= i < ranges.len() && in_range(#[trigger] ranges[i], v);
        assert(i == 0);
    }
    if version_le(lo, v) && version_le(v, hi) {
        assert(in_range(ranges[0], v));
    }
}

} // verus!
