//! Positions in the alignment matrix of two sequences, and the partial
//! order in which one cell dominates another.

use crate::error::Error;
use core::cmp::Ordering;
use vstd::prelude::*;
use vstd::std_specs::cmp::PartialOrdSpec;
use vstd::std_specs::convert::TryIntoSpec;
use vstd::std_specs::ops::AddSpec;

verus! {

/// A single base.
pub type Base = u8;

/// An owned sequence of bases.
pub type Sequence = Vec<Base>;

/// A 0-based index into a sequence.
pub type I = i32;

/// The conversion of `v` to `I` can give `c`. For the integer types, whose
/// conversion succeeds exactly on the values that `I` has, this says that
/// `v` is such a value and that `c` is the same number.
pub open spec fn converts_to<T: TryInto<I>>(v: T, c: I) -> bool {
    call_ensures(<T as TryInto<I>>::try_into, (v,), Ok::<I, <T as TryInto<I>>::Error>(c))
}

/// The conversion of `v` to `I` cannot fail. For the integer types this
/// says that `v` is a value that `I` has.
pub open spec fn always_converts<T: TryInto<I>>(v: T) -> bool {
    forall|r: Result<I, <T as TryInto<I>>::Error>|
        call_ensures(<T as TryInto<I>>::try_into, (v,), r) ==> r is Ok
}

/// A position in a pairwise matching.
///
/// A matching starts at `(0, 0)` and ends at `(n, m)`, where `n` and `m`
/// are the lengths of the two sequences.
#[derive(Debug, Clone, Copy, PartialEq, Eq, Hash, Structural)]
pub struct Pos(pub I, pub I);

impl Pos {
    /// `(a, b) <= (c, d)` exactly when `a <= c` and `b <= d`.
    pub open spec fn spec_le(self, other: Pos) -> bool {
        self.0 <= other.0 && self.1 <= other.1
    }

    /// `p < q` when `p <= q` and the two differ.
    pub open spec fn spec_lt(self, other: Pos) -> bool {
        self.spec_le(other) && self != other
    }

    /// Two positions are comparable when one dominates the other in both
    /// coordinates.
    pub open spec fn comparable(self, other: Pos) -> bool {
        self.spec_le(other) || other.spec_le(self)
    }

    /// The diagonal `i - j`, which a diagonal step leaves unchanged.
    pub open spec fn spec_diag(self) -> int {
        self.0 - self.1
    }

    /// The anti diagonal `i + j`.
    pub open spec fn spec_anti_diag(self) -> int {
        self.0 + self.1
    }

    /// The position with the roles of the two sequences swapped.
    pub open spec fn spec_mirror(self) -> Pos {
        Pos(self.1, self.0)
    }

    /// Both coordinates are indices, that is, not negative.
    pub open spec fn in_matrix(self) -> bool {
        0 <= self.0 && 0 <= self.1
    }

    /// The start of an alignment.
    pub fn start() -> (p: Self)
        ensures
            p == Pos(0, 0),
    {
        Pos(0, 0)
    }

    /// The target of an alignment of `a` with `b`: the two lengths.
    pub fn target(a: &[Base], b: &[Base]) -> (p: Self)
        requires
            a@.len() <= I::MAX,
            b@.len() <= I::MAX,
        ensures
            p.0 == a@.len(),
            p.1 == b@.len(),
    {
        Pos(a.len() as I, b.len() as I)
    }

    /// The diagonal of position `(i, j)` is `i - j`.
    pub fn diag(&self) -> (d: I)
        requires
            I::MIN <= self.spec_diag() <= I::MAX,
        ensures
            d == self.spec_diag(),
    {
        self.0 - self.1
    }

    /// The anti diagonal of position `(i, j)` is `i + j`.
    pub fn anti_diag(&self) -> (d: I)
        requires
            I::MIN <= self.spec_anti_diag() <= I::MAX,
        ensures
            d == self.spec_anti_diag(),
    {
        self.0 + self.1
    }

    /// A position from coordinates of another integer type, neither of
    /// which may fail to convert to `I`.
    pub fn from<T>(i: T, j: T) -> (p: Self) where
        T: TryInto<I>,
        <T as TryInto<I>>::Error: core::fmt::Debug,
        requires
            always_converts(i),
            always_converts(j),
        ensures
            converts_to(i, p.0),
            converts_to(j, p.1),
    {
        Pos(i.try_into().unwrap(), j.try_into().unwrap())
    }

    /// A position from coordinates of another integer type, or the error
    /// that says that one of them does not fit in `I`.
    pub fn checked_from<T>(i: T, j: T) -> (r: Result<Self, Error>) where T: TryInto<I>
        ensures
            match r {
                Ok(p) => converts_to(i, p.0) && converts_to(j, p.1),
                Err(e) => e == Error::CoordinateOutOfRange && !(always_converts(i)
                    && always_converts(j)),
            },
    {
        let first: Result<I, <T as TryInto<I>>::Error> = i.try_into();
        let second: Result<I, <T as TryInto<I>>::Error> = j.try_into();
        match (first, second) {
            (Ok(a), Ok(b)) => Ok(Pos(a, b)),
            _ => Err(Error::CoordinateOutOfRange),
        }
    }

    /// The mirror image of this position: `(i, j) -> (j, i)`.
    pub fn mirror(&self) -> (p: Pos)
        ensures
            p == self.spec_mirror(),
    {
        Pos(self.1, self.0)
    }
}

impl PartialOrd for Pos {
    /// The four-way comparison: `None` is the answer for two positions of
    /// which neither dominates the other.
    fn partial_cmp(&self, other: &Self) -> (r: Option<Ordering>)
        ensures
            r is None <==> !self.comparable(*other),
    {
        if self.0 == other.0 && self.1 == other.1 {
            Some(Ordering::Equal)
        } else if self.0 <= other.0 && self.1 <= other.1 {
            Some(Ordering::Less)
        } else if self.0 >= other.0 && self.1 >= other.1 {
            Some(Ordering::Greater)
        } else {
            None
        }
    }

    /// A direct test on the two coordinates.
    fn le(&self, other: &Self) -> (r: bool)
        ensures
            r == self.spec_le(*other),
    {
        self.0 <= other.0 && self.1 <= other.1
    }
}

impl vstd::std_specs::cmp::PartialOrdSpecImpl for Pos {
    open spec fn obeys_partial_cmp_spec() -> bool {
        true
    }

    open spec fn partial_cmp_spec(&self, other: &Pos) -> Option<Ordering> {
        if *self == *other {
            Some(Ordering::Equal)
        } else if self.spec_le(*other) {
            Some(Ordering::Less)
        } else if other.spec_le(*self) {
            Some(Ordering::Greater)
        } else {
            None
        }
    }
}

impl Default for Pos {
    /// The start of an alignment.
    fn default() -> (p: Self)
        ensures
            p == Pos(0, 0),
    {
        Pos(0, 0)
    }
}

impl core::ops::Add for Pos {
    type Output = Pos;

    /// The sum, coordinate by coordinate.
    fn add(self, rhs: Pos) -> (p: Pos) {
        Pos(self.0 + rhs.0, self.1 + rhs.1)
    }
}

impl vstd::std_specs::ops::AddSpecImpl for Pos {
    open spec fn obeys_add_spec() -> bool {
        true
    }

    open spec fn add_req(self, rhs: Pos) -> bool {
        &&& I::MIN <= self.0 + rhs.0 <= I::MAX
        &&& I::MIN <= self.1 + rhs.1 <= I::MAX
    }

    open spec fn add_spec(self, rhs: Pos) -> Pos {
        Pos((self.0 + rhs.0) as I, (self.1 + rhs.1) as I)
    }
}

impl core::ops::Sub for Pos {
    type Output = Pos;

    /// The difference, coordinate by coordinate.
    fn sub(self, rhs: Pos) -> (p: Pos) {
        Pos(self.0 - rhs.0, self.1 - rhs.1)
    }
}

impl vstd::std_specs::ops::SubSpecImpl for Pos {
    open spec fn obeys_sub_spec() -> bool {
        true
    }

    open spec fn sub_req(self, rhs: Pos) -> bool {
        &&& I::MIN <= self.0 - rhs.0 <= I::MAX
        &&& I::MIN <= self.1 - rhs.1 <= I::MAX
    }

    open spec fn sub_spec(self, rhs: Pos) -> Pos {
        Pos((self.0 - rhs.0) as I, (self.1 - rhs.1) as I)
    }
}

impl core::ops::AddAssign for Pos {
    /// Adds `rhs`, coordinate by coordinate.
    fn add_assign(&mut self, rhs: Pos)
        requires
            I::MIN <= old(self).0 + rhs.0 <= I::MAX,
            I::MIN <= old(self).1 + rhs.1 <= I::MAX,
        ensures
            final(self).0 == old(self).0 + rhs.0,
            final(self).1 == old(self).1 + rhs.1,
    {
        self.0 = self.0 + rhs.0;
        self.1 = self.1 + rhs.1;
    }
}

impl core::ops::SubAssign for Pos {
    /// Subtracts `rhs`, coordinate by coordinate.
    fn sub_assign(&mut self, rhs: Pos)
        requires
            I::MIN <= old(self).0 - rhs.0 <= I::MAX,
            I::MIN <= old(self).1 - rhs.1 <= I::MAX,
        ensures
            final(self).0 == old(self).0 - rhs.0,
            final(self).1 == old(self).1 - rhs.1,
    {
        self.0 = self.0 - rhs.0;
        self.1 = self.1 - rhs.1;
    }
}

/// Every position is below or equal to itself, and compares equal to
/// itself.
pub proof fn lemma_le_reflexive(p: Pos)
    ensures
        p.spec_le(p),
        p.partial_cmp_spec(&p) == Some(Ordering::Equal),
{
}

/// Two positions that are each below or equal to the other are the same
/// position.
pub proof fn lemma_le_antisymmetric(p: Pos, q: Pos)
    requires
        p.spec_le(q),
        q.spec_le(p),
    ensures
        p == q,
{
}

/// Dominance carries over a position in the middle.
pub proof fn lemma_le_transitive(p: Pos, q: Pos, r: Pos)
    requires
        p.spec_le(q),
        q.spec_le(r),
    ensures
        p.spec_le(r),
{
}

/// Two positions of which one is ahead in the first coordinate and the
/// other in the second have no order: the comparison gives `None`, and
/// `<=` is false in both directions.
pub proof fn lemma_opposite_deltas_incomparable(p: Pos, q: Pos)
    requires
        (p.0 < q.0 && p.1 > q.1) || (p.0 > q.0 && p.1 < q.1),
    ensures
        p.partial_cmp_spec(&q) is None,
        q.partial_cmp_spec(&p) is None,
        !p.spec_le(q),
        !q.spec_le(p),
        !p.comparable(q),
{
}

/// The four answers of the comparison, each in terms of the two
/// coordinates: the comparison never turns an unordered pair into an
/// ordered one, nor the other way round.
pub proof fn lemma_partial_cmp_four_way(p: Pos, q: Pos)
    ensures
        p.partial_cmp_spec(&q) == Some(Ordering::Equal) <==> p == q,
        p.partial_cmp_spec(&q) == Some(Ordering::Less) <==> p.spec_lt(q),
        p.partial_cmp_spec(&q) == Some(Ordering::Greater) <==> q.spec_lt(p),
        p.partial_cmp_spec(&q) is None <==> !p.comparable(q),
        p.spec_le(q) <==> (p.partial_cmp_spec(&q) matches Some(o) && o != Ordering::Greater),
{
}

/// Mirroring twice gives the position back, keeps the order, keeps the
/// anti diagonal and negates the diagonal.
pub proof fn lemma_mirror(p: Pos, q: Pos)
    ensures
        p.spec_mirror().spec_mirror() == p,
        p.spec_le(q) <==> p.spec_mirror().spec_le(q.spec_mirror()),
        p.spec_mirror().spec_anti_diag() == p.spec_anti_diag(),
        p.spec_mirror().spec_diag() == -p.spec_diag(),
{
}

/// A step along the diagonal keeps the diagonal; a step down and a step
/// right change it by one in opposite directions; each of them moves the
/// anti diagonal forward.
pub proof fn lemma_diagonals_of_steps(p: Pos)
    requires
        p.0 < I::MAX,
        p.1 < I::MAX,
    ensures
        p.add_spec(Pos(1, 1)).spec_diag() == p.spec_diag(),
        p.add_spec(Pos(1, 1)).spec_anti_diag() == p.spec_anti_diag() + 2,
        p.add_spec(Pos(1, 0)).spec_diag() == p.spec_diag() + 1,
        p.add_spec(Pos(1, 0)).spec_anti_diag() == p.spec_anti_diag() + 1,
        p.add_spec(Pos(0, 1)).spec_diag() == p.spec_diag() - 1,
        p.add_spec(Pos(0, 1)).spec_anti_diag() == p.spec_anti_diag() + 1,
{
}

} // verus!
