//! Domains of tuples: Cartesian products of inclusive integer intervals, with a
//! mixed-radix numbering of their tuples.

use vstd::prelude::*;
use crate::acc::AccumulatorError;

verus! {

/// The number of values in the interval `[lower[j], upper[j]]`.
pub open spec fn extent(lower: Seq<u64>, upper: Seq<u64>, j: int) -> nat {
    (upper[j] - lower[j] + 1) as nat
}

/// Whether `lower` and `upper` bound one interval per coordinate, none of them empty.
pub open spec fn bounds_valid(lower: Seq<u64>, upper: Seq<u64>) -> bool {
    &&& lower.len() == upper.len()
    &&& forall|j: int| 0 <= j < lower.len() ==> #[trigger] lower[j] <= upper[j]
}

/// Whether `t` has one coordinate per interval, each inside its interval.
pub open spec fn in_box(lower: Seq<u64>, upper: Seq<u64>, t: Seq<u64>) -> bool {
    &&& t.len() == lower.len()
    &&& forall|j: int| 0 <= j < t.len() ==> lower[j] <= #[trigger] t[j] && t[j] <= upper[j]
}

/// The number of tuples over the coordinates from `j` on: the product of their extents.
pub open spec fn volume_from(lower: Seq<u64>, upper: Seq<u64>, j: int) -> nat
    decreases lower.len() - j,
{
    if j < 0 || j >= lower.len() {
        1
    } else {
        extent(lower, upper, j) * volume_from(lower, upper, j + 1)
    }
}

/// The mixed-radix number of the coordinates of `t` from `j` on, coordinate `j` least significant.
pub open spec fn code_from(lower: Seq<u64>, upper: Seq<u64>, t: Seq<u64>, j: int) -> nat
    decreases t.len() - j,
{
    if j < 0 || j >= t.len() {
        0
    } else {
        (t[j] - lower[j]) as nat + extent(lower, upper, j) * code_from(lower, upper, t, j + 1)
    }
}

/// Dropping leading coordinates never enlarges the volume, and no volume is zero.
pub proof fn lemma_volume_monotone(lower: Seq<u64>, upper: Seq<u64>, j: int)
    requires
        bounds_valid(lower, upper),
        0 <= j <= lower.len(),
    ensures
        1 <= volume_from(lower, upper, j) <= volume_from(lower, upper, 0),
    decreases j,
{
    lemma_volume_positive(lower, upper, j);
    if j > 0 {
        lemma_volume_monotone(lower, upper, j - 1);
        let e = extent(lower, upper, j - 1);
        let v = volume_from(lower, upper, j);
        assert(v <= e * v) by (nonlinear_arith)
            requires
                e >= 1,
        ;
    }
}

/// No volume is zero.
pub proof fn lemma_volume_positive(lower: Seq<u64>, upper: Seq<u64>, j: int)
    requires
        bounds_valid(lower, upper),
        0 <= j <= lower.len(),
    ensures
        1 <= volume_from(lower, upper, j),
    decreases lower.len() - j,
{
    if j < lower.len() {
        lemma_volume_positive(lower, upper, j + 1);
        let e = extent(lower, upper, j);
        let v = volume_from(lower, upper, j + 1);
        assert(1 <= e * v) by (nonlinear_arith)
            requires
                e >= 1,
                v >= 1,
        ;
    }
}

/// The number of a tuple of the box is below the volume.
pub proof fn lemma_code_bound(lower: Seq<u64>, upper: Seq<u64>, t: Seq<u64>, j: int)
    requires
        bounds_valid(lower, upper),
        in_box(lower, upper, t),
        0 <= j <= t.len(),
    ensures
        code_from(lower, upper, t, j) < volume_from(lower, upper, j),
    decreases t.len() - j,
{
    if j < t.len() {
        lemma_code_bound(lower, upper, t, j + 1);
        let e = extent(lower, upper, j);
        let c = code_from(lower, upper, t, j + 1);
        let v = volume_from(lower, upper, j + 1);
        let d = (t[j] - lower[j]) as nat;
        assert(d + e * c < e * v) by (nonlinear_arith)
            requires
                d < e,
                c < v,
        ;
    }
}

/// Two tuples of the box with one number are one tuple.
pub proof fn lemma_code_injective(
    lower: Seq<u64>,
    upper: Seq<u64>,
    s: Seq<u64>,
    t: Seq<u64>,
    j: int,
)
    requires
        bounds_valid(lower, upper),
        in_box(lower, upper, s),
        in_box(lower, upper, t),
        0 <= j <= t.len(),
        code_from(lower, upper, s, j) == code_from(lower, upper, t, j),
    ensures
        forall|i: int| j <= i < t.len() ==> s[i] == t[i],
    decreases t.len() - j,
{
    if j < t.len() {
        let e = extent(lower, upper, j);
        let cs = code_from(lower, upper, s, j + 1);
        let ct = code_from(lower, upper, t, j + 1);
        let ds = (s[j] - lower[j]) as nat;
        let dt = (t[j] - lower[j]) as nat;
        assert(ds == dt && cs == ct) by (nonlinear_arith)
            requires
                ds + e * cs == dt + e * ct,
                ds < e,
                dt < e,
        ;
        lemma_code_injective(lower, upper, s, t, j + 1);
    }
}

/// A Cartesian product of inclusive intervals `[lower[j], upper[j]]`, one per coordinate,
/// with at most `u128::MAX` tuples.
#[derive(Debug)]
pub struct Domain {
    lower: Vec<u64>,
    upper: Vec<u64>,
}

impl Domain {
    /// The least value of each coordinate.
    pub closed spec fn lower(&self) -> Seq<u64> {
        self.lower@
    }

    /// The greatest value of each coordinate.
    pub closed spec fn upper(&self) -> Seq<u64> {
        self.upper@
    }

    /// The number of coordinates of a tuple.
    pub open spec fn arity(&self) -> nat {
        self.lower().len()
    }

    /// The number of tuples.
    pub open spec fn volume(&self) -> nat {
        volume_from(self.lower(), self.upper(), 0)
    }

    /// The intervals are valid and the tuples can be numbered in 128 bits.
    pub open spec fn well_formed(&self) -> bool {
        &&& bounds_valid(self.lower(), self.upper())
        &&& self.volume() <= u128::MAX
        &&& self.arity() <= usize::MAX
    }

    /// Whether `t` is a tuple of the domain.
    pub open spec fn contains(&self, t: Seq<u64>) -> bool {
        in_box(self.lower(), self.upper(), t)
    }

    /// The number of tuple `t`: distinct tuples of the domain have distinct numbers.
    pub open spec fn code(&self, t: Seq<u64>) -> nat {
        code_from(self.lower(), self.upper(), t, 0)
    }

    /// Distinct tuples of the domain have distinct numbers.
    pub proof fn lemma_code_distinguishes(&self, s: Seq<u64>, t: Seq<u64>)
        requires
            self.well_formed(),
            self.contains(s),
            self.contains(t),
            self.code(s) == self.code(t),
        ensures
            s == t,
    {
        lemma_code_injective(self.lower(), self.upper(), s, t, 0);
        assert(s =~= t);
    }

    /// The domain of the tuples `t` with `lower[j] <= t[j] <= upper[j]` for every `j`.
    ///
    /// Fails with `InvalidDomain` where the bounds differ in number or a lower bound
    /// exceeds its upper bound, and with `DomainTooLarge` beyond `u128::MAX` tuples.
    pub fn new(lower: Vec<u64>, upper: Vec<u64>) -> (r: Result<Domain, AccumulatorError>)
        ensures
            !bounds_valid(lower@, upper@) ==> r == Err::<Domain, AccumulatorError>(
                AccumulatorError::InvalidDomain,
            ),
            bounds_valid(lower@, upper@) && volume_from(lower@, upper@, 0) > u128::MAX ==> r
                == Err::<Domain, AccumulatorError>(AccumulatorError::DomainTooLarge),
            bounds_valid(lower@, upper@) && volume_from(lower@, upper@, 0) <= u128::MAX ==> r
                is Ok,
            r matches Ok(d) ==> d.well_formed() && d.lower() == lower@ && d.upper() == upper@,
    {
        if lower.len() != upper.len() {
            return Err(AccumulatorError::InvalidDomain);
        }
        let n: usize = lower.len();
        let mut j: usize = 0;
        while j < n
            invariant
                j <= n,
                n == lower@.len(),
                n == upper@.len(),
                forall|h: int| 0 <= h < j ==> #[trigger] lower@[h] <= upper@[h],
            decreases n - j,
        {
            if lower[j] > upper[j] {
                return Err(AccumulatorError::InvalidDomain);
            }
            j = j + 1;
        }
        let mut volume: u128 = 1;
        let mut j: usize = n;
        while j > 0
            invariant
                j <= n,
                n == lower@.len(),
                bounds_valid(lower@, upper@),
                volume == volume_from(lower@, upper@, j as int),
            decreases j,
        {
            j = j - 1;
            let e: u128 = (upper[j] - lower[j]) as u128 + 1;
            volume = match volume.checked_mul(e) {
                Some(v) => v,
                None => {
                    proof {
                        lemma_volume_monotone(lower@, upper@, j as int);
                        assert(volume_from(lower@, upper@, j as int) == e * volume) by (nonlinear_arith)
                            requires
                                volume_from(lower@, upper@, j as int) == extent(
                                    lower@,
                                    upper@,
                                    j as int,
                                ) * volume,
                                e == extent(lower@, upper@, j as int),
                        ;
                    }
                    return Err(AccumulatorError::DomainTooLarge);
                },
            };
            proof {
                assert(volume_from(lower@, upper@, j as int) == e * volume_from(
                    lower@,
                    upper@,
                    j as int + 1,
                )) by (nonlinear_arith)
                    requires
                        volume_from(lower@, upper@, j as int) == extent(lower@, upper@, j as int)
                            * volume_from(lower@, upper@, j as int + 1),
                        e == extent(lower@, upper@, j as int),
                ;
            }
        }
        Ok(Domain { lower, upper })
    }

    /// The number of coordinates of a tuple.
    pub fn num_coordinates(&self) -> (n: usize)
        requires
            self.well_formed(),
        ensures
            n == self.arity(),
    {
        self.lower.len()
    }

    /// The least values of the coordinates.
    pub fn lower_bounds(&self) -> (lower: &Vec<u64>)
        ensures
            lower@ == self.lower(),
    {
        &self.lower
    }

    /// The greatest values of the coordinates.
    pub fn upper_bounds(&self) -> (upper: &Vec<u64>)
        ensures
            upper@ == self.upper(),
    {
        &self.upper
    }

    /// The number of `tuple`, or `None` where the domain does not contain it.
    pub fn encode(&self, tuple: &Vec<u64>) -> (code: Option<u128>)
        requires
            self.well_formed(),
        ensures
            code is Some <==> self.contains(tuple@),
            code matches Some(c) ==> c == self.code(tuple@),
    {
        let n: usize = self.lower.len();
        if tuple.len() != n {
            return None;
        }
        let mut j: usize = 0;
        while j < n
            invariant
                j <= n,
                n == self.lower@.len(),
                n == self.upper@.len(),
                n == tuple@.len(),
                forall|h: int|
                    0 <= h < j ==> self.lower@[h] <= #[trigger] tuple@[h] && tuple@[h] <= self.upper@[h],
            decreases n - j,
        {
            if tuple[j] < self.lower[j] || tuple[j] > self.upper[j] {
                return None;
            }
            j = j + 1;
        }
        let mut code: u128 = 0;
        let mut j: usize = n;
        while j > 0
            invariant
                j <= n,
                n == self.lower@.len(),
                n == tuple@.len(),
                self.well_formed(),
                self.contains(tuple@),
                code == code_from(self.lower@, self.upper@, tuple@, j as int),
            decreases j,
        {
            j = j - 1;
            proof {
                lemma_code_bound(self.lower@, self.upper@, tuple@, j as int);
                lemma_code_bound(self.lower@, self.upper@, tuple@, j as int + 1);
                lemma_volume_monotone(self.lower@, self.upper@, j as int);
                let e = extent(self.lower@, self.upper@, j as int);
                let c = code_from(self.lower@, self.upper@, tuple@, j as int + 1);
                assert(e * c <= (tuple@[j as int] - self.lower@[j as int]) + e * c);
            }
            let e: u128 = (self.upper[j] - self.lower[j]) as u128 + 1;
            code = (tuple[j] - self.lower[j]) as u128 + e * code;
        }
        Some(code)
    }

    /// Whether two domains have the same intervals.
    pub fn same_as(&self, other: &Domain) -> (same: bool)
        ensures
            same == (self.lower() == other.lower() && self.upper() == other.upper()),
    {
        equal_sequences(&self.lower, &other.lower) && equal_sequences(&self.upper, &other.upper)
    }
}

/// Whether two vectors hold the same values in the same order.
pub fn equal_sequences(a: &Vec<u64>, b: &Vec<u64>) -> (same: bool)
    ensures
        same == (a@ == b@),
{
    if a.len() != b.len() {
        return false;
    }
    let mut i: usize = 0;
    while i < a.len()
        invariant
            i <= a@.len(),
            a@.len() == b@.len(),
            forall|h: int| 0 <= h < i ==> a@[h] == b@[h],
        decreases a@.len() - i,
    {
        if a[i] != b[i] {
            return false;
        }
        i = i + 1;
    }
    proof {
        assert(a@ =~= b@);
    }
    true
}

/// A copy of `v`.
pub fn copy_of(v: &Vec<u64>) -> (w: Vec<u64>)
    ensures
        w@ == v@,
{
    let mut w: Vec<u64> = Vec::new();
    let mut i: usize = 0;
    while i < v.len()
        invariant
            i <= v@.len(),
            w@ == v@.take(i as int),
        decreases v@.len() - i,
    {
        w.push(v[i]);
        i = i + 1;
        proof {
            assert(w@ =~= v@.take(i as int));
        }
    }
    proof {
        assert(v@.take(v@.len() as int) =~= v@);
    }
    w
}

} // verus!
