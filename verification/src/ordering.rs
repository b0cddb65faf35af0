//! Order of floating-point numbers by their bit patterns, and stable sorting of indices.

use vstd::arithmetic::power2::{
    lemma_pow2_pos, lemma_pow2_strictly_increases, lemma_pow2_unfold, pow2,
};
use vstd::prelude::*;

verus! {

/// The bit pattern of an IEEE 754 double-precision number: one sign bit, then a magnitude that
/// grows with the absolute value. Numbers are compared here, not computed with.
#[derive(Debug, PartialEq, Eq, Clone, Copy)]
pub struct Binary64 {
    pub bits: u64,
}

/// The bit pattern with the sign bit alone.
pub const SIGN_BIT: u64 = 0x8000_0000_0000_0000;

/// The bit pattern of `1e-15`: what is below it counts as nothing.
pub const NEGLIGIBLE: u64 = 0x3cd2_03af_9ee7_5616;

/// The magnitude of the infinities. What lies above it is not a number.
pub const INFINITE_MAGNITUDE: u64 = 0x7ff0_0000_0000_0000;

impl Binary64 {
    /// The bit pattern without the sign bit.
    pub open spec fn magnitude(self) -> int {
        if self.bits < SIGN_BIT {
            self.bits as int
        } else {
            self.bits - SIGN_BIT
        }
    }

    /// Whether this is one of the patterns that stand for no number.
    pub open spec fn nan(self) -> bool {
        self.magnitude() > INFINITE_MAGNITUDE
    }

    /// The place of a number among all numbers, with zero, of either sign, at 0. Of two numbers the
    /// one with the lower rank is the lower one, and two with the same rank are equal.
    pub open spec fn rank(self) -> int {
        if self.bits < SIGN_BIT {
            self.bits as int
        } else {
            SIGN_BIT - self.bits
        }
    }

    /// Whether this is below the other, as `<` tells: no pattern that stands for no number is.
    pub open spec fn below(self, other: Self) -> bool {
        !self.nan() && !other.nan() && self.rank() < other.rank()
    }

    /// Tells whether this stands for no number.
    pub fn is_nan(self) -> (answer: bool)
        ensures
            answer == self.nan(),
    {
        let magnitude: u64 = if self.bits < SIGN_BIT {
            self.bits
        } else {
            self.bits - SIGN_BIT
        };
        magnitude > INFINITE_MAGNITUDE
    }

    /// The place of a number among all numbers.
    pub fn to_rank(self) -> (rank: i128)
        ensures
            rank == self.rank(),
    {
        if self.bits < SIGN_BIT {
            self.bits as i128
        } else {
            SIGN_BIT as i128 - self.bits as i128
        }
    }

    /// Tells whether this is below the other.
    pub fn is_below(self, other: Self) -> (answer: bool)
        ensures
            answer == self.below(other),
    {
        !self.is_nan() && !other.is_nan() && self.to_rank() < other.to_rank()
    }
}

/// Whether none of some patterns stands for no number.
pub open spec fn all_numbers(values: Seq<Binary64>) -> bool {
    forall|i: int| 0 <= i < values.len() ==> !(#[trigger] values[i]).nan()
}

/// The ranks of some numbers.
pub open spec fn ranks(values: Seq<Binary64>) -> Seq<int> {
    values.map_values(|value: Binary64| value.rank())
}

/// Integers of a fixed width as integers.
pub open spec fn as_ints(keys: Seq<i128>) -> Seq<int> {
    keys.map_values(|key: i128| key as int)
}

/// In a stable sort, index `a` comes before index `b`: its key is lower, or the keys are equal and
/// it came first.
pub open spec fn precedes(keys: Seq<int>, a: usize, b: usize) -> bool {
    keys[a as int] < keys[b as int] || (keys[a as int] == keys[b as int] && a < b)
}

/// The indices from `low` to `high`, each once, in the order of their keys.
pub open spec fn ordered_between(keys: Seq<int>, order: Seq<usize>, low: int, high: int) -> bool {
    &&& order.len() == high - low
    &&& forall|p: int| 0 <= p < order.len() ==> low <= (#[trigger] order[p]) < high
    &&& forall|x: usize| low <= x < high ==> #[trigger] order.contains(x)
    &&& forall|p: int, q: int|
        #![trigger order[p], order[q]]
        0 <= p < q < order.len() ==> precedes(keys, order[p], order[q])
}

/// The indices of the keys, each once, in ascending order of the keys. Where keys are equal the
/// lower index comes first.
pub open spec fn stable_order(keys: Seq<int>, order: Seq<usize>) -> bool {
    ordered_between(keys, order, 0, keys.len() as int)
}

/// There is only one stable order.
pub proof fn law_stable_order_unique(keys: Seq<int>, left: Seq<usize>, right: Seq<usize>)
    requires
        keys.len() <= usize::MAX,
        stable_order(keys, left),
        stable_order(keys, right),
    ensures
        left == right,
{
    lemma_order_unique(keys, left, right, keys.len() as int);
    assert(left.take(keys.len() as int) =~= left);
    assert(right.take(keys.len() as int) =~= right);
}

proof fn lemma_order_unique(keys: Seq<int>, left: Seq<usize>, right: Seq<usize>, m: int)
    requires
        keys.len() <= usize::MAX,
        stable_order(keys, left),
        stable_order(keys, right),
        0 <= m <= keys.len(),
    ensures
        left.take(m) == right.take(m),
    decreases m,
{
    if m > 0 {
        let k = m - 1;
        lemma_order_unique(keys, left, right, k);
        assert forall|p: int| 0 <= p < k implies left[p] == right[p] by {
            assert(left.take(k)[p] == right.take(k)[p]);
        }
        let a = left[k];
        let b = right[k];
        if a != b {
            assert(right.contains(a));
            assert(left.contains(b));
            let q = choose|q: int| 0 <= q < right.len() && right[q] == a;
            let p = choose|p: int| 0 <= p < left.len() && left[p] == b;
            if q < k {
                assert(left[q] == a);
                assert(precedes(keys, left[q], left[k]));
            }
            if p < k {
                assert(right[p] == b);
                assert(precedes(keys, right[p], right[k]));
            }
            assert(precedes(keys, right[k], right[q]));
            assert(precedes(keys, left[k], left[p]));
        }
        assert(left.take(m) =~= left.take(k).push(a));
        assert(right.take(m) =~= right.take(k).push(b));
    }
}

/// What merging two ordered runs has put out so far: the first `i` of the left and the first `j` of
/// the right, in order, all before what is still to come.
spec fn merged(
    keys: Seq<int>,
    left: Seq<usize>,
    right: Seq<usize>,
    out: Seq<usize>,
    i: int,
    j: int,
) -> bool {
    &&& out.len() == i + j
    &&& forall|p: int| 0 <= p < i ==> out.contains(#[trigger] left[p])
    &&& forall|p: int| 0 <= p < j ==> out.contains(#[trigger] right[p])
    &&& forall|p: int, q: int|
        #![trigger out[p], out[q]]
        0 <= p < q < out.len() ==> precedes(keys, out[p], out[q])
    &&& forall|p: int, q: int|
        #![trigger out[p], left[q]]
        0 <= p < out.len() && i <= q < left.len() ==> precedes(keys, out[p], left[q])
    &&& forall|p: int, q: int|
        #![trigger out[p], right[q]]
        0 <= p < out.len() && j <= q < right.len() ==> precedes(keys, out[p], right[q])
}

proof fn lemma_push_keeps(out: Seq<usize>, x: usize)
    ensures
        out.push(x).contains(x),
        forall|y: usize| out.contains(y) ==> #[trigger] out.push(x).contains(y),
{
    assert(out.push(x)[out.len() as int] == x);
    assert forall|y: usize| out.contains(y) implies #[trigger] out.push(x).contains(y) by {
        let p = choose|p: int| 0 <= p < out.len() && out[p] == y;
        assert(out.push(x)[p] == y);
    }
}

/// Merges two runs of indices, each in order.
fn merge(keys: &Vec<i128>, left: &Vec<usize>, right: &Vec<usize>, Ghost(low): Ghost<int>, Ghost(
    mid,
): Ghost<int>, Ghost(high): Ghost<int>) -> (out: Vec<usize>)
    requires
        0 <= low <= mid <= high <= keys@.len(),
        ordered_between(as_ints(keys@), left@, low, mid),
        ordered_between(as_ints(keys@), right@, mid, high),
    ensures
        ordered_between(as_ints(keys@), out@, low, high),
{
    let ghost ints = as_ints(keys@);
    let mut out: Vec<usize> = Vec::new();
    let mut i: usize = 0;
    let mut j: usize = 0;
    while i < left.len() || j < right.len()
        invariant
            0 <= low <= mid <= high <= keys@.len(),
            ints == as_ints(keys@),
            ordered_between(ints, left@, low, mid),
            ordered_between(ints, right@, mid, high),
            i <= left@.len(),
            j <= right@.len(),
            merged(ints, left@, right@, out@, i as int, j as int),
            forall|p: int| 0 <= p < out@.len() ==> low <= (#[trigger] out@[p]) < high,
        decreases left.len() - i + (right.len() - j),
    {
        let take_left = if i < left.len() {
            if j < right.len() {
                keys[left[i]] <= keys[right[j]]
            } else {
                true
            }
        } else {
            false
        };
        let ghost before = out@;
        if take_left {
            proof {
                lemma_push_keeps(before, left@[i as int]);
                assert forall|q: int| j <= q < right@.len() implies precedes(
                    ints,
                    left@[i as int],
                    #[trigger] right@[q],
                ) by {
                    let _ = right@[j as int];
                }
            }
            out.push(left[i]);
            i = i + 1;
        } else {
            proof {
                lemma_push_keeps(before, right@[j as int]);
                assert forall|q: int| i <= q < left@.len() implies precedes(
                    ints,
                    right@[j as int],
                    #[trigger] left@[q],
                ) by {
                    let _ = left@[i as int];
                }
            }
            out.push(right[j]);
            j = j + 1;
        }
    }
    proof {
        assert forall|x: usize| low <= x < high implies #[trigger] out@.contains(x) by {
            if x < mid {
                assert(left@.contains(x));
                let p = choose|p: int| 0 <= p < left@.len() && left@[p] == x;
                assert(out@.contains(left@[p]));
            } else {
                assert(right@.contains(x));
                let p = choose|p: int| 0 <= p < right@.len() && right@[p] == x;
                assert(out@.contains(right@[p]));
            }
        }
    }
    out
}

/// Sorts the indices from `low` to `high`.
fn sort_between(keys: &Vec<i128>, low: usize, high: usize) -> (order: Vec<usize>)
    requires
        low <= high <= keys@.len(),
    ensures
        ordered_between(as_ints(keys@), order@, low as int, high as int),
    decreases high - low,
{
    let mut order: Vec<usize> = Vec::new();
    if high - low == 0 {
        return order;
    }
    if high - low == 1 {
        order.push(low);
        assert(order@[0] == low);
        return order;
    }
    let mid: usize = low + (high - low) / 2;
    let left = sort_between(keys, low, mid);
    let right = sort_between(keys, mid, high);
    merge(keys, &left, &right, Ghost(low as int), Ghost(mid as int), Ghost(high as int))
}

/// The indices of the keys, in ascending order of the keys. The sort is stable.
pub fn sort_indices(keys: &Vec<i128>) -> (order: Vec<usize>)
    ensures
        stable_order(as_ints(keys@), order@),
{
    sort_between(keys, 0, keys.len())
}

/// The indices of some numbers, in ascending order of the numbers. The sort is stable.
pub fn sort_numbers(values: &Vec<Binary64>) -> (order: Vec<usize>)
    requires
        values@.len() <= 1 || all_numbers(values@),
    ensures
        stable_order(ranks(values@), order@),
{
    let mut keys: Vec<i128> = Vec::new();
    let mut i: usize = 0;
    while i < values.len()
        invariant
            i <= values@.len(),
            keys@.len() == i,
            forall|p: int| 0 <= p < i ==> #[trigger] keys@[p] == values@[p].rank(),
        decreases values.len() - i,
    {
        keys.push(values[i].to_rank());
        i = i + 1;
    }
    assert(as_ints(keys@) =~= ranks(values@));
    sort_indices(&keys)
}

/// A stable order lists each index once. The keys do not descend along it, and where two are equal
/// the lower index comes first.
pub proof fn law_stable_order_sorts(keys: Seq<int>, order: Seq<usize>)
    requires
        keys.len() <= usize::MAX,
        stable_order(keys, order),
    ensures
        order.len() == keys.len(),
        order.no_duplicates(),
        forall|x: usize| x < keys.len() ==> #[trigger] order.contains(x),
        forall|p: int| 0 <= p < order.len() ==> (#[trigger] order[p]) < keys.len(),
        forall|p: int, q: int|
            #![trigger order[p], order[q]]
            0 <= p < q < order.len() ==> keys[order[p] as int] <= keys[order[q] as int],
        forall|p: int, q: int|
            #![trigger order[p], order[q]]
            0 <= p < q < order.len() && keys[order[p] as int] == keys[order[q] as int] ==> order[p]
                < order[q],
{
}

/// Numbers are sorted by what they stand for: none that comes later is below one that comes earlier.
pub proof fn law_numbers_are_sorted(values: Seq<Binary64>, order: Seq<usize>)
    requires
        values.len() <= usize::MAX,
        stable_order(ranks(values), order),
    ensures
        order.len() == values.len(),
        order.no_duplicates(),
        forall|x: usize| x < values.len() ==> #[trigger] order.contains(x),
        forall|p: int, q: int|
            #![trigger order[p], order[q]]
            0 <= p < q < order.len() ==> !values[order[q] as int].below(values[order[p] as int]),
{
    law_stable_order_sorts(ranks(values), order);
}

/// What the bits without the sign stand for, in units of the least positive number: the lower 52
/// bits are the fraction and those above the exponent. A number with exponent zero is its fraction;
/// any other has a leading one in front of the fraction and is scaled by the exponent.
pub open spec fn denoted(bits: int) -> int {
    let fraction = bits % 0x10_0000_0000_0000;
    let exponent = bits / 0x10_0000_0000_0000;
    if exponent == 0 {
        fraction
    } else {
        (0x10_0000_0000_0000 + fraction) * pow2((exponent - 1) as nat)
    }
}

proof fn lemma_denoted(low: int, high: int)
    requires
        0 <= low < high,
    ensures
        0 <= denoted(low) < denoted(high),
{
    let unit = 0x10_0000_0000_0000int;
    let f = low % unit;
    let e = low / unit;
    let g = high % unit;
    let h = high / unit;
    assert(low == unit * e + f && 0 <= f < unit);
    assert(high == unit * h + g && 0 <= g < unit);
    assert(0 <= e <= h);
    if h > 0 {
        lemma_pow2_pos((h - 1) as nat);
    }
    if e > 0 {
        lemma_pow2_pos((e - 1) as nat);
    }
    if e == h {
        assert(f < g);
        if e > 0 {
            let p = pow2((e - 1) as nat) as int;
            assert((unit + f) * p < (unit + g) * p) by (nonlinear_arith)
                requires
                    f < g,
                    p > 0,
            ;
            assert(0 <= (unit + f) * p) by (nonlinear_arith)
                requires
                    unit + f >= 0,
                    p > 0,
            ;
        }
    } else {
        let q = pow2((h - 1) as nat) as int;
        assert(unit * q <= (unit + g) * q) by (nonlinear_arith)
            requires
                g >= 0,
                q > 0,
        ;
        if e == 0 {
            assert(unit <= unit * q) by (nonlinear_arith)
                requires
                    q >= 1,
                    unit > 0,
            ;
        } else {
            let p = pow2((e - 1) as nat) as int;
            assert((unit + f) * p < 2 * unit * p) by (nonlinear_arith)
                requires
                    f < unit,
                    p > 0,
            ;
            assert(0 <= (unit + f) * p) by (nonlinear_arith)
                requires
                    unit + f >= 0,
                    p > 0,
            ;
            lemma_pow2_unfold(e as nat);
            assert(pow2(e as nat) <= q) by {
                if e < h - 1 {
                    lemma_pow2_strictly_increases(e as nat, (h - 1) as nat);
                }
            }
            let r = pow2(e as nat) as int;
            assert(2 * unit * p == unit * r) by (nonlinear_arith)
                requires
                    r == 2 * p,
            ;
            assert(unit * r <= unit * q) by (nonlinear_arith)
                requires
                    r <= q,
                    unit > 0,
            ;
        }
    }
}

/// A pattern stands for no number if and only if its exponent is all ones and its fraction is not
/// zero. One number is below another if and only if what it stands for is: the number that its lower
/// bits denote, or its negative where the uppermost bit is set. The infinities count as above, or
/// below, all that is finite.
pub proof fn law_order_is_that_of_the_numbers(one: Binary64, other: Binary64)
    ensures
        one.nan() == ((one.bits % 0x8000_0000_0000_0000) / 0x10_0000_0000_0000 == 0x7ff && one.bits
            % 0x10_0000_0000_0000 != 0),
        !one.nan() && !other.nan() ==> one.below(other) == ((if one.bits < 0x8000_0000_0000_0000 {
            denoted(one.bits as int)
        } else {
            -denoted(one.bits - 0x8000_0000_0000_0000)
        }) < (if other.bits < 0x8000_0000_0000_0000 {
            denoted(other.bits as int)
        } else {
            -denoted(other.bits - 0x8000_0000_0000_0000)
        })),
        one.nan() || other.nan() ==> !one.below(other),
{
    let a = one.magnitude();
    let b = other.magnitude();
    if a < b {
        lemma_denoted(a, b);
    }
    if b < a {
        lemma_denoted(b, a);
    }
    if a > 0 {
        lemma_denoted(0, a);
    }
    if b > 0 {
        lemma_denoted(0, b);
    }
    assert(denoted(0) == 0);
}

} // verus!
