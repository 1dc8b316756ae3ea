//! Exact 256-bit fixed-point prices.
//!
//! A [`Ray`] holds the four little-endian 64-bit limbs of an unsigned 256-bit
//! integer. Its view is that integer, and every comparison is a comparison of
//! views: nothing is rounded.
use alloy_primitives::U256;
use vstd::prelude::*;

verus! {

/// The integer denoted by four little-endian 64-bit limbs.
pub open spec fn limbs_value(limbs: Seq<u64>) -> nat {
    (limbs[0] + limbs[1] * 0x1_0000_0000_0000_0000int + limbs[2]
        * 0x1_0000_0000_0000_0000_0000_0000_0000_0000int + limbs[3]
        * 0x1_0000_0000_0000_0000_0000_0000_0000_0000_0000_0000_0000_0000int) as nat
}

/// The largest 256-bit unsigned integer, `2^256 - 1`.
pub open spec fn max_value() -> nat {
    0xffff_ffff_ffff_ffff_ffff_ffff_ffff_ffff_ffff_ffff_ffff_ffff_ffff_ffff_ffff_ffffnat
}

/// Distinct limb arrays denote distinct integers, and none exceeds
/// [`max_value`].
pub proof fn lemma_limbs_value_injective(a: Seq<u64>, b: Seq<u64>)
    requires
        a.len() == 4,
        b.len() == 4,
    ensures
        limbs_value(a) <= max_value(),
        limbs_value(a) == limbs_value(b) <==> a == b,
{
    if limbs_value(a) == limbs_value(b) {
        assert(a[3] == b[3]);
        assert(a[2] == b[2]);
        assert(a[1] == b[1]);
        assert(a[0] == b[0]);
        assert(a =~= b);
    }
}

/// Compares two 256-bit integers with `ruint`'s `Uint::lt`, which
/// `alloy_primitives::U256` inherits. Each argument is turned into a `U256` by
/// `U256::from_limbs`, which reads the limbs least significant first and
/// accepts every array of four. The result is trusted to be the strict order
/// of the two integers.
#[verifier::external_body]
fn u256_lt(a: &[u64; 4], b: &[u64; 4]) -> (r: bool)
    ensures
        r == (limbs_value(a@) < limbs_value(b@)),
{
    U256::from_limbs(*a) < U256::from_limbs(*b)
}

/// Reads the limbs of the constant `U256::MAX`, documented by `ruint` as the
/// largest representable value, `2^256 - 1`.
#[verifier::external_body]
fn u256_max_limbs() -> (r: [u64; 4])
    ensures
        limbs_value(r@) == max_value(),
{
    U256::MAX.into_limbs()
}

/// A price as an exact 256-bit fixed-point ratio.
#[derive(Clone, Copy, Debug, PartialEq, Eq, Hash)]
pub struct Ray {
    /// Little-endian limbs of the underlying integer.
    pub limbs: [u64; 4],
}

impl View for Ray {
    type V = nat;

    open spec fn view(&self) -> nat {
        limbs_value(self.limbs@)
    }
}

impl Ray {
    /// The price whose underlying integer has the given little-endian limbs.
    pub fn from_limbs(limbs: [u64; 4]) -> (r: Ray)
        ensures
            r.limbs == limbs,
            r@ == limbs_value(limbs@),
    {
        Ray { limbs }
    }

    /// The little-endian limbs of the underlying integer.
    pub fn into_limbs(self) -> (limbs: [u64; 4])
        ensures
            limbs == self.limbs,
            limbs_value(limbs@) == self@,
    {
        self.limbs
    }

    /// The price whose underlying integer is `value`.
    pub fn from_u128(value: u128) -> (r: Ray)
        ensures
            r@ == value,
    {
        let low: u64 = (value & 0xffff_ffff_ffff_ffff) as u64;
        let high: u64 = (value >> 64) as u64;
        assert((value & 0xffff_ffff_ffff_ffff) + (value >> 64) * 0x1_0000_0000_0000_0000 == value
            && (value & 0xffff_ffff_ffff_ffff) <= 0xffff_ffff_ffff_ffff && (value >> 64)
            <= 0xffff_ffff_ffff_ffff) by (bit_vector);
        Ray { limbs: [low, high, 0, 0] }
    }

    /// The zero price, which is also the default.
    pub fn zero() -> (r: Ray)
        ensures
            r@ == 0,
            r == Ray::zero_spec(),
    {
        let r = Ray { limbs: [0, 0, 0, 0] };
        proof {
            lemma_same_value_same_ray(r, Ray::zero_spec());
        }
        r
    }

    /// The largest price, used as the marker of an unconstrained upper bound.
    pub fn max_value() -> (r: Ray)
        ensures
            r@ == max_value(),
            r == Ray::max_value_spec(),
    {
        let r = Ray { limbs: u256_max_limbs() };
        proof {
            lemma_same_value_same_ray(r, Ray::max_value_spec());
        }
        r
    }

    /// The zero price as a specification value.
    pub open spec fn zero_spec() -> Ray {
        Ray { limbs: [0u64, 0u64, 0u64, 0u64] }
    }

    /// The largest price as a specification value.
    pub open spec fn max_value_spec() -> Ray {
        Ray {
            limbs: [
                0xffff_ffff_ffff_ffffu64,
                0xffff_ffff_ffff_ffffu64,
                0xffff_ffff_ffff_ffffu64,
                0xffff_ffff_ffff_ffffu64,
            ],
        }
    }

    /// Whether `self` is strictly below `other`.
    pub fn lt(&self, other: &Ray) -> (r: bool)
        ensures
            r == (self@ < other@),
    {
        u256_lt(&self.limbs, &other.limbs)
    }

    /// Whether `self` is at most `other`.
    pub fn le(&self, other: &Ray) -> (r: bool)
        ensures
            r == (self@ <= other@),
    {
        !u256_lt(&other.limbs, &self.limbs)
    }

    /// The smaller of two prices; `self` when they are equal.
    pub fn min(self, other: Ray) -> (r: Ray)
        ensures
            r == (if other@ < self@ { other } else { self }),
    {
        if other.lt(&self) {
            other
        } else {
            self
        }
    }

    /// The larger of two prices; `self` when they are equal.
    pub fn max(self, other: Ray) -> (r: Ray)
        ensures
            r == (if self@ < other@ { other } else { self }),
    {
        if self.lt(&other) {
            other
        } else {
            self
        }
    }
}

impl Default for Ray {
    fn default() -> (r: Ray)
        ensures
            r == Ray::zero_spec(),
    {
        Ray::zero()
    }
}

/// `r` is one of `prices`, and none of them is below it.
pub open spec fn is_least(r: Ray, prices: Seq<Ray>) -> bool {
    &&& prices.contains(r)
    &&& forall|i: int| 0 <= i < prices.len() ==> r@ <= (#[trigger] prices[i])@
}

/// `r` is one of `prices`, and none of them is above it.
pub open spec fn is_greatest(r: Ray, prices: Seq<Ray>) -> bool {
    &&& prices.contains(r)
    &&& forall|i: int| 0 <= i < prices.len() ==> (#[trigger] prices[i])@ <= r@
}

/// The least of `prices`, or zero where there is none: an empty lower bound
/// stands in nobody's way.
pub open spec fn lowest_of(prices: Seq<Ray>) -> Ray {
    if prices.len() == 0 {
        Ray::zero_spec()
    } else {
        choose|r: Ray| is_least(r, prices)
    }
}

/// The greatest of `prices`, or the largest price where there is none: an
/// empty upper bound is marked as unconstrained.
pub open spec fn highest_of(prices: Seq<Ray>) -> Ray {
    if prices.len() == 0 {
        Ray::max_value_spec()
    } else {
        choose|r: Ray| is_greatest(r, prices)
    }
}

/// A sequence has at most one least price.
pub proof fn lemma_least_unique(a: Ray, b: Ray, prices: Seq<Ray>)
    requires
        is_least(a, prices),
        is_least(b, prices),
    ensures
        a == b,
{
    lemma_same_value_same_ray(a, b);
}

/// A sequence has at most one greatest price.
pub proof fn lemma_greatest_unique(a: Ray, b: Ray, prices: Seq<Ray>)
    requires
        is_greatest(a, prices),
        is_greatest(b, prices),
    ensures
        a == b,
{
    lemma_same_value_same_ray(a, b);
}

/// Of a sequence that is not empty, [`lowest_of`] is the least price and
/// [`highest_of`] the greatest.
pub proof fn lemma_bounds_exist(prices: Seq<Ray>)
    requires
        prices.len() > 0,
    ensures
        is_least(lowest_of(prices), prices),
        is_greatest(highest_of(prices), prices),
    decreases prices.len(),
{
    let last = prices.last();
    if prices.len() == 1 {
        assert(prices[0] == last);
        assert(is_least(last, prices));
        assert(is_greatest(last, prices));
    } else {
        let rest = prices.drop_last();
        lemma_bounds_exist(rest);
        let low = lowest_of(rest);
        let high = highest_of(rest);
        let i = choose|i: int| 0 <= i < rest.len() && rest[i] == low;
        assert(prices[i] == low);
        let j = choose|j: int| 0 <= j < rest.len() && rest[j] == high;
        assert(prices[j] == high);
        assert(prices[prices.len() - 1] == last);
        let least = if last@ < low@ {
            last
        } else {
            low
        };
        let greatest = if high@ < last@ {
            last
        } else {
            high
        };
        assert forall|n: int| 0 <= n < prices.len() implies least@ <= (#[trigger] prices[n])@
            && prices[n]@ <= greatest@ by {
            if n < rest.len() {
                assert(rest[n] == prices[n]);
            }
        }
        assert(is_least(least, prices));
        assert(is_greatest(greatest, prices));
    }
}

/// The least of `prices`, or zero where there is none.
pub fn reduce_min(prices: &Vec<Ray>) -> (r: Ray)
    ensures
        r == lowest_of(prices@),
        prices@.len() == 0 ==> r@ == 0,
        prices@.len() > 0 ==> is_least(r, prices@),
{
    if prices.len() == 0 {
        return Ray::zero();
    }
    let mut least = prices[0];
    let mut i: usize = 1;
    assert(prices@.take(1)[0] == least);
    while i < prices.len()
        invariant
            1 <= i <= prices.len(),
            is_least(least, prices@.take(i as int)),
        decreases prices.len() - i,
    {
        let ghost seen = prices@.take(i as int);
        let ghost at = choose|n: int| 0 <= n < seen.len() && seen[n] == least;
        least = least.min(prices[i]);
        i += 1;
        proof {
            let now = prices@.take(i as int);
            assert(now[at] == seen[at]);
            assert(now[i - 1] == prices@[i - 1]);
            assert forall|n: int| 0 <= n < now.len() implies least@ <= (#[trigger] now[n])@ by {
                if n < seen.len() {
                    assert(seen[n] == now[n]);
                }
            }
        }
    }
    proof {
        assert(prices@.take(i as int) =~= prices@);
        lemma_bounds_exist(prices@);
        lemma_least_unique(least, lowest_of(prices@), prices@);
    }
    least
}

/// The greatest of `prices`, or the largest price where there is none.
pub fn reduce_max(prices: &Vec<Ray>) -> (r: Ray)
    ensures
        r == highest_of(prices@),
        prices@.len() == 0 ==> r@ == max_value(),
        prices@.len() > 0 ==> is_greatest(r, prices@),
{
    if prices.len() == 0 {
        return Ray::max_value();
    }
    let mut greatest = prices[0];
    let mut i: usize = 1;
    assert(prices@.take(1)[0] == greatest);
    while i < prices.len()
        invariant
            1 <= i <= prices.len(),
            is_greatest(greatest, prices@.take(i as int)),
        decreases prices.len() - i,
    {
        let ghost seen = prices@.take(i as int);
        let ghost at = choose|n: int| 0 <= n < seen.len() && seen[n] == greatest;
        greatest = greatest.max(prices[i]);
        i += 1;
        proof {
            let now = prices@.take(i as int);
            assert(now[at] == seen[at]);
            assert(now[i - 1] == prices@[i - 1]);
            assert forall|n: int| 0 <= n < now.len() implies (#[trigger] now[n])@ <= greatest@ by {
                if n < seen.len() {
                    assert(seen[n] == now[n]);
                }
            }
        }
    }
    proof {
        assert(prices@.take(i as int) =~= prices@);
        lemma_bounds_exist(prices@);
        lemma_greatest_unique(greatest, highest_of(prices@), prices@);
    }
    greatest
}

/// The bounds of a sequence depend on which prices it holds, not on where it
/// holds them.
pub proof fn lemma_bounds_of_same_prices(first: Seq<Ray>, second: Seq<Ray>)
    requires
        first.len() == second.len(),
        forall|r: Ray| first.contains(r) <==> second.contains(r),
    ensures
        lowest_of(first) == lowest_of(second),
        highest_of(first) == highest_of(second),
{
    if first.len() > 0 {
        lemma_bounds_exist(first);
        lemma_bounds_exist(second);
        let low = lowest_of(first);
        let high = highest_of(first);
        assert forall|i: int| 0 <= i < second.len() implies low@ <= (#[trigger] second[i])@
            && second[i]@ <= high@ by {
            assert(second.contains(second[i]));
            let j = choose|j: int| 0 <= j < first.len() && first[j] == second[i];
            assert(low@ <= first[j]@ <= high@);
        }
        lemma_least_unique(low, lowest_of(second), second);
        lemma_greatest_unique(high, highest_of(second), second);
    }
}

/// Where there is any price at all, the least is at most the greatest.
pub proof fn lemma_lowest_at_most_highest(prices: Seq<Ray>)
    requires
        prices.len() > 0,
    ensures
        lowest_of(prices)@ <= highest_of(prices)@,
{
    lemma_bounds_exist(prices);
    let low = lowest_of(prices);
    let i = choose|i: int| 0 <= i < prices.len() && prices[i] == low;
    assert(prices[i]@ <= highest_of(prices)@);
}

/// Two prices with the same value are the same price.
pub proof fn lemma_same_value_same_ray(a: Ray, b: Ray)
    ensures
        a@ <= max_value(),
        a@ == b@ <==> a == b,
{
    lemma_limbs_value_injective(a.limbs@, b.limbs@);
    if a.limbs@ == b.limbs@ {
        assert(a.limbs == b.limbs);
    }
}

} // verus!
