//! Snapshots of a pool's liquidity curve.
//!
//! A snapshot lists the liquidity that is available in each range of ticks and
//! the price at which the pool stands. The book carries a snapshot for whoever
//! runs the auction; it never looks inside. What is checked here is checked
//! once, when the snapshot is made.
use crate::price::limbs_value;
use crate::ranking::{stable_sort, stable_sorted, Ranking};
use uniswap_v3_math::error::UniswapV3MathError;
use uniswap_v3_math::tick_math::{get_sqrt_ratio_at_tick, get_tick_at_sqrt_ratio};
use vstd::prelude::*;

verus! {

/// The lowest tick a pool can stand at.
pub const MIN_TICK: i32 = -887272;

/// The highest tick a pool can stand at.
pub const MAX_TICK: i32 = 887272;

/// The square-root price at [`MIN_TICK`]: the least price that has a tick.
pub open spec fn min_sqrt_ratio() -> nat {
    4295128739
}

/// The square-root price at [`MAX_TICK`]: every price that has a tick is
/// strictly below it.
pub open spec fn max_sqrt_ratio() -> nat {
    1461446703485210103287273052203988822378723970342nat
}

/// Why a snapshot could not be made.
#[derive(Clone, Copy, Debug, PartialEq, Eq, Hash)]
pub enum SnapshotError {
    /// A range of ticks is empty, reversed or out of bounds, or the ranges do
    /// not join end to end.
    InvalidLiquidityRange,
    /// The price has no tick, or its tick lies in none of the ranges.
    InvalidPrice,
}

/// The error type of `uniswap_v3_math`, carried from its functions to the
/// place where it is turned into a [`SnapshotError`].
#[verifier::external_type_specification]
#[verifier::external_body]
pub struct ExUniswapV3MathError(UniswapV3MathError);

/// What `uniswap_v3_math::tick_math::get_sqrt_ratio_at_tick` returns for a
/// tick between [`MIN_TICK`] and [`MAX_TICK`].
pub uninterp spec fn sqrt_ratio_at_tick(tick: int) -> nat;

/// What `uniswap_v3_math::tick_math::get_tick_at_sqrt_ratio` returns for a
/// square-root price: the tick, or `None` where it reports an error.
pub uninterp spec fn tick_at_sqrt_ratio(sqrt_price: nat) -> Option<int>;

/// Calls `uniswap_v3_math::tick_math::get_sqrt_ratio_at_tick` and hands the
/// price back as little-endian limbs. The function first takes the absolute
/// value of the tick, which `i32::MIN` does not have, so that input is left
/// out. It reports an error exactly when the absolute value exceeds
/// [`MAX_TICK`]; otherwise its result is [`sqrt_ratio_at_tick`] of the tick.
#[verifier::external_body]
fn sqrt_ratio_limbs_at_tick(tick: i32) -> (r: Result<[u64; 4], UniswapV3MathError>)
    requires
        tick > i32::MIN,
    ensures
        r is Ok <==> MIN_TICK <= tick <= MAX_TICK,
        r is Ok ==> limbs_value(r->Ok_0@) == sqrt_ratio_at_tick(tick as int),
{
    match get_sqrt_ratio_at_tick(tick) {
        Ok(ratio) => Ok(ratio.into_limbs()),
        Err(e) => Err(e),
    }
}

/// Calls `uniswap_v3_math::tick_math::get_tick_at_sqrt_ratio` on the integer
/// with the given little-endian limbs. Its outcome is
/// [`tick_at_sqrt_ratio`] of that integer. The function begins by rejecting
/// every price below [`min_sqrt_ratio`] and every price from
/// [`max_sqrt_ratio`] on.
#[verifier::external_body]
fn tick_at_sqrt_ratio_limbs(limbs: &[u64; 4]) -> (r: Result<i32, UniswapV3MathError>)
    ensures
        r is Ok <==> tick_at_sqrt_ratio(limbs_value(limbs@)) is Some,
        r is Ok ==> tick_at_sqrt_ratio(limbs_value(limbs@)) == Some(r->Ok_0 as int),
        !(min_sqrt_ratio() <= limbs_value(limbs@) < max_sqrt_ratio()) ==> r is Err,
{
    get_tick_at_sqrt_ratio(alloy_primitives::U256::from_limbs(*limbs))
}

/// The liquidity available between two ticks.
#[derive(Clone, Copy, Debug, PartialEq, Eq, Hash)]
pub struct LiqRange {
    lower_tick: i32,
    upper_tick: i32,
    liquidity: u128,
}

/// A range of ticks as plain numbers.
pub struct LiqRangeView {
    /// The first tick of the range.
    pub lower_tick: int,
    /// The first tick past the range.
    pub upper_tick: int,
    /// The liquidity available anywhere in the range.
    pub liquidity: u128,
}

impl View for LiqRange {
    type V = LiqRangeView;

    closed spec fn view(&self) -> LiqRangeView {
        LiqRangeView {
            lower_tick: self.lower_tick as int,
            upper_tick: self.upper_tick as int,
            liquidity: self.liquidity,
        }
    }
}

impl LiqRangeView {
    /// The range is not empty and lies between [`MIN_TICK`] and [`MAX_TICK`].
    pub open spec fn is_valid(self) -> bool {
        MIN_TICK <= self.lower_tick < self.upper_tick <= MAX_TICK
    }

    /// Whether `tick` lies in the range: from the lower tick up to, but not
    /// including, the upper tick.
    pub open spec fn contains(self, tick: int) -> bool {
        self.lower_tick <= tick < self.upper_tick
    }
}

impl LiqRange {
    #[verifier::type_invariant]
    spec fn inv(&self) -> bool {
        self@.is_valid()
    }

    /// The range from `lower_tick` up to `upper_tick`, holding `liquidity`.
    /// It is refused unless it is not empty and lies within the ticks a pool
    /// can stand at.
    pub fn new(lower_tick: i32, upper_tick: i32, liquidity: u128) -> (r: Result<
        LiqRange,
        SnapshotError,
    >)
        ensures
            r is Ok <==> MIN_TICK <= lower_tick < upper_tick <= MAX_TICK,
            r is Ok ==> r->Ok_0@ == (LiqRangeView {
                lower_tick: lower_tick as int,
                upper_tick: upper_tick as int,
                liquidity,
            }),
            r is Err ==> r->Err_0 == SnapshotError::InvalidLiquidityRange,
    {
        if upper_tick <= lower_tick || upper_tick > MAX_TICK || lower_tick < MIN_TICK {
            Err(SnapshotError::InvalidLiquidityRange)
        } else {
            Ok(LiqRange { lower_tick, upper_tick, liquidity })
        }
    }

    /// The first tick of the range.
    pub fn lower_tick(&self) -> (tick: i32)
        ensures
            tick == self@.lower_tick,
            self@.is_valid(),
    {
        proof {
            use_type_invariant(self);
        }
        self.lower_tick
    }

    /// The first tick past the range.
    pub fn upper_tick(&self) -> (tick: i32)
        ensures
            tick == self@.upper_tick,
            self@.is_valid(),
    {
        proof {
            use_type_invariant(self);
        }
        self.upper_tick
    }

    /// The liquidity available anywhere in the range.
    pub fn liquidity(&self) -> (liquidity: u128)
        ensures
            liquidity == self@.liquidity,
    {
        self.liquidity
    }
}

/// Orders ranges by their lower tick.
pub struct LowerTickRanking;

impl Ranking<LiqRange> for LowerTickRanking {
    open spec fn key(&self, item: LiqRange) -> int {
        item@.lower_tick
    }

    fn before(&self, a: &LiqRange, b: &LiqRange) -> (r: bool) {
        a.lower_tick() < b.lower_tick()
    }
}

/// The square root of a price, as an unsigned fixed-point number with 96
/// fractional bits.
#[derive(Clone, Copy, Debug, PartialEq, Eq, Hash)]
pub struct SqrtPriceX96 {
    /// Little-endian limbs of the fixed-point number.
    pub limbs: [u64; 4],
}

impl View for SqrtPriceX96 {
    type V = nat;

    open spec fn view(&self) -> nat {
        limbs_value(self.limbs@)
    }
}

impl SqrtPriceX96 {
    /// The square-root price with the given little-endian limbs.
    pub fn from_limbs(limbs: [u64; 4]) -> (price: SqrtPriceX96)
        ensures
            price.limbs == limbs,
    {
        SqrtPriceX96 { limbs }
    }

    /// The square-root price at which a pool stands at `tick`. A tick outside
    /// [`MIN_TICK`]..=[`MAX_TICK`] has none.
    pub fn at_tick(tick: i32) -> (r: Result<SqrtPriceX96, SnapshotError>)
        ensures
            r is Ok <==> MIN_TICK <= tick <= MAX_TICK,
            r is Ok ==> r->Ok_0@ == sqrt_ratio_at_tick(tick as int),
            r is Err ==> r->Err_0 == SnapshotError::InvalidPrice,
    {
        if tick < MIN_TICK || tick > MAX_TICK {
            return Err(SnapshotError::InvalidPrice);
        }
        match sqrt_ratio_limbs_at_tick(tick) {
            Ok(limbs) => Ok(SqrtPriceX96 { limbs }),
            Err(_) => Err(SnapshotError::InvalidPrice),
        }
    }

    /// The tick at which a pool with this square-root price stands. Prices
    /// below [`min_sqrt_ratio`], and from [`max_sqrt_ratio`] on, have none.
    pub fn to_tick(&self) -> (r: Result<i32, SnapshotError>)
        ensures
            r is Ok <==> tick_at_sqrt_ratio(self@) is Some,
            r is Ok ==> tick_at_sqrt_ratio(self@) == Some(r->Ok_0 as int),
            r is Err ==> r->Err_0 == SnapshotError::InvalidPrice,
            !(min_sqrt_ratio() <= self@ < max_sqrt_ratio()) ==> r is Err,
    {
        match tick_at_sqrt_ratio_limbs(&self.limbs) {
            Ok(tick) => Ok(tick),
            Err(_) => Err(SnapshotError::InvalidPrice),
        }
    }
}

/// The ranges of `ranges` as plain numbers.
pub open spec fn views_of(ranges: Seq<LiqRange>) -> Seq<LiqRangeView> {
    Seq::new(ranges.len(), |i: int| ranges[i]@)
}

/// Every range is not empty and lies within the ticks a pool can stand at.
pub open spec fn all_valid(ranges: Seq<LiqRangeView>) -> bool {
    forall|i: int| 0 <= i < ranges.len() ==> (#[trigger] ranges[i]).is_valid()
}

/// Each range ends where the next one begins.
pub open spec fn is_contiguous(ranges: Seq<LiqRangeView>) -> bool {
    forall|i: int|
        0 <= i < ranges.len() - 1 ==> (#[trigger] ranges[i]).upper_tick == ranges[i + 1].lower_tick
}

/// `index` is the position of the first range of `ranges` that contains
/// `tick`.
pub open spec fn is_first_containing(ranges: Seq<LiqRangeView>, tick: int, index: int) -> bool {
    &&& 0 <= index < ranges.len()
    &&& ranges[index].contains(tick)
    &&& forall|i: int| 0 <= i < index ==> !(#[trigger] ranges[i]).contains(tick)
}

/// No range of `ranges` contains `tick`.
pub open spec fn none_contains(ranges: Seq<LiqRangeView>, tick: int) -> bool {
    forall|i: int| 0 <= i < ranges.len() ==> !(#[trigger] ranges[i]).contains(tick)
}

/// The liquidity of a pool at one moment: its ranges in ascending order, its
/// price, and the tick and range at which it stands.
#[derive(Debug, PartialEq, Eq)]
pub struct PoolSnapshot {
    ranges: Vec<LiqRange>,
    sqrt_price_x96: SqrtPriceX96,
    current_tick: i32,
    cur_tick_idx: usize,
}

/// A snapshot as plain values.
#[verifier::ext_equal]
pub struct PoolSnapshotView {
    /// The ranges, in ascending order of their lower ticks.
    pub ranges: Seq<LiqRangeView>,
    /// The square-root price of the pool.
    pub sqrt_price_x96: SqrtPriceX96,
    /// The tick at which the pool stands.
    pub current_tick: int,
}

impl PoolSnapshotView {
    /// Every range is valid, the ranges join end to end, and the pool stands
    /// in one of them.
    pub open spec fn is_valid(self) -> bool {
        &&& all_valid(self.ranges)
        &&& is_contiguous(self.ranges)
        &&& !none_contains(self.ranges, self.current_tick)
    }
}

impl View for PoolSnapshot {
    type V = PoolSnapshotView;

    closed spec fn view(&self) -> PoolSnapshotView {
        PoolSnapshotView {
            ranges: views_of(self.ranges@),
            sqrt_price_x96: self.sqrt_price_x96,
            current_tick: self.current_tick as int,
        }
    }
}

/// The error, if any, with which a snapshot of `ordered` ranges is refused
/// when the tick of its price, if it has one, is `tick`. Ranges that do not
/// join are reported before a price without a place.
pub open spec fn construction_error(ordered: Seq<LiqRangeView>, tick: Option<int>) -> Option<
    SnapshotError,
> {
    if !is_contiguous(ordered) {
        Some(SnapshotError::InvalidLiquidityRange)
    } else if tick is None || none_contains(ordered, tick->Some_0) {
        Some(SnapshotError::InvalidPrice)
    } else {
        None
    }
}

/// `r` is what making a snapshot of the `ordered` ranges at `sqrt_price_x96`
/// gives when the tick of the price, if it has one, is `tick`.
pub open spec fn is_construction_result(
    r: Result<PoolSnapshot, SnapshotError>,
    ordered: Seq<LiqRangeView>,
    sqrt_price_x96: SqrtPriceX96,
    tick: Option<int>,
) -> bool {
    match construction_error(ordered, tick) {
        Some(e) => r == Err::<PoolSnapshot, SnapshotError>(e),
        None => {
            &&& r is Ok
            &&& r->Ok_0@ == (PoolSnapshotView {
                ranges: ordered,
                sqrt_price_x96,
                current_tick: tick->Some_0,
            })
            &&& r->Ok_0@.is_valid()
        },
    }
}

/// The given ranges in ascending order of their lower ticks, ranges with the
/// same lower tick as they were given.
pub open spec fn in_tick_order(ranges: Seq<LiqRange>) -> Seq<LiqRangeView> {
    views_of(stable_sorted(&LowerTickRanking, ranges))
}

/// Whether each range ends where the next one begins.
fn joins(ranges: &Vec<LiqRange>) -> (r: bool)
    ensures
        r == is_contiguous(views_of(ranges@)),
        all_valid(views_of(ranges@)),
{
    let mut joined = true;
    let mut k: usize = 0;
    while k < ranges.len()
        invariant
            k <= ranges.len(),
            forall|i: int| 0 <= i < k ==> (#[trigger] views_of(ranges@)[i]).is_valid(),
            joined == (forall|i: int|
                0 <= i < k - 1 ==> (#[trigger] views_of(ranges@)[i]).upper_tick == views_of(
                    ranges@,
                )[i + 1].lower_tick),
        decreases ranges.len() - k,
    {
        let lower = ranges[k].lower_tick();
        if k > 0 && ranges[k - 1].upper_tick() != lower {
            assert(views_of(ranges@)[k - 1].upper_tick != views_of(ranges@)[k - 1 + 1].lower_tick);
            joined = false;
        }
        k += 1;
    }
    joined
}

/// The position of the first range that contains `tick`, if there is one.
fn locate(ranges: &Vec<LiqRange>, tick: i32) -> (r: Option<usize>)
    ensures
        match r {
            Some(index) => is_first_containing(views_of(ranges@), tick as int, index as int),
            None => none_contains(views_of(ranges@), tick as int),
        },
{
    let mut index: usize = 0;
    while index < ranges.len()
        invariant
            index <= ranges.len(),
            forall|i: int| 0 <= i < index ==> !(#[trigger] views_of(ranges@)[i]).contains(tick as int),
        decreases ranges.len() - index,
    {
        if ranges[index].lower_tick() <= tick && tick < ranges[index].upper_tick() {
            return Some(index);
        }
        index += 1;
    }
    None
}

impl PoolSnapshot {
    #[verifier::type_invariant]
    spec fn inv(&self) -> bool {
        &&& self@.is_valid()
        &&& is_first_containing(self@.ranges, self.current_tick as int, self.cur_tick_idx as int)
    }

    /// A snapshot of the given ranges for a pool that stands at
    /// `sqrt_price_x96`. The ranges are put in ascending order of their lower
    /// ticks. They have to join end to end, and the tick of the price has to
    /// lie in one of them.
    pub fn new(ranges: Vec<LiqRange>, sqrt_price_x96: SqrtPriceX96) -> (r: Result<
        PoolSnapshot,
        SnapshotError,
    >)
        ensures
            is_construction_result(
                r,
                in_tick_order(ranges@),
                sqrt_price_x96,
                tick_at_sqrt_ratio(sqrt_price_x96@),
            ),
            !(min_sqrt_ratio() <= sqrt_price_x96@ < max_sqrt_ratio()) ==> r is Err,
    {
        let tick = match sqrt_price_x96.to_tick() {
            Ok(tick) => Some(tick),
            Err(_) => None,
        };
        PoolSnapshot::with_tick(ranges, sqrt_price_x96, tick)
    }

    /// A snapshot of the given ranges for a pool that stands at
    /// `sqrt_price_x96`, where `tick` is the tick of that price, or `None` if
    /// the price has no tick. The ranges are put in ascending order of their
    /// lower ticks.
    pub fn with_tick(ranges: Vec<LiqRange>, sqrt_price_x96: SqrtPriceX96, tick: Option<i32>) -> (r:
        Result<PoolSnapshot, SnapshotError>)
        ensures
            is_construction_result(
                r,
                in_tick_order(ranges@),
                sqrt_price_x96,
                match tick {
                    Some(t) => Some(t as int),
                    None => None,
                },
            ),
    {
        let mut ordered = ranges;
        stable_sort(&mut ordered, &LowerTickRanking);
        if !joins(&ordered) {
            return Err(SnapshotError::InvalidLiquidityRange);
        }
        match tick {
            Some(current_tick) => PoolSnapshot::from_ordered(ordered, sqrt_price_x96, current_tick),
            None => Err(SnapshotError::InvalidPrice),
        }
    }

    /// A snapshot of the given ranges, taken in the order in which they are
    /// given, for a pool that stands at `sqrt_price_x96` and at
    /// `current_tick`.
    pub fn from_ordered(ranges: Vec<LiqRange>, sqrt_price_x96: SqrtPriceX96, current_tick: i32) -> (r:
        Result<PoolSnapshot, SnapshotError>)
        ensures
            is_construction_result(
                r,
                views_of(ranges@),
                sqrt_price_x96,
                Some(current_tick as int),
            ),
    {
        if !joins(&ranges) {
            return Err(SnapshotError::InvalidLiquidityRange);
        }
        match locate(&ranges, current_tick) {
            Some(cur_tick_idx) => {
                assert(views_of(ranges@)[cur_tick_idx as int].contains(current_tick as int));
                Ok(PoolSnapshot { ranges, sqrt_price_x96, current_tick, cur_tick_idx })
            },
            None => Err(SnapshotError::InvalidPrice),
        }
    }

    /// A copy of the snapshot.
    pub fn duplicate(&self) -> (copy: PoolSnapshot)
        ensures
            copy@ == self@,
    {
        proof {
            use_type_invariant(self);
        }
        let mut ranges: Vec<LiqRange> = Vec::new();
        let mut i: usize = 0;
        while i < self.ranges.len()
            invariant
                i <= self.ranges.len(),
                ranges@ == self.ranges@.take(i as int),
            decreases self.ranges.len() - i,
        {
            ranges.push(self.ranges[i]);
            assert(self.ranges@.take(i + 1) =~= self.ranges@.take(i as int).push(
                self.ranges@[i as int],
            ));
            i += 1;
        }
        assert(self.ranges@.take(i as int) =~= self.ranges@);
        PoolSnapshot {
            ranges,
            sqrt_price_x96: self.sqrt_price_x96,
            current_tick: self.current_tick,
            cur_tick_idx: self.cur_tick_idx,
        }
    }

    /// The ranges, in ascending order of their lower ticks.
    pub fn ranges(&self) -> (ranges: &Vec<LiqRange>)
        ensures
            views_of(ranges@) == self@.ranges,
            self@.is_valid(),
    {
        proof {
            use_type_invariant(self);
        }
        &self.ranges
    }

    /// The square-root price of the pool.
    pub fn current_price(&self) -> (price: SqrtPriceX96)
        ensures
            price == self@.sqrt_price_x96,
    {
        self.sqrt_price_x96
    }

    /// The tick at which the pool stands.
    pub fn current_tick(&self) -> (tick: i32)
        ensures
            tick == self@.current_tick,
    {
        self.current_tick
    }

    /// The range in which the pool stands: the first that contains the
    /// current tick.
    pub fn current_range(&self) -> (range: LiqRange)
        ensures
            self@.is_valid(),
            exists|index: int|
                is_first_containing(self@.ranges, self@.current_tick, index) && range@
                    == #[trigger] self@.ranges[index],
    {
        proof {
            use_type_invariant(self);
        }
        let range = self.ranges[self.cur_tick_idx];
        assert(range@ == self@.ranges[self.cur_tick_idx as int]);
        range
    }
}

impl Clone for PoolSnapshot {
    fn clone(&self) -> (copy: PoolSnapshot)
        ensures
            copy@ == self@,
    {
        self.duplicate()
    }
}

} // verus!
