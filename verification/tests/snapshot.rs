use matching_engine::price::Ray;
use matching_engine::snapshot::{
    LiqRange, PoolSnapshot, SnapshotError, SqrtPriceX96, MAX_TICK, MIN_TICK,
};

fn range(lower: i32, upper: i32, liquidity: u128) -> LiqRange {
    LiqRange::new(lower, upper, liquidity).unwrap()
}

#[test]
fn range_keeps_its_fields() {
    let r = range(90000, 110000, 10);
    assert_eq!(r.lower_tick(), 90000);
    assert_eq!(r.upper_tick(), 110000);
    assert_eq!(r.liquidity(), 10);
    assert!(LiqRange::new(MIN_TICK, MAX_TICK, 0).is_ok());
}

#[test]
fn malformed_ranges_are_refused() {
    assert_eq!(LiqRange::new(10, 10, 1), Err(SnapshotError::InvalidLiquidityRange));
    assert_eq!(LiqRange::new(20, 10, 1), Err(SnapshotError::InvalidLiquidityRange));
    assert_eq!(LiqRange::new(MIN_TICK - 1, 0, 1), Err(SnapshotError::InvalidLiquidityRange));
    assert_eq!(LiqRange::new(0, MAX_TICK + 1, 1), Err(SnapshotError::InvalidLiquidityRange));
}

#[test]
fn sqrt_price_at_known_ticks() {
    let at_zero = SqrtPriceX96::at_tick(0).unwrap();
    assert_eq!(at_zero.limbs, [0, 1u64 << 32, 0, 0]);
    let at_min = SqrtPriceX96::at_tick(MIN_TICK).unwrap();
    assert_eq!(at_min.limbs, [4295128739, 0, 0, 0]);
    let at_max = SqrtPriceX96::at_tick(MAX_TICK).unwrap();
    assert_eq!(at_max.limbs, [6743328256752651558, 17280870778742802505, 4294805859, 0]);
}

#[test]
fn ticks_out_of_bounds_have_no_price() {
    assert_eq!(SqrtPriceX96::at_tick(MAX_TICK + 1), Err(SnapshotError::InvalidPrice));
    assert_eq!(SqrtPriceX96::at_tick(MIN_TICK - 1), Err(SnapshotError::InvalidPrice));
    assert_eq!(SqrtPriceX96::at_tick(i32::MIN), Err(SnapshotError::InvalidPrice));
    assert_eq!(SqrtPriceX96::at_tick(i32::MAX), Err(SnapshotError::InvalidPrice));
}

#[test]
fn tick_of_a_price() {
    assert_eq!(SqrtPriceX96::at_tick(100000).unwrap().to_tick(), Ok(100000));
    assert_eq!(SqrtPriceX96::at_tick(-42).unwrap().to_tick(), Ok(-42));
    assert_eq!(SqrtPriceX96::at_tick(MIN_TICK).unwrap().to_tick(), Ok(MIN_TICK));
    assert_eq!(SqrtPriceX96::from_limbs([0, 1u64 << 32, 0, 0]).to_tick(), Ok(0));
}

#[test]
fn prices_out_of_bounds_have_no_tick() {
    assert_eq!(SqrtPriceX96::from_limbs([0, 0, 0, 0]).to_tick(), Err(SnapshotError::InvalidPrice));
    assert_eq!(
        SqrtPriceX96::from_limbs([4295128738, 0, 0, 0]).to_tick(),
        Err(SnapshotError::InvalidPrice)
    );
    assert_eq!(
        SqrtPriceX96::at_tick(MAX_TICK).unwrap().to_tick(),
        Err(SnapshotError::InvalidPrice)
    );
    assert_eq!(
        SqrtPriceX96::from_limbs(Ray::max_value().into_limbs()).to_tick(),
        Err(SnapshotError::InvalidPrice)
    );
}

#[test]
fn snapshot_of_one_range() {
    let price = SqrtPriceX96::at_tick(100000).unwrap();
    let snapshot = PoolSnapshot::new(vec![range(90000, 110000, 10)], price).unwrap();
    assert_eq!(snapshot.current_tick(), 100000);
    assert_eq!(snapshot.current_price(), price);
    assert_eq!(snapshot.ranges(), &vec![range(90000, 110000, 10)]);
    assert_eq!(snapshot.current_range(), range(90000, 110000, 10));
}

#[test]
fn ranges_are_put_in_ascending_order() {
    let price = SqrtPriceX96::at_tick(250).unwrap();
    let given = vec![range(200, 300, 3), range(0, 100, 1), range(100, 200, 2)];
    let snapshot = PoolSnapshot::new(given, price).unwrap();
    assert_eq!(snapshot.ranges(), &vec![range(0, 100, 1), range(100, 200, 2), range(200, 300, 3)]);
    assert_eq!(snapshot.current_range(), range(200, 300, 3));
    assert_eq!(snapshot.current_tick(), 250);
}

#[test]
fn a_tick_on_a_boundary_belongs_to_the_upper_range() {
    let ranges = vec![range(0, 100, 1), range(100, 200, 2)];
    let snapshot =
        PoolSnapshot::with_tick(ranges, SqrtPriceX96::at_tick(100).unwrap(), Some(100)).unwrap();
    assert_eq!(snapshot.current_range(), range(100, 200, 2));
}

#[test]
fn ranges_that_do_not_join_are_refused() {
    let price = SqrtPriceX96::at_tick(50).unwrap();
    let gap = vec![range(0, 100, 1), range(150, 200, 2)];
    assert_eq!(PoolSnapshot::new(gap, price), Err(SnapshotError::InvalidLiquidityRange));
    let overlap = vec![range(0, 100, 1), range(50, 200, 2)];
    assert_eq!(PoolSnapshot::new(overlap, price), Err(SnapshotError::InvalidLiquidityRange));
}

#[test]
fn broken_ranges_are_reported_before_a_bad_price() {
    let gap = vec![range(0, 100, 1), range(150, 200, 2)];
    let no_tick = SqrtPriceX96::from_limbs([0, 0, 0, 0]);
    assert_eq!(PoolSnapshot::new(gap.clone(), no_tick), Err(SnapshotError::InvalidLiquidityRange));
    assert_eq!(
        PoolSnapshot::with_tick(gap, no_tick, None),
        Err(SnapshotError::InvalidLiquidityRange)
    );
}

#[test]
fn a_price_outside_every_range_is_refused() {
    let ranges = vec![range(0, 100, 1), range(100, 200, 2)];
    let above = SqrtPriceX96::at_tick(200).unwrap();
    assert_eq!(PoolSnapshot::new(ranges.clone(), above), Err(SnapshotError::InvalidPrice));
    let below = SqrtPriceX96::at_tick(-1).unwrap();
    assert_eq!(PoolSnapshot::new(ranges, below), Err(SnapshotError::InvalidPrice));
    let price = SqrtPriceX96::at_tick(0).unwrap();
    assert_eq!(PoolSnapshot::new(vec![], price), Err(SnapshotError::InvalidPrice));
}

#[test]
fn a_price_without_a_tick_is_refused() {
    let ranges = vec![range(0, 100, 1)];
    let no_tick = SqrtPriceX96::from_limbs([1, 0, 0, 0]);
    assert_eq!(PoolSnapshot::new(ranges.clone(), no_tick), Err(SnapshotError::InvalidPrice));
    assert_eq!(PoolSnapshot::with_tick(ranges, no_tick, None), Err(SnapshotError::InvalidPrice));
}

#[test]
fn a_copy_of_a_snapshot_is_equal_to_it() {
    let price = SqrtPriceX96::at_tick(150).unwrap();
    let snapshot = PoolSnapshot::new(vec![range(100, 200, 2), range(0, 100, 1)], price).unwrap();
    assert_eq!(snapshot.clone(), snapshot);
    assert_eq!(snapshot.duplicate(), snapshot);
}

#[test]
fn ordered_ranges_are_taken_as_they_are() {
    let price = SqrtPriceX96::at_tick(150).unwrap();
    let ordered = vec![range(0, 100, 1), range(100, 200, 2)];
    let snapshot = PoolSnapshot::from_ordered(ordered.clone(), price, 150).unwrap();
    assert_eq!(snapshot.ranges(), &ordered);
    assert_eq!(snapshot, PoolSnapshot::new(ordered, price).unwrap());
    let unordered = vec![range(100, 200, 2), range(0, 100, 1)];
    assert_eq!(
        PoolSnapshot::from_ordered(unordered, price, 150),
        Err(SnapshotError::InvalidLiquidityRange)
    );
    assert_eq!(
        PoolSnapshot::from_ordered(vec![range(0, 100, 1)], price, 100),
        Err(SnapshotError::InvalidPrice)
    );
}
