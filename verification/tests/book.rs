use alloy_primitives::FixedBytes;
use matching_engine::book::order::{BookOrder, StorageData};
use matching_engine::book::sort::{SortStrategy, DEFAULT_STRATEGY};
use matching_engine::book::OrderBook;
use matching_engine::price::Ray;
use matching_engine::primitive::PoolId;
use matching_engine::snapshot::{LiqRange, PoolSnapshot, SqrtPriceX96};

fn pool() -> PoolId {
    PoolId::new([7u8; 32])
}

fn order(is_bid: bool, price: u128, quantity: u128, arrival: u64) -> BookOrder {
    let storage = StorageData { arrival, signer: [arrival as u8; 20], slot: 3 };
    BookOrder::new(pool(), is_bid, Ray::from_u128(price), quantity, storage)
}

fn prices(orders: &[BookOrder]) -> Vec<Ray> {
    orders.iter().map(|o| o.price()).collect()
}

fn rays(values: &[u128]) -> Vec<Ray> {
    values.iter().map(|v| Ray::from_u128(*v)).collect()
}

fn snapshot() -> PoolSnapshot {
    PoolSnapshot::new(
        vec![LiqRange::new(90000, 110000, 10).unwrap()],
        SqrtPriceX96::at_tick(100000).unwrap(),
    )
    .unwrap()
}

#[test]
fn can_construct_order_book() {
    // Very basic book construction test
    let bids = vec![];
    let asks = vec![];
    let amm = PoolSnapshot::new(
        vec![LiqRange::new(90000, 110000, 10).unwrap()],
        SqrtPriceX96::at_tick(100000).unwrap(),
    )
    .unwrap();
    OrderBook::new(PoolId::new(FixedBytes::<32>::random().0), Some(amm), bids, asks, None);
}

#[test]
fn two_sided_book_is_ranked_and_bounded() {
    let bids = vec![order(true, 10, 1, 0), order(true, 12, 2, 1)];
    let asks = vec![order(false, 11, 1, 2), order(false, 15, 1, 3)];
    let book = OrderBook::new(pool(), None, bids, asks, Some(SortStrategy::ByPrice));
    assert_eq!(prices(book.bids()), rays(&[12, 10]));
    assert_eq!(prices(book.asks()), rays(&[11, 15]));
    assert_eq!(book.bids()[0].quantity, 2);
    assert_eq!(book.bids()[1].quantity, 1);
    assert_eq!(book.lowest_clearing_price(), Ray::from_u128(10));
    assert_eq!(book.highest_clearing_price(), Ray::from_u128(15));
}

#[test]
fn default_strategy_ranks_by_price() {
    let bids = vec![order(true, 10, 1, 0), order(true, 12, 2, 1)];
    let asks = vec![order(false, 15, 1, 2), order(false, 11, 1, 3)];
    let book = OrderBook::new(pool(), None, bids, asks, None);
    assert_eq!(book.sort_strategy(), SortStrategy::ByPrice);
    assert_eq!(SortStrategy::default(), SortStrategy::ByPrice);
    assert_eq!(DEFAULT_STRATEGY, SortStrategy::ByPrice);
    assert_eq!(prices(book.bids()), rays(&[12, 10]));
    assert_eq!(prices(book.asks()), rays(&[11, 15]));
}

#[test]
fn book_with_asks_only() {
    let asks = vec![order(false, 20, 5, 0)];
    let book = OrderBook::new(pool(), None, vec![], asks, None);
    assert!(book.bids().is_empty());
    assert_eq!(prices(book.asks()), rays(&[20]));
    assert_eq!(book.lowest_clearing_price(), Ray::from_u128(20));
    assert_eq!(book.highest_clearing_price(), Ray::from_u128(20));
}

#[test]
fn empty_book_has_zero_and_max_as_bounds() {
    let book = OrderBook::new(pool(), None, vec![], vec![], None);
    assert_eq!(book.lowest_clearing_price(), Ray::zero());
    assert_eq!(book.highest_clearing_price(), Ray::max_value());
    assert_eq!(book.highest_clearing_price().into_limbs(), [u64::MAX; 4]);
}

#[test]
fn empty_book_with_snapshot_has_the_same_bounds() {
    let book = OrderBook::new(pool(), Some(snapshot()), vec![], vec![], None);
    assert!(book.amm().is_some());
    assert_eq!(book.lowest_clearing_price(), Ray::zero());
    assert_eq!(book.highest_clearing_price(), Ray::max_value());
}

#[test]
fn default_book_is_empty() {
    let book = OrderBook::default();
    assert!(book.bids().is_empty());
    assert!(book.asks().is_empty());
    assert!(book.amm().is_none());
    assert_eq!(book.id(), PoolId::default());
    assert_eq!(book.id().into_bytes(), [0u8; 32]);
}

#[test]
fn book_keeps_identity_and_snapshot() {
    let amm = snapshot();
    let book = OrderBook::new(pool(), Some(amm.clone()), vec![], vec![], None);
    assert_eq!(book.id(), pool());
    assert_eq!(book.amm(), Some(&amm));
}

#[test]
fn bids_never_rise_and_asks_never_fall() {
    let values: [u128; 9] = [5, 9, 1, 9, 3, 7, 7, 2, 8];
    let bids: Vec<BookOrder> =
        values.iter().enumerate().map(|(i, v)| order(true, *v, 1, i as u64)).collect();
    let asks: Vec<BookOrder> =
        values.iter().enumerate().map(|(i, v)| order(false, *v, 1, i as u64)).collect();
    let book = OrderBook::new(pool(), None, bids, asks, None);
    assert_eq!(prices(book.bids()), rays(&[9, 9, 8, 7, 7, 5, 3, 2, 1]));
    assert_eq!(prices(book.asks()), rays(&[1, 2, 3, 5, 7, 7, 8, 9, 9]));
    for pair in book.bids().windows(2) {
        assert!(pair[1].price().le(&pair[0].price()));
    }
    for pair in book.asks().windows(2) {
        assert!(pair[0].price().le(&pair[1].price()));
    }
}

#[test]
fn orders_at_one_price_keep_their_arrival_order() {
    let bids = vec![
        order(true, 10, 1, 0),
        order(true, 12, 1, 1),
        order(true, 10, 1, 2),
        order(true, 12, 1, 3),
        order(true, 10, 1, 4),
    ];
    let asks = bids
        .iter()
        .map(|o| BookOrder::new(o.pool_id, false, o.price, o.quantity, o.storage))
        .collect::<Vec<_>>();
    let book = OrderBook::new(pool(), None, bids, asks, None);
    let bid_arrivals: Vec<u64> = book.bids().iter().map(|o| o.storage.arrival).collect();
    let ask_arrivals: Vec<u64> = book.asks().iter().map(|o| o.storage.arrival).collect();
    assert_eq!(bid_arrivals, vec![1, 3, 0, 2, 4]);
    assert_eq!(ask_arrivals, vec![0, 2, 4, 1, 3]);
}

#[test]
fn lowest_bound_is_at_most_highest_bound() {
    let book = OrderBook::new(
        pool(),
        None,
        vec![order(true, 40, 1, 0), order(true, 3, 1, 1)],
        vec![order(false, 17, 1, 2)],
        None,
    );
    let low = book.lowest_clearing_price();
    let high = book.highest_clearing_price();
    assert_eq!(low, Ray::from_u128(3));
    assert_eq!(high, Ray::from_u128(40));
    assert!(low.le(&high));
}

#[test]
fn building_twice_gives_the_same_book() {
    let bids = vec![order(true, 10, 1, 0), order(true, 12, 2, 1), order(true, 10, 3, 2)];
    let asks = vec![order(false, 15, 1, 3), order(false, 11, 1, 4), order(false, 15, 2, 5)];
    let first = OrderBook::new(pool(), Some(snapshot()), bids.clone(), asks.clone(), None);
    let second = OrderBook::new(pool(), Some(snapshot()), bids, asks, None);
    assert_eq!(first, second);
    assert_eq!(first.lowest_clearing_price(), second.lowest_clearing_price());
    assert_eq!(first.highest_clearing_price(), second.highest_clearing_price());
}

#[test]
fn sorting_a_ranked_side_changes_nothing() {
    let mut bids = vec![order(true, 12, 1, 0), order(true, 12, 1, 1), order(true, 9, 1, 2)];
    let before = bids.clone();
    SortStrategy::ByPrice.sort_bids(&mut bids);
    assert_eq!(bids, before);
    let mut asks = vec![order(false, 9, 1, 0), order(false, 12, 1, 1), order(false, 12, 1, 2)];
    let before = asks.clone();
    SortStrategy::ByPrice.sort_asks(&mut asks);
    assert_eq!(asks, before);
}

#[test]
fn prices_beyond_128_bits_are_ranked_exactly() {
    let tiny = Ray::from_limbs([u64::MAX, u64::MAX, 0, 0]);
    let large = Ray::from_limbs([0, 0, 1, 0]);
    let larger = Ray::from_limbs([0, 0, 0, 1]);
    let mk = |price: Ray, arrival: u64| {
        BookOrder::new(
            pool(),
            false,
            price,
            1,
            StorageData { arrival, signer: [0u8; 20], slot: 0 },
        )
    };
    let asks = vec![mk(larger, 0), mk(tiny, 1), mk(large, 2)];
    let book = OrderBook::new(pool(), None, vec![], asks, None);
    assert_eq!(prices(book.asks()), vec![tiny, large, larger]);
    assert_eq!(book.lowest_clearing_price(), tiny);
    assert_eq!(book.highest_clearing_price(), larger);
}
