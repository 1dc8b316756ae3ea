use matching_engine::book::order::{BookOrder, StorageData};
use matching_engine::book::sort::SortStrategy;
use matching_engine::book::OrderBook;
use matching_engine::encoding::{BOOK_HEAD, ORDER_LEN, RANGE_LEN, SNAPSHOT_HEAD};
use matching_engine::price::Ray;
use matching_engine::primitive::PoolId;
use matching_engine::snapshot::{LiqRange, PoolSnapshot, SqrtPriceX96};

fn some_order(is_bid: bool, price: u128, arrival: u64) -> BookOrder {
    let mut signer = [0u8; 20];
    for (i, b) in signer.iter_mut().enumerate() {
        *b = (arrival as u8).wrapping_mul(7).wrapping_add(i as u8);
    }
    let mut id = [0u8; 32];
    for (i, b) in id.iter_mut().enumerate() {
        *b = 200u8.wrapping_add(i as u8);
    }
    BookOrder::new(
        PoolId::new(id),
        is_bid,
        Ray::from_limbs([price as u64, 0x1111_2222_3333_4444, 5, u64::MAX - 1]),
        (u64::MAX as u128) * 3 + arrival as u128,
        StorageData { arrival, signer, slot: 1_000_000 + arrival },
    )
}

fn some_snapshot() -> PoolSnapshot {
    let ranges = vec![
        LiqRange::new(-600, -60, 7).unwrap(),
        LiqRange::new(-60, 120, u128::MAX).unwrap(),
        LiqRange::new(120, 887272, 0).unwrap(),
    ];
    PoolSnapshot::new(ranges, SqrtPriceX96::at_tick(-61).unwrap()).unwrap()
}

fn some_book(with_snapshot: bool) -> OrderBook {
    let bids = vec![some_order(true, 10, 0), some_order(true, 12, 1), some_order(true, 10, 2)];
    let asks = vec![some_order(false, 15, 3), some_order(false, 11, 4)];
    let amm = if with_snapshot { Some(some_snapshot()) } else { None };
    OrderBook::new(PoolId::new([9u8; 32]), amm, bids, asks, None)
}

#[test]
fn a_book_survives_encoding() {
    let book = some_book(true);
    let bytes = book.encode();
    assert_eq!(
        bytes.len(),
        BOOK_HEAD + SNAPSHOT_HEAD + 3 * RANGE_LEN + 8 + 3 * ORDER_LEN + 8 + 2 * ORDER_LEN
    );
    let back = OrderBook::decode(&bytes).unwrap();
    assert_eq!(back, book);
    assert_eq!(back.bids(), book.bids());
    assert_eq!(back.asks(), book.asks());
    assert_eq!(back.amm(), book.amm());
    assert_eq!(back.id(), book.id());
    assert_eq!(back.encode(), bytes);
}

#[test]
fn a_book_without_snapshot_survives_encoding() {
    let book = some_book(false);
    let bytes = book.encode();
    assert_eq!(bytes.len(), BOOK_HEAD + 8 + 3 * ORDER_LEN + 8 + 2 * ORDER_LEN);
    assert_eq!(OrderBook::decode(&bytes), Some(book));
}

#[test]
fn the_empty_book_takes_fifty_bytes() {
    let book = OrderBook::default();
    let bytes = book.encode();
    assert_eq!(bytes, vec![0u8; 50]);
    assert_eq!(OrderBook::decode(&bytes), Some(book));
}

#[test]
fn fields_stand_where_the_layout_says() {
    let order = BookOrder::new(
        PoolId::new([0xaa; 32]),
        true,
        Ray::from_limbs([1, 2, 3, 4]),
        0x0102_0304_0506_0708_090a_0b0c_0d0e_0f10,
        StorageData { arrival: 0x11, signer: [0xbb; 20], slot: 0x2233 },
    );
    let book = OrderBook::new(PoolId::new([0xcc; 32]), None, vec![order], vec![], None);
    let bytes = book.encode();
    let mut expected: Vec<u8> = Vec::new();
    expected.extend_from_slice(&[0xcc; 32]);
    expected.push(0);
    expected.push(0);
    expected.extend_from_slice(&1u64.to_le_bytes());
    expected.extend_from_slice(&[0xaa; 32]);
    expected.push(1);
    for limb in [1u64, 2, 3, 4] {
        expected.extend_from_slice(&limb.to_le_bytes());
    }
    expected.extend_from_slice(&0x0102_0304_0506_0708_090a_0b0c_0d0e_0f10u128.to_le_bytes());
    expected.extend_from_slice(&0x11u64.to_le_bytes());
    expected.extend_from_slice(&[0xbb; 20]);
    expected.extend_from_slice(&0x2233u64.to_le_bytes());
    expected.extend_from_slice(&0u64.to_le_bytes());
    assert_eq!(bytes, expected);
}

#[test]
fn a_snapshot_is_written_with_ticks_counted_from_the_lowest() {
    let snapshot = PoolSnapshot::with_tick(
        vec![LiqRange::new(-887272, -887270, 5).unwrap()],
        SqrtPriceX96::from_limbs([6, 7, 8, 9]),
        Some(-887271),
    )
    .unwrap();
    let book = OrderBook::new(PoolId::new([0; 32]), Some(snapshot), vec![], vec![], None);
    let bytes = book.encode();
    let mut expected: Vec<u8> = vec![0u8; 33];
    expected.push(1);
    for limb in [6u64, 7, 8, 9] {
        expected.extend_from_slice(&limb.to_le_bytes());
    }
    expected.extend_from_slice(&1u64.to_le_bytes());
    expected.extend_from_slice(&1u64.to_le_bytes());
    expected.extend_from_slice(&0u64.to_le_bytes());
    expected.extend_from_slice(&2u64.to_le_bytes());
    expected.extend_from_slice(&5u128.to_le_bytes());
    expected.extend_from_slice(&0u64.to_le_bytes());
    expected.extend_from_slice(&0u64.to_le_bytes());
    assert_eq!(bytes, expected);
    assert_eq!(OrderBook::decode(&bytes), Some(book));
}

#[test]
fn bytes_that_end_early_or_go_on_are_refused() {
    let bytes = some_book(true).encode();
    for cut in 0..bytes.len() {
        assert_eq!(OrderBook::decode(&bytes[..cut]), None, "cut at {}", cut);
    }
    let mut longer = bytes.clone();
    longer.push(0);
    assert_eq!(OrderBook::decode(&longer), None);
    assert!(OrderBook::decode(&bytes).is_some());
}

#[test]
fn bytes_with_a_wrong_field_are_refused() {
    let bytes = some_book(false).encode();
    let mut bad_sort = bytes.clone();
    bad_sort[32] = 1;
    assert_eq!(OrderBook::decode(&bad_sort), None);
    let mut bad_tag = bytes.clone();
    bad_tag[33] = 2;
    assert_eq!(OrderBook::decode(&bad_tag), None);
    let mut bad_side = bytes.clone();
    bad_side[BOOK_HEAD + 8 + 32] = 2;
    assert_eq!(OrderBook::decode(&bad_side), None);
    let mut bad_count = bytes.clone();
    bad_count[BOOK_HEAD + 7] = 0xff;
    assert_eq!(OrderBook::decode(&bad_count), None);
}

#[test]
fn sides_out_of_order_are_refused() {
    let book = some_book(false);
    let mut bytes = book.encode();
    let first = BOOK_HEAD + 8;
    let second = first + ORDER_LEN;
    let (a, b) = (bytes[first..second].to_vec(), bytes[second..second + ORDER_LEN].to_vec());
    assert_ne!(a[33], b[33]);
    bytes[first..second].copy_from_slice(&b);
    bytes[second..second + ORDER_LEN].copy_from_slice(&a);
    assert_eq!(OrderBook::decode(&bytes), None);
}

#[test]
fn a_snapshot_that_is_not_valid_is_refused() {
    let bytes = some_book(true).encode();
    let ranges = BOOK_HEAD + SNAPSHOT_HEAD;
    let mut gap = bytes.clone();
    gap[ranges + RANGE_LEN] ^= 1;
    assert_eq!(OrderBook::decode(&gap), None);
    let mut empty_range = bytes.clone();
    let lower: [u8; 8] = empty_range[ranges..ranges + 8].try_into().unwrap();
    empty_range[ranges + 8..ranges + 16].copy_from_slice(&lower);
    assert_eq!(OrderBook::decode(&empty_range), None);
    let mut far_tick = bytes.clone();
    far_tick[BOOK_HEAD + 32..BOOK_HEAD + 40].copy_from_slice(&u64::MAX.to_le_bytes());
    assert_eq!(OrderBook::decode(&far_tick), None);
    let mut outside = bytes.clone();
    outside[BOOK_HEAD + 32..BOOK_HEAD + 40].copy_from_slice(&0u64.to_le_bytes());
    assert_eq!(OrderBook::decode(&outside), None);
    let mut too_many = bytes;
    too_many[BOOK_HEAD + 40..BOOK_HEAD + 48].copy_from_slice(&u64::MAX.to_le_bytes());
    assert_eq!(OrderBook::decode(&too_many), None);
}

#[test]
fn a_ranked_book_is_taken_as_it_is() {
    let bids = vec![some_order(true, 12, 0), some_order(true, 10, 1), some_order(true, 10, 2)];
    let asks = vec![some_order(false, 11, 3), some_order(false, 15, 4)];
    let id = PoolId::new([9u8; 32]);
    let book =
        OrderBook::from_ranked(id, None, bids.clone(), asks.clone(), SortStrategy::ByPrice).unwrap();
    assert_eq!(book.bids(), &bids[..]);
    assert_eq!(book.asks(), &asks[..]);
    assert_eq!(book, OrderBook::new(id, None, bids.clone(), asks.clone(), None));
    let mut wrong = bids.clone();
    wrong.swap(0, 1);
    assert_eq!(OrderBook::from_ranked(id, None, wrong, asks.clone(), SortStrategy::ByPrice), None);
    let mut wrong = asks;
    wrong.swap(0, 1);
    assert_eq!(OrderBook::from_ranked(id, None, bids, wrong, SortStrategy::ByPrice), None);
}

#[test]
fn ranked_sides_are_recognised() {
    let s = SortStrategy::ByPrice;
    let down = vec![some_order(true, 5, 0), some_order(true, 5, 1), some_order(true, 2, 2)];
    let up = vec![some_order(false, 2, 0), some_order(false, 5, 1), some_order(false, 5, 2)];
    assert!(s.ranks_bids(&down));
    assert!(!s.ranks_asks(&down));
    assert!(s.ranks_asks(&up));
    assert!(!s.ranks_bids(&up));
    assert!(s.ranks_bids(&[]));
    assert!(s.ranks_asks(&[]));
    assert!(s.ranks_bids(&down[..1]));
    let mixed = vec![some_order(true, 5, 0), some_order(true, 7, 1), some_order(true, 6, 2)];
    assert!(!s.ranks_bids(&mixed));
    assert!(!s.ranks_asks(&mixed));
}
