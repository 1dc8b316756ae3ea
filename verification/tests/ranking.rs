use matching_engine::book::order::{BookOrder, StorageData};
use matching_engine::book::sort::{SideRanking, SortStrategy};
use matching_engine::price::Ray;
use matching_engine::primitive::PoolId;
use matching_engine::ranking::{stable_sort, Ranking};
use matching_engine::snapshot::{LiqRange, LowerTickRanking};

fn order(price: u128, arrival: u64) -> BookOrder {
    let storage = StorageData { arrival, signer: [1u8; 20], slot: 0 };
    BookOrder::new(PoolId::new([0u8; 32]), true, Ray::from_u128(price), 1, storage)
}

#[test]
fn stable_sort_of_few_items() {
    let ranking = SideRanking { strategy: SortStrategy::ByPrice, descending: false };
    let mut none: Vec<BookOrder> = vec![];
    stable_sort(&mut none, &ranking);
    assert!(none.is_empty());
    let mut one = vec![order(4, 0)];
    stable_sort(&mut one, &ranking);
    assert_eq!(one, vec![order(4, 0)]);
    let mut two = vec![order(4, 0), order(2, 1)];
    stable_sort(&mut two, &ranking);
    assert_eq!(two, vec![order(2, 1), order(4, 0)]);
}

#[test]
fn stable_sort_keeps_ties_in_place() {
    let ascending = SideRanking { strategy: SortStrategy::ByPrice, descending: false };
    let descending = SideRanking { strategy: SortStrategy::ByPrice, descending: true };
    let input: Vec<BookOrder> = [3u128, 1, 3, 2, 1, 3, 2]
        .iter()
        .enumerate()
        .map(|(i, p)| order(*p, i as u64))
        .collect();
    let mut up = input.clone();
    stable_sort(&mut up, &ascending);
    let arrivals: Vec<u64> = up.iter().map(|o| o.storage.arrival).collect();
    assert_eq!(arrivals, vec![1, 4, 3, 6, 0, 2, 5]);
    let mut down = input;
    stable_sort(&mut down, &descending);
    let arrivals: Vec<u64> = down.iter().map(|o| o.storage.arrival).collect();
    assert_eq!(arrivals, vec![0, 2, 5, 3, 6, 1, 4]);
}

#[test]
fn stable_sort_matches_the_standard_stable_sort() {
    let ranking = SideRanking { strategy: SortStrategy::ByPrice, descending: false };
    let mut state: u64 = 0x2545_f491_4f6c_dd1d;
    let mut input: Vec<BookOrder> = Vec::new();
    for i in 0..257u64 {
        state ^= state << 13;
        state ^= state >> 7;
        state ^= state << 17;
        input.push(order((state % 16) as u128, i));
    }
    let mut expected = input.clone();
    expected.sort_by_key(|o| o.price().into_limbs()[0]);
    let mut sorted = input;
    stable_sort(&mut sorted, &ranking);
    assert_eq!(sorted, expected);
}

#[test]
fn side_ranking_compares_ranks() {
    let bids = SideRanking { strategy: SortStrategy::ByPrice, descending: true };
    let asks = SideRanking { strategy: SortStrategy::ByPrice, descending: false };
    assert!(bids.before(&order(9, 0), &order(4, 1)));
    assert!(!bids.before(&order(4, 0), &order(9, 1)));
    assert!(!bids.before(&order(4, 0), &order(4, 1)));
    assert!(asks.before(&order(4, 0), &order(9, 1)));
    assert!(!asks.before(&order(9, 0), &order(4, 1)));
    assert!(SortStrategy::ByPrice.ranks_below(&order(4, 0), &order(9, 1)));
    assert!(!SortStrategy::ByPrice.ranks_below(&order(9, 0), &order(9, 1)));
}

#[test]
fn ranges_are_ranked_by_lower_tick() {
    let a = LiqRange::new(0, 10, 1).unwrap();
    let b = LiqRange::new(5, 6, 1).unwrap();
    assert!(LowerTickRanking.before(&a, &b));
    assert!(!LowerTickRanking.before(&b, &a));
    assert!(!LowerTickRanking.before(&a, &a));
}
