//! Resting orders.
use crate::price::Ray;
use crate::primitive::PoolId;
use vstd::prelude::*;
use vstd::seq_lib::to_multiset_contains;

verus! {

/// Where an order came from and where it is kept.
#[derive(Clone, Copy, Debug, PartialEq, Eq, Hash)]
pub struct StorageData {
    /// Position of the order in the sequence of arrivals.
    pub arrival: u64,
    /// The 20-byte address that signed the order.
    pub signer: [u8; 20],
    /// The slot in which the order was stored.
    pub slot: u64,
}

/// One resting intent to buy or to sell. The book never changes an order; it
/// only decides where the order stands.
#[derive(Clone, Copy, Debug, PartialEq, Eq, Hash)]
pub struct BookOrder {
    /// The pool the order trades in.
    pub pool_id: PoolId,
    /// Whether the order buys (`true`) or sells (`false`).
    pub is_bid: bool,
    /// The limit price.
    pub price: Ray,
    /// The amount offered.
    pub quantity: u128,
    /// Provenance of the order.
    pub storage: StorageData,
}

impl BookOrder {
    /// An order with the given fields.
    pub fn new(pool_id: PoolId, is_bid: bool, price: Ray, quantity: u128, storage: StorageData) -> (order:
        BookOrder)
        ensures
            order == (BookOrder { pool_id, is_bid, price, quantity, storage }),
    {
        BookOrder { pool_id, is_bid, price, quantity, storage }
    }

    /// The limit price of the order.
    pub fn price(&self) -> (price: Ray)
        ensures
            price == self.price,
    {
        self.price
    }
}

/// The prices of `orders`, position by position.
pub open spec fn prices_of(orders: Seq<BookOrder>) -> Seq<Ray> {
    Seq::new(orders.len(), |i: int| orders[i].price)
}

/// Two sequences that hold the same orders show the same prices, whatever
/// the order in which each holds them.
pub proof fn lemma_same_orders_same_prices(first: Seq<BookOrder>, second: Seq<BookOrder>, price: Ray)
    requires
        first.to_multiset() == second.to_multiset(),
    ensures
        prices_of(first).contains(price) <==> prices_of(second).contains(price),
{
    if prices_of(first).contains(price) {
        let i = choose|i: int| 0 <= i < prices_of(first).len() && prices_of(first)[i] == price;
        assert(first.contains(first[i]));
        to_multiset_contains(first, first[i]);
        to_multiset_contains(second, first[i]);
        let j = choose|j: int| 0 <= j < second.len() && second[j] == first[i];
        assert(prices_of(second)[j] == price);
    }
    if prices_of(second).contains(price) {
        let i = choose|i: int| 0 <= i < prices_of(second).len() && prices_of(second)[i] == price;
        assert(second.contains(second[i]));
        to_multiset_contains(second, second[i]);
        to_multiset_contains(first, second[i]);
        let j = choose|j: int| 0 <= j < first.len() && first[j] == second[i];
        assert(prices_of(first)[j] == price);
    }
}

/// Appends the prices of `orders` to `prices`.
pub fn collect_prices(orders: &Vec<BookOrder>, prices: &mut Vec<Ray>)
    ensures
        final(prices)@ == old(prices)@ + prices_of(orders@),
{
    let ghost before = prices@;
    let mut i: usize = 0;
    while i < orders.len()
        invariant
            i <= orders.len(),
            prices@ == before + prices_of(orders@.take(i as int)),
        decreases orders.len() - i,
    {
        prices.push(orders[i].price());
        i += 1;
        assert(prices@ =~= before + prices_of(orders@.take(i as int)));
    }
    assert(orders@.take(i as int) =~= orders@);
}

} // verus!
