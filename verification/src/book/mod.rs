//! The order book of one pool.
//!
//! A book is built once for a matching round, from the orders that rest at
//! that moment, and is not changed afterwards. Its two sides stand in the
//! order that the book's [`SortStrategy`] gives them, and the book reports the
//! interval that any uniform clearing price has to lie in.
pub mod order;
pub mod sort;

use crate::book::order::{collect_prices, lemma_same_orders_same_prices, prices_of, BookOrder};
use crate::book::sort::{
    lemma_ask_side_unique, lemma_bid_side_unique, lemma_side_permutes, SortStrategy,
};
use crate::price::{
    highest_of, is_greatest, is_least, lemma_bounds_of_same_prices, lemma_lowest_at_most_highest,
    lowest_of, max_value, reduce_max, reduce_min, Ray,
};
use crate::primitive::PoolId;
use crate::snapshot::{PoolSnapshot, PoolSnapshotView};
use vstd::prelude::*;

verus! {

/// The book of one pool: its identity, the snapshot of its liquidity if there
/// is one, and the resting bids and asks in ranked order.
#[derive(Debug, PartialEq, Eq)]
pub struct OrderBook {
    id: PoolId,
    amm: Option<PoolSnapshot>,
    bids: Vec<BookOrder>,
    asks: Vec<BookOrder>,
    sort: SortStrategy,
}

/// A book as plain values.
#[verifier::ext_equal]
pub struct OrderBookView {
    /// The pool the book belongs to.
    pub id: PoolId,
    /// The snapshot of the pool's liquidity, if the book carries one.
    pub amm: Option<PoolSnapshotView>,
    /// The bids, best first.
    pub bids: Seq<BookOrder>,
    /// The asks, best first.
    pub asks: Seq<BookOrder>,
    /// The policy that ranked both sides.
    pub sort: SortStrategy,
}

/// The snapshot that a book holds, as plain values.
pub open spec fn snapshot_view(amm: Option<PoolSnapshot>) -> Option<PoolSnapshotView> {
    match amm {
        Some(snapshot) => Some(snapshot@),
        None => None,
    }
}

/// The policy that a book is built with when `sort` is what the caller chose.
pub open spec fn chosen_strategy(sort: Option<SortStrategy>) -> SortStrategy {
    match sort {
        Some(strategy) => strategy,
        None => SortStrategy::default_spec(),
    }
}

impl OrderBookView {
    /// Bids stand from the highest rank down and asks from the lowest rank
    /// up, under the book's own policy.
    pub open spec fn is_ranked(self) -> bool {
        self.sort.is_bid_ranked(self.bids) && self.sort.is_ask_ranked(self.asks)
    }

    /// The book holds no order on either side.
    pub open spec fn is_empty(self) -> bool {
        self.bids.len() == 0 && self.asks.len() == 0
    }

    /// The prices of all orders in the book: those of the bids, then those of
    /// the asks.
    pub open spec fn prices(self) -> Seq<Ray> {
        prices_of(self.bids) + prices_of(self.asks)
    }

    /// The least price of any order in the book; zero if the book is empty.
    pub open spec fn lowest_clearing_price(self) -> Ray {
        lowest_of(self.prices())
    }

    /// The greatest price of any order in the book; the largest price if the
    /// book is empty.
    pub open spec fn highest_clearing_price(self) -> Ray {
        highest_of(self.prices())
    }

    /// The book is what [`OrderBook::new`] builds from these arguments: the
    /// identity and the snapshot as given, and each side as the chosen policy
    /// arranges it.
    pub open spec fn is_construction_of(
        self,
        id: PoolId,
        amm: Option<PoolSnapshotView>,
        bids: Seq<BookOrder>,
        asks: Seq<BookOrder>,
        sort: Option<SortStrategy>,
    ) -> bool {
        &&& self.id == id
        &&& self.amm == amm
        &&& self.sort == chosen_strategy(sort)
        &&& self.sort.is_bid_side_of(self.bids, bids)
        &&& self.sort.is_ask_side_of(self.asks, asks)
    }
}

impl View for OrderBook {
    type V = OrderBookView;

    closed spec fn view(&self) -> OrderBookView {
        OrderBookView {
            id: self.id,
            amm: snapshot_view(self.amm),
            bids: self.bids@,
            asks: self.asks@,
            sort: self.sort,
        }
    }
}

impl OrderBook {
    #[verifier::type_invariant]
    spec fn inv(&self) -> bool {
        self@.is_ranked()
    }

    /// Builds the book of pool `id` from the resting `bids` and `asks`, each in
    /// order of arrival. Both sides are ranked by `sort`, or by the default
    /// policy where `sort` is `None`. The snapshot is carried as it is.
    pub fn new(
        id: PoolId,
        amm: Option<PoolSnapshot>,
        bids: Vec<BookOrder>,
        asks: Vec<BookOrder>,
        sort: Option<SortStrategy>,
    ) -> (book: OrderBook)
        ensures
            book@.is_construction_of(id, snapshot_view(amm), bids@, asks@, sort),
            book@.bids == chosen_strategy(sort).bid_side(bids@),
            book@.asks == chosen_strategy(sort).ask_side(asks@),
            book@.bids.to_multiset() == bids@.to_multiset(),
            book@.asks.to_multiset() == asks@.to_multiset(),
            book@.bids.len() == bids@.len(),
            book@.asks.len() == asks@.len(),
            book@.is_ranked(),
    {
        let strategy = match sort {
            Some(strategy) => strategy,
            None => SortStrategy::default(),
        };
        let mut bids = bids;
        let mut asks = asks;
        strategy.sort_bids(&mut bids);
        strategy.sort_asks(&mut asks);
        OrderBook { id, amm, bids, asks, sort: strategy }
    }

    /// The book of pool `id` with the given sides, taken as they are: `bids`
    /// and `asks` have to stand in the order that `sort` gives them already.
    /// Where they do not, there is no such book.
    pub fn from_ranked(
        id: PoolId,
        amm: Option<PoolSnapshot>,
        bids: Vec<BookOrder>,
        asks: Vec<BookOrder>,
        sort: SortStrategy,
    ) -> (r: Option<OrderBook>)
        ensures
            r is Some <==> sort.is_bid_ranked(bids@) && sort.is_ask_ranked(asks@),
            r is Some ==> r->Some_0@ == (OrderBookView {
                id,
                amm: snapshot_view(amm),
                bids: bids@,
                asks: asks@,
                sort,
            }),
    {
        if sort.ranks_bids(bids.as_slice()) && sort.ranks_asks(asks.as_slice()) {
            Some(OrderBook { id, amm, bids, asks, sort })
        } else {
            None
        }
    }

    /// The pool the book belongs to.
    pub fn id(&self) -> (id: PoolId)
        ensures
            id == self@.id,
    {
        self.id
    }

    /// The bids, from the highest rank down.
    pub fn bids(&self) -> (bids: &[BookOrder])
        ensures
            bids@ == self@.bids,
            self@.sort.is_bid_ranked(bids@),
    {
        proof {
            use_type_invariant(self);
        }
        self.bids.as_slice()
    }

    /// The asks, from the lowest rank up.
    pub fn asks(&self) -> (asks: &[BookOrder])
        ensures
            asks@ == self@.asks,
            self@.sort.is_ask_ranked(asks@),
    {
        proof {
            use_type_invariant(self);
        }
        self.asks.as_slice()
    }

    /// The snapshot of the pool's liquidity, if the book carries one.
    pub fn amm(&self) -> (amm: Option<&PoolSnapshot>)
        ensures
            amm is Some <==> self@.amm is Some,
            amm is Some ==> amm->Some_0@ == self@.amm->Some_0,
    {
        self.amm.as_ref()
    }

    /// The policy that ranked both sides of the book.
    pub fn sort_strategy(&self) -> (sort: SortStrategy)
        ensures
            sort == self@.sort,
    {
        self.sort
    }

    /// The prices of all orders in the book, bids first.
    fn all_prices(&self) -> (prices: Vec<Ray>)
        ensures
            prices@ == self@.prices(),
    {
        let mut prices: Vec<Ray> = Vec::new();
        collect_prices(&self.bids, &mut prices);
        collect_prices(&self.asks, &mut prices);
        proof {
            assert(prices@ =~= self@.prices());
        }
        prices
    }

    /// The lower end of the interval in which a clearing price can lie: the
    /// least price of any order on either side, and zero for an empty book.
    pub fn lowest_clearing_price(&self) -> (price: Ray)
        ensures
            price == self@.lowest_clearing_price(),
            self@.is_empty() ==> price@ == 0,
            !self@.is_empty() ==> is_least(price, self@.prices()),
    {
        let prices = self.all_prices();
        reduce_min(&prices)
    }

    /// The upper end of the interval in which a clearing price can lie: the
    /// greatest price of any order on either side, and the largest price for
    /// an empty book.
    pub fn highest_clearing_price(&self) -> (price: Ray)
        ensures
            price == self@.highest_clearing_price(),
            self@.is_empty() ==> price@ == max_value(),
            !self@.is_empty() ==> is_greatest(price, self@.prices()),
    {
        let prices = self.all_prices();
        reduce_max(&prices)
    }
}

impl Default for OrderBook {
    /// The empty book of the all-zero pool, without a snapshot.
    fn default() -> (book: OrderBook)
        ensures
            book@.is_empty(),
            book@.amm is None,
            book@.sort == SortStrategy::default_spec(),
            forall|i: int| 0 <= i < 32 ==> book@.id.bytes@[i] == 0,
    {
        OrderBook {
            id: PoolId::default(),
            amm: None,
            bids: Vec::new(),
            asks: Vec::new(),
            sort: SortStrategy::default(),
        }
    }
}

/// Whenever a book holds an order, its lowest clearing price is at most its
/// highest.
pub proof fn lemma_clearing_bounds_ordered(book: OrderBookView)
    requires
        !book.is_empty(),
    ensures
        book.lowest_clearing_price()@ <= book.highest_clearing_price()@,
{
    lemma_lowest_at_most_highest(book.prices());
}

/// A book without orders, with or without a snapshot, has zero as its lowest
/// clearing price and the largest price as its highest.
pub proof fn lemma_empty_book_bounds(book: OrderBookView)
    requires
        book.is_empty(),
    ensures
        book.lowest_clearing_price()@ == 0,
        book.highest_clearing_price()@ == max_value(),
{
}

/// The clearing bounds of a book are the least and the greatest price among
/// the orders it was built from: ranking the sides does not move the bounds.
pub proof fn lemma_clearing_bounds_of_orders(
    book: OrderBookView,
    id: PoolId,
    amm: Option<PoolSnapshotView>,
    bids: Seq<BookOrder>,
    asks: Seq<BookOrder>,
    sort: Option<SortStrategy>,
)
    requires
        book.is_construction_of(id, amm, bids, asks, sort),
    ensures
        book.lowest_clearing_price() == lowest_of(prices_of(bids) + prices_of(asks)),
        book.highest_clearing_price() == highest_of(prices_of(bids) + prices_of(asks)),
{
    lemma_side_permutes(book.sort, book.bids, bids);
    lemma_side_permutes(book.sort, book.asks, asks);
    let given = prices_of(bids) + prices_of(asks);
    let held = book.prices();
    assert forall|r: Ray| held.contains(r) <==> given.contains(r) by {
        lemma_same_orders_same_prices(book.bids, bids, r);
        lemma_same_orders_same_prices(book.asks, asks, r);
        lemma_contains_of_add(prices_of(book.bids), prices_of(book.asks), r);
        lemma_contains_of_add(prices_of(bids), prices_of(asks), r);
    }
    lemma_bounds_of_same_prices(held, given);
}

/// A price stands in a concatenation exactly if it stands in one of its two
/// parts.
proof fn lemma_contains_of_add(first: Seq<Ray>, second: Seq<Ray>, r: Ray)
    ensures
        (first + second).contains(r) <==> first.contains(r) || second.contains(r),
{
    let both = first + second;
    if both.contains(r) {
        let i = choose|i: int| 0 <= i < both.len() && both[i] == r;
        if i < first.len() {
            assert(first[i] == r);
        } else {
            assert(second[i - first.len()] == r);
        }
    }
    if first.contains(r) {
        let i = choose|i: int| 0 <= i < first.len() && first[i] == r;
        assert(both[i] == r);
    }
    if second.contains(r) {
        let i = choose|i: int| 0 <= i < second.len() && second[i] == r;
        assert(both[first.len() + i] == r);
    }
}

/// Building a book is a function of its arguments: two books built from the
/// same identity, snapshot, bids, asks and policy are equal, side by side and
/// order by order, and so are their clearing bounds.
pub proof fn lemma_construction_is_deterministic(
    first: OrderBookView,
    second: OrderBookView,
    id: PoolId,
    amm: Option<PoolSnapshotView>,
    bids: Seq<BookOrder>,
    asks: Seq<BookOrder>,
    sort: Option<SortStrategy>,
)
    requires
        first.is_construction_of(id, amm, bids, asks, sort),
        second.is_construction_of(id, amm, bids, asks, sort),
    ensures
        first == second,
        first.lowest_clearing_price() == second.lowest_clearing_price(),
        first.highest_clearing_price() == second.highest_clearing_price(),
{
    lemma_bid_side_unique(first.sort, first.bids, second.bids, bids);
    lemma_ask_side_unique(first.sort, first.asks, second.asks, asks);
    assert(first =~= second);
}

} // verus!
