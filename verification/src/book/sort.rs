//! Ranking policies for the two sides of a book.
//!
//! A policy gives every order a rank. Bids are arranged from the highest rank
//! down, asks from the lowest rank up, and orders of equal rank stay in the
//! order in which they arrived.
use crate::book::order::BookOrder;
use crate::ranking::{
    is_stable_sort_of, lemma_stable_sort_permutes, lemma_stable_sort_unique, lemma_with_key_empty,
    stable_sort, with_key, Ranking,
};
use vstd::prelude::*;

verus! {

/// The closed set of ranking policies.
#[derive(Clone, Copy, Debug, PartialEq, Eq, Hash)]
pub enum SortStrategy {
    /// Rank an order by its price alone.
    ByPrice,
}

/// The policy that a book is built with when the caller names none.
pub const DEFAULT_STRATEGY: SortStrategy = SortStrategy::ByPrice;

/// A policy applied to one side of the book, as a [`Ranking`]: descending for
/// bids, ascending for asks.
pub struct SideRanking {
    /// The policy that ranks the orders.
    pub strategy: SortStrategy,
    /// Whether higher ranks come first.
    pub descending: bool,
}

impl Ranking<BookOrder> for SideRanking {
    open spec fn key(&self, item: BookOrder) -> int {
        if self.descending {
            -(self.strategy.rank(item) as int)
        } else {
            self.strategy.rank(item) as int
        }
    }

    fn before(&self, a: &BookOrder, b: &BookOrder) -> (r: bool) {
        if self.descending {
            self.strategy.ranks_below(b, a)
        } else {
            self.strategy.ranks_below(a, b)
        }
    }
}

impl SortStrategy {
    /// The policy used when none is chosen: [`DEFAULT_STRATEGY`].
    pub open spec fn default_spec() -> SortStrategy {
        DEFAULT_STRATEGY
    }

    /// The rank of an order under this policy.
    pub open spec fn rank(self, order: BookOrder) -> nat {
        match self {
            SortStrategy::ByPrice => order.price@,
        }
    }

    /// Ranks never increase along `orders`: the order of a bid side.
    pub open spec fn is_bid_ranked(self, orders: Seq<BookOrder>) -> bool {
        forall|i: int, j: int|
            0 <= i < j < orders.len() ==> self.rank(orders[i]) >= self.rank(orders[j])
    }

    /// Ranks never decrease along `orders`: the order of an ask side.
    pub open spec fn is_ask_ranked(self, orders: Seq<BookOrder>) -> bool {
        forall|i: int, j: int|
            0 <= i < j < orders.len() ==> self.rank(orders[i]) <= self.rank(orders[j])
    }

    /// The orders of `orders` that have rank `rank`, in the order in which
    /// `orders` holds them.
    pub open spec fn at_rank(self, orders: Seq<BookOrder>, rank: nat) -> Seq<BookOrder> {
        orders.filter(|order: BookOrder| self.rank(order) == rank)
    }

    /// Orders of equal rank stand in `output` as they stood in `input`, and no
    /// order is lost or added.
    pub open spec fn keeps_arrival_order(
        self,
        output: Seq<BookOrder>,
        input: Seq<BookOrder>,
    ) -> bool {
        forall|rank: nat| #[trigger] self.at_rank(output, rank) == self.at_rank(input, rank)
    }

    /// `output` is the bid side that this policy makes of `input`.
    pub open spec fn is_bid_side_of(self, output: Seq<BookOrder>, input: Seq<BookOrder>) -> bool {
        self.is_bid_ranked(output) && self.keeps_arrival_order(output, input)
    }

    /// `output` is the ask side that this policy makes of `input`.
    pub open spec fn is_ask_side_of(self, output: Seq<BookOrder>, input: Seq<BookOrder>) -> bool {
        self.is_ask_ranked(output) && self.keeps_arrival_order(output, input)
    }

    /// The bid side that this policy makes of `input`: the one sequence that
    /// [`Self::is_bid_side_of`] accepts for it.
    pub open spec fn bid_side(self, input: Seq<BookOrder>) -> Seq<BookOrder> {
        choose|output: Seq<BookOrder>| self.is_bid_side_of(output, input)
    }

    /// The ask side that this policy makes of `input`: the one sequence that
    /// [`Self::is_ask_side_of`] accepts for it.
    pub open spec fn ask_side(self, input: Seq<BookOrder>) -> Seq<BookOrder> {
        choose|output: Seq<BookOrder>| self.is_ask_side_of(output, input)
    }

    /// Whether `a` ranks strictly below `b`.
    pub fn ranks_below(&self, a: &BookOrder, b: &BookOrder) -> (r: bool)
        ensures
            r == (self.rank(*a) < self.rank(*b)),
    {
        match self {
            SortStrategy::ByPrice => a.price.lt(&b.price),
        }
    }

    /// Whether ranks never increase along `bids`.
    pub fn ranks_bids(&self, bids: &[BookOrder]) -> (r: bool)
        ensures
            r == self.is_bid_ranked(bids@),
    {
        let mut k: usize = 1;
        while k < bids.len()
            invariant
                1 <= k,
                forall|i: int, j: int|
                    0 <= i < j < k && j < bids@.len() ==> self.rank(bids@[i]) >= self.rank(bids@[j]),
            decreases bids.len() - k,
        {
            if self.ranks_below(&bids[k - 1], &bids[k]) {
                return false;
            }
            assert forall|i: int, j: int| 0 <= i < j < k + 1 && j < bids@.len() implies self.rank(
                bids@[i],
            ) >= self.rank(bids@[j]) by {
                if j == k && i < k - 1 {
                    assert(self.rank(bids@[i]) >= self.rank(bids@[k - 1]));
                }
            }
            k += 1;
        }
        true
    }

    /// Whether ranks never decrease along `asks`.
    pub fn ranks_asks(&self, asks: &[BookOrder]) -> (r: bool)
        ensures
            r == self.is_ask_ranked(asks@),
    {
        let mut k: usize = 1;
        while k < asks.len()
            invariant
                1 <= k,
                forall|i: int, j: int|
                    0 <= i < j < k && j < asks@.len() ==> self.rank(asks@[i]) <= self.rank(asks@[j]),
            decreases asks.len() - k,
        {
            if self.ranks_below(&asks[k], &asks[k - 1]) {
                return false;
            }
            assert forall|i: int, j: int| 0 <= i < j < k + 1 && j < asks@.len() implies self.rank(
                asks@[i],
            ) <= self.rank(asks@[j]) by {
                if j == k && i < k - 1 {
                    assert(self.rank(asks@[i]) <= self.rank(asks@[k - 1]));
                }
            }
            k += 1;
        }
        true
    }

    /// Arranges `bids` from the highest rank down. Bids of equal rank keep
    /// their arrival order.
    pub fn sort_bids(&self, bids: &mut Vec<BookOrder>)
        ensures
            self.is_bid_side_of(final(bids)@, old(bids)@),
            final(bids)@ == self.bid_side(old(bids)@),
            final(bids)@.to_multiset() == old(bids)@.to_multiset(),
            final(bids)@.len() == old(bids)@.len(),
    {
        let ranking = SideRanking { strategy: *self, descending: true };
        let ghost input = bids@;
        stable_sort(bids, &ranking);
        proof {
            lemma_side_from_stable_sort(ranking, bids@, input);
            lemma_bid_side_unique(*self, bids@, self.bid_side(input), input);
        }
    }

    /// Arranges `asks` from the lowest rank up. Asks of equal rank keep their
    /// arrival order.
    pub fn sort_asks(&self, asks: &mut Vec<BookOrder>)
        ensures
            self.is_ask_side_of(final(asks)@, old(asks)@),
            final(asks)@ == self.ask_side(old(asks)@),
            final(asks)@.to_multiset() == old(asks)@.to_multiset(),
            final(asks)@.len() == old(asks)@.len(),
    {
        let ranking = SideRanking { strategy: *self, descending: false };
        let ghost input = asks@;
        stable_sort(asks, &ranking);
        proof {
            lemma_side_from_stable_sort(ranking, asks@, input);
            lemma_ask_side_unique(*self, asks@, self.ask_side(input), input);
        }
    }
}

impl Default for SortStrategy {
    fn default() -> (strategy: SortStrategy)
        ensures
            strategy == SortStrategy::default_spec(),
    {
        DEFAULT_STRATEGY
    }
}

/// `output` is the side that `ranking` makes of `input`.
spec fn is_side_of(
    ranking: SideRanking,
    output: Seq<BookOrder>,
    input: Seq<BookOrder>,
) -> bool {
    if ranking.descending {
        ranking.strategy.is_bid_side_of(output, input)
    } else {
        ranking.strategy.is_ask_side_of(output, input)
    }
}

/// The key that a side's ranking gives to the orders of rank `rank`.
spec fn key_of_rank(ranking: SideRanking, rank: nat) -> int {
    if ranking.descending {
        -(rank as int)
    } else {
        rank as int
    }
}

/// The orders with a given rank are the items with the key of that rank.
proof fn lemma_rank_class_is_key_class(ranking: SideRanking, orders: Seq<BookOrder>, rank: nat)
    ensures
        ranking.strategy.at_rank(orders, rank) == with_key(
            &ranking,
            orders,
            key_of_rank(ranking, rank),
        ),
    decreases orders.len(),
{
    reveal(Seq::filter);
    if orders.len() > 0 {
        lemma_rank_class_is_key_class(ranking, orders.drop_last(), rank);
    }
}

/// What [`stable_sort`] promises under a side's ranking is what the policy
/// promises of that side.
proof fn lemma_side_from_stable_sort(
    ranking: SideRanking,
    output: Seq<BookOrder>,
    input: Seq<BookOrder>,
)
    requires
        is_stable_sort_of(&ranking, output, input),
    ensures
        is_side_of(ranking, output, input),
{
    let strategy = ranking.strategy;
    assert forall|rank: nat| #[trigger]
        strategy.at_rank(output, rank) == strategy.at_rank(input, rank) by {
        lemma_rank_class_is_key_class(ranking, output, rank);
        lemma_rank_class_is_key_class(ranking, input, rank);
        let key = key_of_rank(ranking, rank);
        assert(with_key(&ranking, output, key) == with_key(&ranking, input, key));
    }
    assert forall|i: int, j: int| 0 <= i < j < output.len() implies (if ranking.descending {
        strategy.rank(output[i]) >= strategy.rank(output[j])
    } else {
        strategy.rank(output[i]) <= strategy.rank(output[j])
    }) by {
        assert(ranking.key(output[i]) <= ranking.key(output[j]));
    }
}

/// What the policy promises of a side is what [`stable_sort`] promises under
/// that side's ranking.
proof fn lemma_stable_sort_from_side(
    ranking: SideRanking,
    output: Seq<BookOrder>,
    input: Seq<BookOrder>,
)
    requires
        is_side_of(ranking, output, input),
    ensures
        is_stable_sort_of(&ranking, output, input),
{
    let strategy = ranking.strategy;
    assert forall|key: int| #[trigger]
        with_key(&ranking, output, key) == with_key(&ranking, input, key) by {
        if ranking.descending && key <= 0 || !ranking.descending && key >= 0 {
            let rank: nat = (if ranking.descending {
                -key
            } else {
                key
            }) as nat;
            assert(key_of_rank(ranking, rank) == key);
            lemma_rank_class_is_key_class(ranking, output, rank);
            lemma_rank_class_is_key_class(ranking, input, rank);
            assert(strategy.at_rank(output, rank) == strategy.at_rank(input, rank));
        } else {
            lemma_with_key_empty(&ranking, output, key);
            lemma_with_key_empty(&ranking, input, key);
        }
    }
    assert forall|i: int, j: int| 0 <= i < j < output.len() implies ranking.key(output[i])
        <= ranking.key(output[j]) by {
        if ranking.descending {
            assert(strategy.rank(output[i]) >= strategy.rank(output[j]));
        } else {
            assert(strategy.rank(output[i]) <= strategy.rank(output[j]));
        }
    }
}

/// A policy makes exactly one bid side of a sequence of orders: two sides that
/// both meet the contract of [`SortStrategy::sort_bids`] are equal.
pub proof fn lemma_bid_side_unique(
    strategy: SortStrategy,
    first: Seq<BookOrder>,
    second: Seq<BookOrder>,
    input: Seq<BookOrder>,
)
    requires
        strategy.is_bid_side_of(first, input),
        strategy.is_bid_side_of(second, input),
    ensures
        first == second,
{
    let ranking = SideRanking { strategy, descending: true };
    lemma_stable_sort_from_side(ranking, first, input);
    lemma_stable_sort_from_side(ranking, second, input);
    lemma_stable_sort_unique(&ranking, first, second, input);
}

/// A policy makes exactly one ask side of a sequence of orders: two sides that
/// both meet the contract of [`SortStrategy::sort_asks`] are equal.
pub proof fn lemma_ask_side_unique(
    strategy: SortStrategy,
    first: Seq<BookOrder>,
    second: Seq<BookOrder>,
    input: Seq<BookOrder>,
)
    requires
        strategy.is_ask_side_of(first, input),
        strategy.is_ask_side_of(second, input),
    ensures
        first == second,
{
    let ranking = SideRanking { strategy, descending: false };
    lemma_stable_sort_from_side(ranking, first, input);
    lemma_stable_sort_from_side(ranking, second, input);
    lemma_stable_sort_unique(&ranking, first, second, input);
}

/// A side holds the orders it was made of, each as often as it was given: no
/// order is lost, added or changed.
pub proof fn lemma_side_permutes(
    strategy: SortStrategy,
    output: Seq<BookOrder>,
    input: Seq<BookOrder>,
)
    requires
        strategy.is_bid_side_of(output, input) || strategy.is_ask_side_of(output, input),
    ensures
        output.to_multiset() == input.to_multiset(),
        output.len() == input.len(),
{
    let ranking = SideRanking { strategy, descending: strategy.is_bid_side_of(output, input) };
    lemma_stable_sort_from_side(ranking, output, input);
    lemma_stable_sort_permutes(&ranking, output, input);
}

/// A bid side that is already ranked is left as it is.
pub proof fn lemma_ranked_bids_stay(
    strategy: SortStrategy,
    output: Seq<BookOrder>,
    input: Seq<BookOrder>,
)
    requires
        strategy.is_bid_ranked(input),
        strategy.is_bid_side_of(output, input),
    ensures
        output == input,
{
    lemma_bid_side_unique(strategy, output, input, input);
}

/// An ask side that is already ranked is left as it is.
pub proof fn lemma_ranked_asks_stay(
    strategy: SortStrategy,
    output: Seq<BookOrder>,
    input: Seq<BookOrder>,
)
    requires
        strategy.is_ask_ranked(input),
        strategy.is_ask_side_of(output, input),
    ensures
        output == input,
{
    lemma_ask_side_unique(strategy, output, input, input);
}

} // verus!
