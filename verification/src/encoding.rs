//! A byte encoding of order books.
//!
//! A book is written field by field: the pool identity, the ranking policy,
//! the snapshot if there is one, the bids and the asks, each list in the
//! order in which the book holds it. Integers are little-endian and every
//! field has a fixed width, so a record is found by its position alone.
//! [`decoding_of`] reads such bytes back, and
//! [`lemma_decoding_inverts_encoding`] shows that it returns the book that
//! was written.
use crate::book::order::{BookOrder, StorageData};
use crate::book::sort::SortStrategy;
use crate::book::{snapshot_view, OrderBook, OrderBookView};
use crate::price::Ray;
use crate::primitive::PoolId;
use crate::snapshot::{
    views_of, LiqRange, LiqRangeView, PoolSnapshot, PoolSnapshotView, SqrtPriceX96, MAX_TICK,
    MIN_TICK,
};
use vstd::bytes::*;
use vstd::prelude::*;
use vstd::slice::slice_subrange;

verus! {

/// The number of bytes that one order takes.
pub const ORDER_LEN: usize = 117;

/// The eight bytes of `x`, least significant first.
pub open spec fn word(x: u64) -> Seq<u8> {
    spec_u64_to_le_bytes(x)
}

/// The sixteen bytes of `x`, least significant first.
pub open spec fn wide(x: u128) -> Seq<u8> {
    spec_u128_to_le_bytes(x)
}

/// One byte for a truth value: 1 for `true`, 0 for `false`.
pub open spec fn flag(b: bool) -> Seq<u8> {
    seq![if b { 1u8 } else { 0u8 }]
}

/// The bytes of four limbs, first limb first.
pub open spec fn quad(limbs: [u64; 4]) -> Seq<u8> {
    word(limbs[0]) + word(limbs[1]) + word(limbs[2]) + word(limbs[3])
}

/// The bytes of one order.
pub open spec fn encoding_of_order(order: BookOrder) -> Seq<u8> {
    order.pool_id.bytes@ + flag(order.is_bid) + quad(order.price.limbs) + wide(order.quantity)
        + word(order.storage.arrival) + order.storage.signer@ + word(order.storage.slot)
}

/// The bytes of a list of orders: one record after the other.
pub open spec fn encoding_of_orders(orders: Seq<BookOrder>) -> Seq<u8>
    decreases orders.len(),
{
    if orders.len() == 0 {
        Seq::empty()
    } else {
        encoding_of_orders(orders.drop_last()) + encoding_of_order(orders.last())
    }
}

/// The integer whose eight bytes stand at `at`.
pub open spec fn word_at(bytes: Seq<u8>, at: int) -> u64 {
    spec_u64_from_le_bytes(bytes.subrange(at, at + 8))
}

/// The integer whose sixteen bytes stand at `at`.
pub open spec fn wide_at(bytes: Seq<u8>, at: int) -> u128 {
    spec_u128_from_le_bytes(bytes.subrange(at, at + 16))
}

/// The four limbs whose bytes stand at `at`.
pub open spec fn quad_at(bytes: Seq<u8>, at: int) -> [u64; 4] {
    [word_at(bytes, at), word_at(bytes, at + 8), word_at(bytes, at + 16), word_at(bytes, at + 24)]
}

/// The array made of the `N` bytes that stand at `at`.
pub open spec fn array_at<const N: usize>(bytes: Seq<u8>, at: int) -> [u8; N] {
    choose|a: [u8; N]| a@ == bytes.subrange(at, at + N)
}

/// The order whose record stands at `at`, unless the byte for its side is
/// neither 0 nor 1.
pub open spec fn order_at(bytes: Seq<u8>, at: int) -> Option<BookOrder> {
    if bytes[at + 32] > 1 {
        None
    } else {
        Some(
            BookOrder {
                pool_id: PoolId { bytes: array_at::<32>(bytes, at) },
                is_bid: bytes[at + 32] == 1,
                price: Ray { limbs: quad_at(bytes, at + 33) },
                quantity: wide_at(bytes, at + 65),
                storage: StorageData {
                    arrival: word_at(bytes, at + 81),
                    signer: array_at::<20>(bytes, at + 89),
                    slot: word_at(bytes, at + 109),
                },
            },
        )
    }
}

/// The `count` orders whose records stand one after the other from `at` on,
/// unless one of the records is not an order.
pub open spec fn orders_at(bytes: Seq<u8>, at: int, count: nat) -> Option<Seq<BookOrder>> {
    if forall|i: int| 0 <= i < count ==> (#[trigger] order_at(bytes, at + ORDER_LEN * i)) is Some {
        Some(Seq::new(count, |i: int| order_at(bytes, at + ORDER_LEN * i)->Some_0))
    } else {
        None
    }
}

/// An array is the one array with its bytes.
proof fn lemma_array_at<const N: usize>(bytes: Seq<u8>, at: int, a: [u8; N])
    requires
        a@ == bytes.subrange(at, at + N),
    ensures
        array_at::<N>(bytes, at) == a,
{
    let chosen = array_at::<N>(bytes, at);
    assert(chosen@ == a@);
    assert(chosen@ =~= a@);
}

/// A word is read back from the place where it was written.
proof fn lemma_word_at(bytes: Seq<u8>, at: int, x: u64)
    requires
        0 <= at,
        at + 8 <= bytes.len(),
        bytes.subrange(at, at + 8) == word(x),
    ensures
        word_at(bytes, at) == x,
{
    lemma_auto_spec_u64_to_from_le_bytes();
}

/// A wide integer is read back from the place where it was written.
proof fn lemma_wide_at(bytes: Seq<u8>, at: int, x: u128)
    requires
        0 <= at,
        at + 16 <= bytes.len(),
        bytes.subrange(at, at + 16) == wide(x),
    ensures
        wide_at(bytes, at) == x,
{
    lemma_auto_spec_u128_to_from_le_bytes();
    assert(wide(x).len() == 16);
}

/// Four limbs are read back from the place where they were written.
proof fn lemma_quad_at(bytes: Seq<u8>, at: int, limbs: [u64; 4])
    requires
        0 <= at,
        at + 32 <= bytes.len(),
        bytes.subrange(at, at + 32) == quad(limbs),
    ensures
        quad(limbs).len() == 32,
        quad_at(bytes, at) == limbs,
{
    lemma_auto_spec_u64_to_from_le_bytes();
    let q = quad(limbs);
    assert(bytes.subrange(at, at + 8) =~= q.subrange(0, 8));
    assert(q.subrange(0, 8) =~= word(limbs[0]));
    assert(bytes.subrange(at + 8, at + 16) =~= q.subrange(8, 16));
    assert(q.subrange(8, 16) =~= word(limbs[1]));
    assert(bytes.subrange(at + 16, at + 24) =~= q.subrange(16, 24));
    assert(q.subrange(16, 24) =~= word(limbs[2]));
    assert(bytes.subrange(at + 24, at + 32) =~= q.subrange(24, 32));
    assert(q.subrange(24, 32) =~= word(limbs[3]));
    assert(quad_at(bytes, at)@ =~= limbs@);
}

/// The record of an order takes [`ORDER_LEN`] bytes.
proof fn lemma_order_len(order: BookOrder)
    ensures
        encoding_of_order(order).len() == ORDER_LEN,
{
    lemma_auto_spec_u64_to_from_le_bytes();
    lemma_auto_spec_u128_to_from_le_bytes();
}

/// An order is read back from the place where it was written.
proof fn lemma_order_at(bytes: Seq<u8>, at: int, order: BookOrder)
    requires
        0 <= at,
        at + ORDER_LEN <= bytes.len(),
        bytes.subrange(at, at + ORDER_LEN) == encoding_of_order(order),
    ensures
        order_at(bytes, at) == Some(order),
{
    lemma_auto_spec_u64_to_from_le_bytes();
    lemma_auto_spec_u128_to_from_le_bytes();
    let e = encoding_of_order(order);
    let rec = bytes.subrange(at, at + ORDER_LEN);
    assert(e.len() == 117);
    assert(bytes.subrange(at, at + 32) =~= rec.subrange(0, 32));
    assert(e.subrange(0, 32) =~= order.pool_id.bytes@);
    lemma_array_at::<32>(bytes, at, order.pool_id.bytes);
    assert(bytes[at + 32] == rec[32]);
    assert(e[32] == flag(order.is_bid)[0]);
    assert(bytes.subrange(at + 33, at + 65) =~= rec.subrange(33, 65));
    assert(e.subrange(33, 65) =~= quad(order.price.limbs));
    lemma_quad_at(bytes, at + 33, order.price.limbs);
    assert(bytes.subrange(at + 65, at + 81) =~= rec.subrange(65, 81));
    assert(e.subrange(65, 81) =~= wide(order.quantity));
    assert(bytes.subrange(at + 81, at + 89) =~= rec.subrange(81, 89));
    assert(e.subrange(81, 89) =~= word(order.storage.arrival));
    assert(bytes.subrange(at + 89, at + 109) =~= rec.subrange(89, 109));
    assert(e.subrange(89, 109) =~= order.storage.signer@);
    lemma_array_at::<20>(bytes, at + 89, order.storage.signer);
    assert(bytes.subrange(at + 109, at + 117) =~= rec.subrange(109, 117));
    assert(e.subrange(109, 117) =~= word(order.storage.slot));
}

/// In the bytes of a list, the record of the order at position `i` stands at
/// `i` times [`ORDER_LEN`].
proof fn lemma_orders_layout(orders: Seq<BookOrder>, i: int)
    requires
        0 <= i < orders.len(),
    ensures
        encoding_of_orders(orders).len() == ORDER_LEN * orders.len(),
        encoding_of_orders(orders).subrange(ORDER_LEN * i, ORDER_LEN * i + ORDER_LEN)
            == encoding_of_order(orders[i]),
    decreases orders.len(),
{
    let rest = orders.drop_last();
    lemma_orders_len(rest);
    lemma_order_len(orders.last());
    let e = encoding_of_orders(orders);
    if i < rest.len() {
        lemma_orders_layout(rest, i);
        assert(e.subrange(ORDER_LEN * i, ORDER_LEN * i + ORDER_LEN) =~= encoding_of_orders(
            rest,
        ).subrange(ORDER_LEN * i, ORDER_LEN * i + ORDER_LEN));
    } else {
        assert(e.subrange(ORDER_LEN * i, ORDER_LEN * i + ORDER_LEN) =~= encoding_of_order(
            orders.last(),
        ));
    }
}

/// The bytes of a list take [`ORDER_LEN`] bytes for each order.
proof fn lemma_orders_len(orders: Seq<BookOrder>)
    ensures
        encoding_of_orders(orders).len() == ORDER_LEN * orders.len(),
    decreases orders.len(),
{
    if orders.len() > 0 {
        lemma_orders_len(orders.drop_last());
        lemma_order_len(orders.last());
    }
}

/// A list of orders is read back from the place where it was written.
proof fn lemma_orders_at(bytes: Seq<u8>, at: int, orders: Seq<BookOrder>)
    requires
        0 <= at,
        at + ORDER_LEN * orders.len() <= bytes.len(),
        bytes.subrange(at, at + ORDER_LEN * orders.len()) == encoding_of_orders(orders),
    ensures
        orders_at(bytes, at, orders.len()) == Some(orders),
{
    let e = encoding_of_orders(orders);
    assert forall|i: int| 0 <= i < orders.len() implies #[trigger] order_at(
        bytes,
        at + ORDER_LEN * i,
    ) == Some(orders[i]) by {
        lemma_orders_layout(orders, i);
        assert(bytes.subrange(at + ORDER_LEN * i, at + ORDER_LEN * i + ORDER_LEN) =~= e.subrange(
            ORDER_LEN * i,
            ORDER_LEN * i + ORDER_LEN,
        ));
        lemma_order_at(bytes, at + ORDER_LEN * i, orders[i]);
    }
    assert(orders_at(bytes, at, orders.len())->Some_0 =~= orders);
}

/// Appends the bytes of `x`.
fn put_word(out: &mut Vec<u8>, x: u64)
    ensures
        final(out)@ == old(out)@ + word(x),
{
    let bytes = u64_to_le_bytes(x);
    out.extend_from_slice(bytes.as_slice());
}

/// Appends the bytes of `x`.
fn put_wide(out: &mut Vec<u8>, x: u128)
    ensures
        final(out)@ == old(out)@ + wide(x),
{
    let bytes = u128_to_le_bytes(x);
    out.extend_from_slice(bytes.as_slice());
}

/// Appends the byte of `b`.
fn put_flag(out: &mut Vec<u8>, b: bool)
    ensures
        final(out)@ == old(out)@ + flag(b),
{
    let ghost before = out@;
    out.push(if b { 1u8 } else { 0u8 });
    assert(out@ =~= before + flag(b));
}

/// Appends the bytes of four limbs.
fn put_quad(out: &mut Vec<u8>, limbs: &[u64; 4])
    ensures
        final(out)@ == old(out)@ + quad(*limbs),
{
    let ghost before = out@;
    put_word(out, limbs[0]);
    put_word(out, limbs[1]);
    put_word(out, limbs[2]);
    put_word(out, limbs[3]);
    assert(out@ =~= before + quad(*limbs));
}

/// Appends the record of `order`.
fn put_order(out: &mut Vec<u8>, order: &BookOrder)
    ensures
        final(out)@ == old(out)@ + encoding_of_order(*order),
{
    let ghost before = out@;
    out.extend_from_slice(order.pool_id.bytes.as_slice());
    put_flag(out, order.is_bid);
    put_quad(out, &order.price.limbs);
    put_wide(out, order.quantity);
    put_word(out, order.storage.arrival);
    out.extend_from_slice(order.storage.signer.as_slice());
    put_word(out, order.storage.slot);
    assert(out@ =~= before + encoding_of_order(*order));
}

/// Appends the records of `orders`, in their order.
fn put_orders(out: &mut Vec<u8>, orders: &[BookOrder])
    ensures
        final(out)@ == old(out)@ + encoding_of_orders(orders@),
{
    let ghost before = out@;
    let mut i: usize = 0;
    assert(out@ =~= before + encoding_of_orders(orders@.take(0)));
    while i < orders.len()
        invariant
            i <= orders.len(),
            out@ == before + encoding_of_orders(orders@.take(i as int)),
        decreases orders.len() - i,
    {
        put_order(out, &orders[i]);
        proof {
            let next = orders@.take(i + 1);
            assert(next.drop_last() =~= orders@.take(i as int));
            assert(next.last() == orders@[i as int]);
            assert(out@ =~= before + encoding_of_orders(next));
        }
        i += 1;
    }
    assert(orders@.take(i as int) =~= orders@);
}

/// Reads the integer whose eight bytes stand at `at`.
fn read_word(bytes: &[u8], at: usize) -> (x: u64)
    requires
        at + 8 <= bytes.len(),
    ensures
        x == word_at(bytes@, at as int),
{
    u64_from_le_bytes(slice_subrange(bytes, at, at + 8))
}

/// Reads the integer whose sixteen bytes stand at `at`.
fn read_wide(bytes: &[u8], at: usize) -> (x: u128)
    requires
        at + 16 <= bytes.len(),
    ensures
        x == wide_at(bytes@, at as int),
{
    u128_from_le_bytes(slice_subrange(bytes, at, at + 16))
}

/// Reads the four limbs whose bytes stand at `at`.
fn read_quad(bytes: &[u8], at: usize) -> (limbs: [u64; 4])
    requires
        at + 32 <= bytes.len(),
    ensures
        limbs == quad_at(bytes@, at as int),
{
    let limbs = [
        read_word(bytes, at),
        read_word(bytes, at + 8),
        read_word(bytes, at + 16),
        read_word(bytes, at + 24),
    ];
    assert(limbs@ =~= quad_at(bytes@, at as int)@);
    limbs
}

/// Reads the 32 bytes that stand at `at`.
fn read_array_32(bytes: &[u8], at: usize) -> (a: [u8; 32])
    requires
        at + 32 <= bytes.len(),
    ensures
        a == array_at::<32>(bytes@, at as int),
{
    let mut a = [0u8; 32];
    let mut i: usize = 0;
    while i < 32
        invariant
            i <= 32,
            at + 32 <= bytes.len(),
            forall|j: int| 0 <= j < i ==> a@[j] == bytes@[at + j],
        decreases 32 - i,
    {
        a[i] = bytes[at + i];
        i += 1;
    }
    proof {
        assert(a@ =~= bytes@.subrange(at as int, at + 32));
        lemma_array_at::<32>(bytes@, at as int, a);
    }
    a
}

/// Reads the 20 bytes that stand at `at`.
fn read_array_20(bytes: &[u8], at: usize) -> (a: [u8; 20])
    requires
        at + 20 <= bytes.len(),
    ensures
        a == array_at::<20>(bytes@, at as int),
{
    let mut a = [0u8; 20];
    let mut i: usize = 0;
    while i < 20
        invariant
            i <= 20,
            at + 20 <= bytes.len(),
            forall|j: int| 0 <= j < i ==> a@[j] == bytes@[at + j],
        decreases 20 - i,
    {
        a[i] = bytes[at + i];
        i += 1;
    }
    proof {
        assert(a@ =~= bytes@.subrange(at as int, at + 20));
        lemma_array_at::<20>(bytes@, at as int, a);
    }
    a
}

/// Reads the order whose record stands at `at`.
fn read_order(bytes: &[u8], at: usize) -> (r: Option<BookOrder>)
    requires
        at + ORDER_LEN <= bytes.len(),
    ensures
        r == order_at(bytes@, at as int),
{
    let side = bytes[at + 32];
    if side > 1 {
        return None;
    }
    Some(
        BookOrder {
            pool_id: PoolId { bytes: read_array_32(bytes, at) },
            is_bid: side == 1,
            price: Ray { limbs: read_quad(bytes, at + 33) },
            quantity: read_wide(bytes, at + 65),
            storage: StorageData {
                arrival: read_word(bytes, at + 81),
                signer: read_array_20(bytes, at + 89),
                slot: read_word(bytes, at + 109),
            },
        },
    )
}

/// Reads the `count` orders whose records stand one after the other from
/// `at` on.
fn read_orders(bytes: &[u8], at: usize, count: usize) -> (r: Option<Vec<BookOrder>>)
    requires
        at + ORDER_LEN * count <= bytes.len(),
    ensures
        match r {
            Some(orders) => orders_at(bytes@, at as int, count as nat) == Some(orders@),
            None => orders_at(bytes@, at as int, count as nat) is None,
        },
{
    let mut orders: Vec<BookOrder> = Vec::new();
    let mut i: usize = 0;
    while i < count
        invariant
            i <= count,
            at + ORDER_LEN * count <= bytes.len(),
            orders@.len() == i,
            forall|j: int|
                0 <= j < i ==> (#[trigger] order_at(bytes@, at + ORDER_LEN * j)) == Some(orders@[j]),
        decreases count - i,
    {
        match read_order(bytes, at + ORDER_LEN * i) {
            Some(order) => {
                orders.push(order);
            },
            None => {
                assert(order_at(bytes@, at + ORDER_LEN * i) is None);
                return None;
            },
        }
        i += 1;
    }
    assert(orders_at(bytes@, at as int, count as nat)->Some_0 =~= orders@);
    Some(orders)
}

/// The number of bytes that one range of ticks takes.
pub const RANGE_LEN: usize = 32;

/// The number of bytes of a snapshot that stand before its ranges.
pub const SNAPSHOT_HEAD: usize = 48;

/// The number of bytes of a book that stand before its snapshot.
pub const BOOK_HEAD: usize = 34;

/// The largest word that stands for a tick.
pub const TICK_SPAN: u64 = 1774544;

/// The word that stands for `tick`: its distance from [`MIN_TICK`].
pub open spec fn tick_word(tick: int) -> u64 {
    (tick - MIN_TICK) as u64
}

/// The byte that stands for a ranking policy.
pub open spec fn sort_tag(sort: SortStrategy) -> u8 {
    match sort {
        SortStrategy::ByPrice => 0,
    }
}

/// The bytes of one range of ticks.
pub open spec fn encoding_of_range(range: LiqRangeView) -> Seq<u8> {
    word(tick_word(range.lower_tick)) + word(tick_word(range.upper_tick)) + wide(range.liquidity)
}

/// The bytes of a list of ranges: one record after the other.
pub open spec fn encoding_of_ranges(ranges: Seq<LiqRangeView>) -> Seq<u8>
    decreases ranges.len(),
{
    if ranges.len() == 0 {
        Seq::empty()
    } else {
        encoding_of_ranges(ranges.drop_last()) + encoding_of_range(ranges.last())
    }
}

/// The bytes of a snapshot: its price, its tick, the number of its ranges and
/// the ranges.
pub open spec fn encoding_of_snapshot(snapshot: PoolSnapshotView) -> Seq<u8> {
    quad(snapshot.sqrt_price_x96.limbs) + word(tick_word(snapshot.current_tick)) + word(
        snapshot.ranges.len() as u64,
    ) + encoding_of_ranges(snapshot.ranges)
}

/// The bytes of the snapshot of a book: one byte that says whether there is
/// one, then the snapshot if there is.
pub open spec fn encoding_of_amm(amm: Option<PoolSnapshotView>) -> Seq<u8> {
    match amm {
        Some(snapshot) => flag(true) + encoding_of_snapshot(snapshot),
        None => flag(false),
    }
}

/// The bytes of a book.
pub open spec fn encoding_of(book: OrderBookView) -> Seq<u8> {
    book.id.bytes@ + seq![sort_tag(book.sort)] + encoding_of_amm(book.amm) + word(
        book.bids.len() as u64,
    ) + encoding_of_orders(book.bids) + word(book.asks.len() as u64) + encoding_of_orders(
        book.asks,
    )
}

/// The range whose record stands at `at`, unless the record is that of an
/// empty or misplaced range.
pub open spec fn range_at(bytes: Seq<u8>, at: int) -> Option<LiqRangeView> {
    let range = LiqRangeView {
        lower_tick: word_at(bytes, at) + MIN_TICK,
        upper_tick: word_at(bytes, at + 8) + MIN_TICK,
        liquidity: wide_at(bytes, at + 16),
    };
    if range.is_valid() {
        Some(range)
    } else {
        None
    }
}

/// The `count` ranges whose records stand one after the other from `at` on,
/// unless one of the records is not a range.
pub open spec fn ranges_at(bytes: Seq<u8>, at: int, count: nat) -> Option<Seq<LiqRangeView>> {
    if forall|i: int| 0 <= i < count ==> (#[trigger] range_at(bytes, at + RANGE_LEN * i)) is Some {
        Some(Seq::new(count, |i: int| range_at(bytes, at + RANGE_LEN * i)->Some_0))
    } else {
        None
    }
}

/// The number of bytes that the snapshot at `at` takes, going by the number
/// of ranges that it announces.
pub open spec fn snapshot_len(bytes: Seq<u8>, at: int) -> int {
    SNAPSHOT_HEAD + RANGE_LEN * word_at(bytes, at + 40)
}

/// The snapshot that stands at `at`, unless the bytes end too early or what
/// stands there is not a valid snapshot.
pub open spec fn snapshot_at(bytes: Seq<u8>, at: int) -> Option<PoolSnapshotView> {
    if at + SNAPSHOT_HEAD > bytes.len() || at + snapshot_len(bytes, at) > bytes.len() {
        None
    } else {
        match ranges_at(bytes, at + SNAPSHOT_HEAD, word_at(bytes, at + 40) as nat) {
            Some(ranges) => {
                let snapshot = PoolSnapshotView {
                    ranges,
                    sqrt_price_x96: SqrtPriceX96 { limbs: quad_at(bytes, at) },
                    current_tick: word_at(bytes, at + 32) + MIN_TICK,
                };
                if snapshot.is_valid() {
                    Some(snapshot)
                } else {
                    None
                }
            },
            None => None,
        }
    }
}

/// The place at which the number of bids stands, going by the byte that says
/// whether the book has a snapshot.
pub open spec fn bids_at(bytes: Seq<u8>) -> int {
    if bytes[33] == 1 {
        BOOK_HEAD + snapshot_len(bytes, BOOK_HEAD as int)
    } else {
        BOOK_HEAD as int
    }
}

/// The place at which the number of asks stands.
pub open spec fn asks_at(bytes: Seq<u8>) -> int {
    bids_at(bytes) + 8 + ORDER_LEN * word_at(bytes, bids_at(bytes))
}

/// The book that `bytes` stand for. There is none where the bytes end too
/// early or go on too long, where a field holds what it cannot, where the
/// snapshot is not valid, or where a side is not in ranked order.
pub open spec fn decoding_of(bytes: Seq<u8>) -> Option<OrderBookView> {
    if bytes.len() < BOOK_HEAD || bytes[32] != 0 || bytes[33] > 1 {
        None
    } else if bytes[33] == 1 && snapshot_at(bytes, BOOK_HEAD as int) is None {
        None
    } else if bids_at(bytes) + 8 > bytes.len() || asks_at(bytes) + 8 > bytes.len() || asks_at(bytes)
        + 8 + ORDER_LEN * word_at(bytes, asks_at(bytes)) != bytes.len() {
        None
    } else {
        let bids = orders_at(bytes, bids_at(bytes) + 8, word_at(bytes, bids_at(bytes)) as nat);
        let asks = orders_at(bytes, asks_at(bytes) + 8, word_at(bytes, asks_at(bytes)) as nat);
        if bids is None || asks is None {
            None
        } else {
            let book = OrderBookView {
                id: PoolId { bytes: array_at::<32>(bytes, 0) },
                amm: if bytes[33] == 1 {
                    snapshot_at(bytes, BOOK_HEAD as int)
                } else {
                    None
                },
                bids: bids->Some_0,
                asks: asks->Some_0,
                sort: SortStrategy::ByPrice,
            };
            if book.is_ranked() {
                Some(book)
            } else {
                None
            }
        }
    }
}

/// A book that an [`OrderBook`] can hold: its sides are ranked, its snapshot
/// is valid, and the numbers of its orders and ranges fit a word.
pub open spec fn is_encodable(book: OrderBookView) -> bool {
    &&& book.is_ranked()
    &&& book.bids.len() <= u64::MAX
    &&& book.asks.len() <= u64::MAX
    &&& book.amm is Some ==> book.amm->Some_0.is_valid() && book.amm->Some_0.ranges.len()
        <= u64::MAX
}

/// The record of a range takes [`RANGE_LEN`] bytes.
proof fn lemma_range_len(range: LiqRangeView)
    ensures
        encoding_of_range(range).len() == RANGE_LEN,
{
    lemma_auto_spec_u64_to_from_le_bytes();
    lemma_auto_spec_u128_to_from_le_bytes();
    assert(wide(range.liquidity).len() == 16);
}

/// A valid range is read back from the place where it was written.
proof fn lemma_range_at(bytes: Seq<u8>, at: int, range: LiqRangeView)
    requires
        0 <= at,
        at + RANGE_LEN <= bytes.len(),
        bytes.subrange(at, at + RANGE_LEN) == encoding_of_range(range),
        range.is_valid(),
    ensures
        range_at(bytes, at) == Some(range),
{
    lemma_range_len(range);
    lemma_auto_spec_u64_to_from_le_bytes();
    let e = encoding_of_range(range);
    let rec = bytes.subrange(at, at + RANGE_LEN);
    assert(bytes.subrange(at, at + 8) =~= rec.subrange(0, 8));
    assert(e.subrange(0, 8) =~= word(tick_word(range.lower_tick)));
    lemma_word_at(bytes, at, tick_word(range.lower_tick));
    assert(bytes.subrange(at + 8, at + 16) =~= rec.subrange(8, 16));
    assert(e.subrange(8, 16) =~= word(tick_word(range.upper_tick)));
    lemma_word_at(bytes, at + 8, tick_word(range.upper_tick));
    assert(bytes.subrange(at + 16, at + 32) =~= rec.subrange(16, 32));
    assert(e.subrange(16, 32) =~= wide(range.liquidity));
    lemma_wide_at(bytes, at + 16, range.liquidity);
}

/// The bytes of a list of ranges take [`RANGE_LEN`] bytes for each range.
proof fn lemma_ranges_len(ranges: Seq<LiqRangeView>)
    ensures
        encoding_of_ranges(ranges).len() == RANGE_LEN * ranges.len(),
    decreases ranges.len(),
{
    if ranges.len() > 0 {
        lemma_ranges_len(ranges.drop_last());
        lemma_range_len(ranges.last());
    }
}

/// In the bytes of a list, the record of the range at position `i` stands at
/// `i` times [`RANGE_LEN`].
proof fn lemma_ranges_layout(ranges: Seq<LiqRangeView>, i: int)
    requires
        0 <= i < ranges.len(),
    ensures
        encoding_of_ranges(ranges).subrange(RANGE_LEN * i, RANGE_LEN * i + RANGE_LEN)
            == encoding_of_range(ranges[i]),
    decreases ranges.len(),
{
    let rest = ranges.drop_last();
    lemma_ranges_len(rest);
    lemma_range_len(ranges.last());
    let e = encoding_of_ranges(ranges);
    if i < rest.len() {
        lemma_ranges_layout(rest, i);
        assert(e.subrange(RANGE_LEN * i, RANGE_LEN * i + RANGE_LEN) =~= encoding_of_ranges(
            rest,
        ).subrange(RANGE_LEN * i, RANGE_LEN * i + RANGE_LEN));
    } else {
        assert(e.subrange(RANGE_LEN * i, RANGE_LEN * i + RANGE_LEN) =~= encoding_of_range(
            ranges.last(),
        ));
    }
}

/// A list of valid ranges is read back from the place where it was written.
proof fn lemma_ranges_at(bytes: Seq<u8>, at: int, ranges: Seq<LiqRangeView>)
    requires
        0 <= at,
        at + RANGE_LEN * ranges.len() <= bytes.len(),
        bytes.subrange(at, at + RANGE_LEN * ranges.len()) == encoding_of_ranges(ranges),
        forall|i: int| 0 <= i < ranges.len() ==> (#[trigger] ranges[i]).is_valid(),
    ensures
        ranges_at(bytes, at, ranges.len()) == Some(ranges),
{
    let e = encoding_of_ranges(ranges);
    lemma_ranges_len(ranges);
    assert forall|i: int| 0 <= i < ranges.len() implies #[trigger] range_at(
        bytes,
        at + RANGE_LEN * i,
    ) == Some(ranges[i]) by {
        lemma_ranges_layout(ranges, i);
        assert(bytes.subrange(at + RANGE_LEN * i, at + RANGE_LEN * i + RANGE_LEN) =~= e.subrange(
            RANGE_LEN * i,
            RANGE_LEN * i + RANGE_LEN,
        ));
        lemma_range_at(bytes, at + RANGE_LEN * i, ranges[i]);
    }
    assert(ranges_at(bytes, at, ranges.len())->Some_0 =~= ranges);
}

/// The number of bytes that a snapshot takes.
proof fn lemma_snapshot_len(snapshot: PoolSnapshotView)
    ensures
        encoding_of_snapshot(snapshot).len() == SNAPSHOT_HEAD + RANGE_LEN * snapshot.ranges.len(),
{
    lemma_auto_spec_u64_to_from_le_bytes();
    lemma_ranges_len(snapshot.ranges);
}

/// A valid snapshot is read back from the place where it was written.
proof fn lemma_snapshot_at(bytes: Seq<u8>, at: int, snapshot: PoolSnapshotView)
    requires
        0 <= at,
        at + encoding_of_snapshot(snapshot).len() <= bytes.len(),
        bytes.subrange(at, at + encoding_of_snapshot(snapshot).len()) == encoding_of_snapshot(
            snapshot,
        ),
        snapshot.is_valid(),
        snapshot.ranges.len() <= u64::MAX,
    ensures
        snapshot_at(bytes, at) == Some(snapshot),
        snapshot_len(bytes, at) == encoding_of_snapshot(snapshot).len(),
{
    lemma_auto_spec_u64_to_from_le_bytes();
    lemma_snapshot_len(snapshot);
    lemma_ranges_len(snapshot.ranges);
    let e = encoding_of_snapshot(snapshot);
    let rec = bytes.subrange(at, at + e.len());
    let count = snapshot.ranges.len() as u64;
    let i = choose|i: int|
        0 <= i < snapshot.ranges.len() && (#[trigger] snapshot.ranges[i]).contains(
            snapshot.current_tick,
        );
    assert(snapshot.ranges[i].is_valid());
    assert(bytes.subrange(at, at + 32) =~= rec.subrange(0, 32));
    assert(e.subrange(0, 32) =~= quad(snapshot.sqrt_price_x96.limbs));
    lemma_quad_at(bytes, at, snapshot.sqrt_price_x96.limbs);
    assert(bytes.subrange(at + 32, at + 40) =~= rec.subrange(32, 40));
    assert(e.subrange(32, 40) =~= word(tick_word(snapshot.current_tick)));
    lemma_word_at(bytes, at + 32, tick_word(snapshot.current_tick));
    assert(bytes.subrange(at + 40, at + 48) =~= rec.subrange(40, 48));
    assert(e.subrange(40, 48) =~= word(count));
    lemma_word_at(bytes, at + 40, count);
    assert(bytes.subrange(at + 48, at + 48 + RANGE_LEN * snapshot.ranges.len()) =~= rec.subrange(
        48,
        48 + RANGE_LEN * snapshot.ranges.len(),
    ));
    assert(e.subrange(48, 48 + RANGE_LEN * snapshot.ranges.len()) =~= encoding_of_ranges(
        snapshot.ranges,
    ));
    lemma_ranges_at(bytes, at + 48, snapshot.ranges);
    assert(snapshot_at(bytes, at)->Some_0 =~= snapshot);
}

/// A word takes eight bytes.
proof fn lemma_word_len(x: u64)
    ensures
        word(x).len() == 8,
{
    lemma_auto_spec_u64_to_from_le_bytes();
}

/// What is appended to the beginning of a sequence is found right behind
/// that beginning, and the beginning is a beginning still.
proof fn lemma_part_of_prefix(whole: Seq<u8>, before: Seq<u8>, part: Seq<u8>)
    requires
        (before + part).is_prefix_of(whole),
    ensures
        before.len() + part.len() <= whole.len(),
        whole.subrange(before.len() as int, (before.len() + part.len()) as int) == part,
        before.is_prefix_of(whole),
{
    let joined = before + part;
    assert(whole.subrange(before.len() as int, (before.len() + part.len()) as int) =~= part) by {
        assert forall|i: int| 0 <= i < part.len() implies whole[before.len() + i] == part[i] by {
            assert(joined[before.len() + i] == whole.subrange(0, joined.len() as int)[before.len()
                + i]);
        }
    }
    assert(before =~= whole.subrange(0, before.len() as int)) by {
        assert forall|i: int| 0 <= i < before.len() implies whole[i] == before[i] by {
            assert(joined[i] == whole.subrange(0, joined.len() as int)[i]);
        }
    }
}

/// Where the bids and the asks of an encodable book stand in its bytes, and
/// that they are read back from there.
proof fn lemma_sides_are_read_back(book: OrderBookView, bytes: Seq<u8>, head: Seq<u8>)
    requires
        is_encodable(book),
        bytes == head + word(book.bids.len() as u64) + encoding_of_orders(book.bids) + word(
            book.asks.len() as u64,
        ) + encoding_of_orders(book.asks),
    ensures
        ({
            let b = head.len() as int;
            let a = b + 8 + ORDER_LEN * book.bids.len();
            &&& word_at(bytes, b) == book.bids.len()
            &&& word_at(bytes, a) == book.asks.len()
            &&& a + 8 + ORDER_LEN * book.asks.len() == bytes.len()
            &&& orders_at(bytes, b + 8, book.bids.len()) == Some(book.bids)
            &&& orders_at(bytes, a + 8, book.asks.len()) == Some(book.asks)
            &&& head.is_prefix_of(bytes)
        }),
{
    let bid_count = word(book.bids.len() as u64);
    let bids = encoding_of_orders(book.bids);
    let ask_count = word(book.asks.len() as u64);
    let asks = encoding_of_orders(book.asks);
    lemma_word_len(book.bids.len() as u64);
    lemma_word_len(book.asks.len() as u64);
    lemma_orders_len(book.bids);
    lemma_orders_len(book.asks);
    let p1 = head + bid_count;
    let p2 = p1 + bids;
    let p3 = p2 + ask_count;
    assert(bytes.is_prefix_of(bytes)) by {
        assert(bytes =~= bytes.subrange(0, bytes.len() as int));
    }
    lemma_part_of_prefix(bytes, p3, asks);
    lemma_part_of_prefix(bytes, p2, ask_count);
    lemma_part_of_prefix(bytes, p1, bids);
    lemma_part_of_prefix(bytes, head, bid_count);
    let b = head.len() as int;
    let a = b + 8 + ORDER_LEN * book.bids.len();
    lemma_word_at(bytes, b, book.bids.len() as u64);
    lemma_word_at(bytes, a, book.asks.len() as u64);
    lemma_orders_at(bytes, b + 8, book.bids);
    lemma_orders_at(bytes, a + 8, book.asks);
}

/// The head of an encodable book, up to the place where the number of its
/// bids stands, is read back from its bytes.
proof fn lemma_head_is_read_back(book: OrderBookView, bytes: Seq<u8>)
    requires
        is_encodable(book),
        (book.id.bytes@ + seq![sort_tag(book.sort)] + encoding_of_amm(book.amm)).is_prefix_of(
            bytes,
        ),
    ensures
        bytes.len() >= BOOK_HEAD,
        array_at::<32>(bytes, 0) == book.id.bytes,
        bytes[32] == 0,
        bytes[33] == (if book.amm is Some {
            1u8
        } else {
            0u8
        }),
        book.amm is Some ==> snapshot_at(bytes, BOOK_HEAD as int) == book.amm,
        bids_at(bytes) == 33 + encoding_of_amm(book.amm).len(),
{
    let id = book.id.bytes@;
    let tag = seq![sort_tag(book.sort)];
    let amm = encoding_of_amm(book.amm);
    lemma_part_of_prefix(bytes, id + tag, amm);
    lemma_part_of_prefix(bytes, id, tag);
    lemma_part_of_prefix(bytes, Seq::<u8>::empty(), id);
    assert(bytes.subrange(0, 32) =~= id);
    lemma_array_at::<32>(bytes, 0, book.id.bytes);
    assert(bytes[32] == bytes.subrange(32, 33)[0]);
    assert(bytes[33] == bytes.subrange(33, (33 + amm.len()) as int)[0]);
    if book.amm is Some {
        let snapshot = encoding_of_snapshot(book.amm->Some_0);
        lemma_snapshot_len(book.amm->Some_0);
        assert(id + tag + amm =~= (id + tag + flag(true)) + snapshot);
        lemma_part_of_prefix(bytes, id + tag + flag(true), snapshot);
        lemma_snapshot_at(bytes, BOOK_HEAD as int, book.amm->Some_0);
    }
}

/// Reading inverts writing: the bytes of a book stand for that book and for
/// no other, with both sides in the order in which the book holds them.
pub proof fn lemma_decoding_inverts_encoding(book: OrderBookView)
    requires
        is_encodable(book),
    ensures
        decoding_of(encoding_of(book)) == Some(book),
{
    let bytes = encoding_of(book);
    let head = book.id.bytes@ + seq![sort_tag(book.sort)] + encoding_of_amm(book.amm);
    lemma_sides_are_read_back(book, bytes, head);
    lemma_head_is_read_back(book, bytes);
    assert(bids_at(bytes) == head.len());
    assert(asks_at(bytes) == head.len() + 8 + ORDER_LEN * book.bids.len());
    assert(decoding_of(bytes) is Some);
    assert(decoding_of(bytes)->Some_0 =~= book);
}

/// Appends the word that stands for `tick`.
fn put_tick(out: &mut Vec<u8>, tick: i32)
    requires
        MIN_TICK <= tick <= MAX_TICK,
    ensures
        final(out)@ == old(out)@ + word(tick_word(tick as int)),
{
    let distance: u64 = (tick as i64 - MIN_TICK as i64) as u64;
    put_word(out, distance);
}

/// Appends the record of `range`.
fn put_range(out: &mut Vec<u8>, range: &LiqRange)
    ensures
        final(out)@ == old(out)@ + encoding_of_range(range@),
{
    let ghost before = out@;
    put_tick(out, range.lower_tick());
    put_tick(out, range.upper_tick());
    put_wide(out, range.liquidity());
    assert(out@ =~= before + encoding_of_range(range@));
}

/// Appends the records of `ranges`, in their order.
fn put_ranges(out: &mut Vec<u8>, ranges: &Vec<LiqRange>)
    ensures
        final(out)@ == old(out)@ + encoding_of_ranges(views_of(ranges@)),
{
    let ghost before = out@;
    let ghost all = views_of(ranges@);
    let mut i: usize = 0;
    assert(out@ =~= before + encoding_of_ranges(all.take(0)));
    while i < ranges.len()
        invariant
            i <= ranges.len(),
            all == views_of(ranges@),
            out@ == before + encoding_of_ranges(all.take(i as int)),
        decreases ranges.len() - i,
    {
        put_range(out, &ranges[i]);
        proof {
            let next = all.take(i + 1);
            assert(next.drop_last() =~= all.take(i as int));
            assert(next.last() == ranges@[i as int]@);
            assert(out@ =~= before + encoding_of_ranges(next));
        }
        i += 1;
    }
    assert(all.take(i as int) =~= all);
}

/// Appends the bytes of `snapshot`.
fn put_snapshot(out: &mut Vec<u8>, snapshot: &PoolSnapshot)
    ensures
        final(out)@ == old(out)@ + encoding_of_snapshot(snapshot@),
        snapshot@.is_valid(),
        snapshot@.ranges.len() <= u64::MAX,
{
    let ghost before = out@;
    let ranges = snapshot.ranges();
    let tick = snapshot.current_tick();
    proof {
        let i = choose|i: int|
            0 <= i < snapshot@.ranges.len() && (#[trigger] snapshot@.ranges[i]).contains(
                snapshot@.current_tick,
            );
        assert(snapshot@.ranges[i].is_valid());
    }
    put_quad(out, &snapshot.current_price().limbs);
    put_tick(out, tick);
    put_word(out, ranges.len() as u64);
    put_ranges(out, ranges);
    assert(out@ =~= before + encoding_of_snapshot(snapshot@));
}

/// Reads the range whose record stands at `at`.
fn read_range(bytes: &[u8], at: usize) -> (r: Option<LiqRange>)
    requires
        at + RANGE_LEN <= bytes.len(),
    ensures
        match r {
            Some(range) => range_at(bytes@, at as int) == Some(range@),
            None => range_at(bytes@, at as int) is None,
        },
{
    let lower = read_word(bytes, at);
    let upper = read_word(bytes, at + 8);
    let liquidity = read_wide(bytes, at + 16);
    if lower > TICK_SPAN || upper > TICK_SPAN {
        return None;
    }
    let lower_tick: i32 = (lower as i64 + MIN_TICK as i64) as i32;
    let upper_tick: i32 = (upper as i64 + MIN_TICK as i64) as i32;
    match LiqRange::new(lower_tick, upper_tick, liquidity) {
        Ok(range) => Some(range),
        Err(_) => None,
    }
}

/// Reads the `count` ranges whose records stand one after the other from
/// `at` on.
fn read_ranges(bytes: &[u8], at: usize, count: usize) -> (r: Option<Vec<LiqRange>>)
    requires
        at + RANGE_LEN * count <= bytes.len(),
    ensures
        match r {
            Some(ranges) => ranges_at(bytes@, at as int, count as nat) == Some(views_of(ranges@)),
            None => ranges_at(bytes@, at as int, count as nat) is None,
        },
{
    let mut ranges: Vec<LiqRange> = Vec::new();
    let mut i: usize = 0;
    while i < count
        invariant
            i <= count,
            at + RANGE_LEN * count <= bytes.len(),
            ranges@.len() == i,
            forall|j: int|
                0 <= j < i ==> (#[trigger] range_at(bytes@, at + RANGE_LEN * j)) == Some(
                    ranges@[j]@,
                ),
        decreases count - i,
    {
        match read_range(bytes, at + RANGE_LEN * i) {
            Some(range) => {
                ranges.push(range);
            },
            None => {
                assert(range_at(bytes@, at + RANGE_LEN * i) is None);
                return None;
            },
        }
        i += 1;
    }
    assert(ranges_at(bytes@, at as int, count as nat)->Some_0 =~= views_of(ranges@));
    Some(ranges)
}

/// Reads the snapshot that stands at `at`, and says where it ends.
fn read_snapshot(bytes: &[u8], at: usize) -> (r: Option<(PoolSnapshot, usize)>)
    requires
        at <= bytes.len(),
    ensures
        match r {
            Some((snapshot, end)) => {
                &&& snapshot_at(bytes@, at as int) == Some(snapshot@)
                &&& end == at + snapshot_len(bytes@, at as int)
                &&& end <= bytes.len()
            },
            None => snapshot_at(bytes@, at as int) is None,
        },
{
    if bytes.len() - at < SNAPSHOT_HEAD {
        return None;
    }
    let limbs = read_quad(bytes, at);
    let tick = read_word(bytes, at + 32);
    let count = read_word(bytes, at + 40);
    let room = bytes.len() - at - SNAPSHOT_HEAD;
    if count > (room / RANGE_LEN) as u64 {
        return None;
    }
    let count = count as usize;
    let ranges = match read_ranges(bytes, at + SNAPSHOT_HEAD, count) {
        Some(ranges) => ranges,
        None => {
            return None;
        },
    };
    let ghost views = views_of(ranges@);
    assert forall|i: int| 0 <= i < views.len() implies (#[trigger] views[i]).is_valid() by {
        assert(range_at(bytes@, at + SNAPSHOT_HEAD + RANGE_LEN * i) is Some);
    }
    if tick > TICK_SPAN {
        return None;
    }
    let current_tick: i32 = (tick as i64 + MIN_TICK as i64) as i32;
    let price = SqrtPriceX96::from_limbs(limbs);
    match PoolSnapshot::from_ordered(ranges, price, current_tick) {
        Ok(snapshot) => Some((snapshot, at + SNAPSHOT_HEAD + RANGE_LEN * count)),
        Err(_) => None,
    }
}

impl OrderBook {
    /// The bytes of the book.
    pub fn encode(&self) -> (bytes: Vec<u8>)
        ensures
            bytes@ == encoding_of(self@),
            decoding_of(bytes@) == Some(self@),
    {
        let mut out: Vec<u8> = Vec::new();
        let bids = self.bids();
        let asks = self.asks();
        out.extend_from_slice(self.id().bytes.as_slice());
        out.push(0u8);
        match self.amm() {
            Some(snapshot) => {
                put_flag(&mut out, true);
                put_snapshot(&mut out, snapshot);
            },
            None => {
                put_flag(&mut out, false);
            },
        }
        put_word(&mut out, bids.len() as u64);
        put_orders(&mut out, bids);
        put_word(&mut out, asks.len() as u64);
        put_orders(&mut out, asks);
        proof {
            assert(out@ =~= encoding_of(self@));
            lemma_decoding_inverts_encoding(self@);
        }
        out
    }

    /// The book that `bytes` stand for, if they stand for one.
    pub fn decode(bytes: &[u8]) -> (r: Option<OrderBook>)
        ensures
            match r {
                Some(book) => decoding_of(bytes@) == Some(book@),
                None => decoding_of(bytes@) is None,
            },
    {
        let len = bytes.len();
        if len < BOOK_HEAD || bytes[32] != 0 || bytes[33] > 1 {
            return None;
        }
        let id = PoolId { bytes: read_array_32(bytes, 0) };
        let mut amm: Option<PoolSnapshot> = None;
        let mut bids_at: usize = BOOK_HEAD;
        if bytes[33] == 1 {
            match read_snapshot(bytes, BOOK_HEAD) {
                Some((snapshot, end)) => {
                    amm = Some(snapshot);
                    bids_at = end;
                },
                None => {
                    return None;
                },
            }
        }
        if len - bids_at < 8 {
            return None;
        }
        let bid_count = read_word(bytes, bids_at);
        if bid_count > ((len - bids_at - 8) / ORDER_LEN) as u64 {
            return None;
        }
        let bid_count = bid_count as usize;
        let asks_at = bids_at + 8 + ORDER_LEN * bid_count;
        if len - asks_at < 8 {
            return None;
        }
        let ask_count = read_word(bytes, asks_at);
        if ask_count > ((len - asks_at - 8) / ORDER_LEN) as u64 {
            return None;
        }
        let ask_count = ask_count as usize;
        if asks_at + 8 + ORDER_LEN * ask_count != len {
            return None;
        }
        let bids = match read_orders(bytes, bids_at + 8, bid_count) {
            Some(bids) => bids,
            None => {
                return None;
            },
        };
        let asks = match read_orders(bytes, asks_at + 8, ask_count) {
            Some(asks) => asks,
            None => {
                return None;
            },
        };
        OrderBook::from_ranked(id, amm, bids, asks, SortStrategy::ByPrice)
    }
}

} // verus!
