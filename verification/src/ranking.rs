//! Stable sorting under a ranking.
//!
//! A [`Ranking`] gives every item an integer key. [`stable_sort`] arranges a
//! vector in ascending key order and leaves items with equal keys in the order
//! in which they arrived. The result depends on nothing but the input sequence
//! and the keys: [`lemma_stable_sort_unique`] shows that the contract admits
//! exactly one output.
use vstd::multiset::*;
use vstd::prelude::*;
use vstd::seq_lib::*;

verus! {

/// A rule that orders items by an integer key; smaller keys come first.
pub trait Ranking<T> {
    /// The key of `item` under this ranking.
    spec fn key(&self, item: T) -> int;

    /// Whether the key of `a` is strictly smaller than the key of `b`.
    fn before(&self, a: &T, b: &T) -> (r: bool)
        ensures
            r == (self.key(*a) < self.key(*b)),
    ;
}

/// Keys never decrease from one position of `s` to a later one.
pub open spec fn is_ascending<T, R: Ranking<T>>(ranking: &R, s: Seq<T>) -> bool {
    forall|i: int, j: int| 0 <= i < j < s.len() ==> ranking.key(s[i]) <= ranking.key(s[j])
}

/// The items of `s` whose key is `key`, in the order in which `s` holds them.
pub open spec fn with_key<T, R: Ranking<T>>(ranking: &R, s: Seq<T>, key: int) -> Seq<T> {
    s.filter(|item: T| ranking.key(item) == key)
}

/// `output` holds the items of `input` in ascending key order, and the items
/// that share a key stand in `output` as they stood in `input`.
pub open spec fn is_stable_sort_of<T, R: Ranking<T>>(
    ranking: &R,
    output: Seq<T>,
    input: Seq<T>,
) -> bool {
    &&& is_ascending(ranking, output)
    &&& forall|key: int| #[trigger]
        with_key(ranking, output, key) == with_key(ranking, input, key)
}

/// The stable sort of `input`: the one sequence that [`is_stable_sort_of`]
/// accepts for it.
pub open spec fn stable_sorted<T, R: Ranking<T>>(ranking: &R, input: Seq<T>) -> Seq<T> {
    choose|output: Seq<T>| is_stable_sort_of(ranking, output, input)
}

/// A sequence in which no item has the key `key` has an empty class for it.
pub(crate) proof fn lemma_with_key_empty<T, R: Ranking<T>>(ranking: &R, s: Seq<T>, key: int)
    requires
        forall|i: int| 0 <= i < s.len() ==> ranking.key(#[trigger] s[i]) != key,
    ensures
        with_key(ranking, s, key) == Seq::<T>::empty(),
    decreases s.len(),
{
    reveal(Seq::filter);
    if s.len() > 0 {
        assert forall|i: int| 0 <= i < s.drop_last().len() implies ranking.key(
            #[trigger] s.drop_last()[i],
        ) != key by {
            assert(s.drop_last()[i] == s[i]);
        }
        lemma_with_key_empty(ranking, s.drop_last(), key);
        assert(ranking.key(s[s.len() - 1]) != key);
    }
}

/// How the class of `key` grows when `item` is appended to `s`.
proof fn lemma_with_key_push<T, R: Ranking<T>>(ranking: &R, s: Seq<T>, item: T, key: int)
    ensures
        with_key(ranking, s.push(item), key) == if ranking.key(item) == key {
            with_key(ranking, s, key).push(item)
        } else {
            with_key(ranking, s, key)
        },
{
    reveal(Seq::filter);
    assert(s.push(item).drop_last() =~= s);
}

/// Appending the next item of the left run keeps the classes of the merged
/// prefix equal to those of the two consumed prefixes.
proof fn lemma_merge_takes_left<T, R: Ranking<T>>(
    ranking: &R,
    out: Seq<T>,
    left: Seq<T>,
    right: Seq<T>,
    i: int,
    j: int,
)
    requires
        0 <= i < left.len(),
        0 <= j <= right.len(),
        is_ascending(ranking, right),
        j > 0 ==> ranking.key(right[j - 1]) < ranking.key(left[i]),
        forall|key: int| #[trigger]
            with_key(ranking, out, key) == with_key(ranking, left.take(i), key) + with_key(
                ranking,
                right.take(j),
                key,
            ),
    ensures
        forall|key: int| #[trigger]
            with_key(ranking, out.push(left[i]), key) == with_key(ranking, left.take(i + 1), key)
                + with_key(ranking, right.take(j), key),
{
    let item = left[i];
    assert(left.take(i + 1) =~= left.take(i).push(item));
    assert forall|key: int| #[trigger]
        with_key(ranking, out.push(item), key) == with_key(ranking, left.take(i + 1), key)
            + with_key(ranking, right.take(j), key) by {
        lemma_with_key_push(ranking, out, item, key);
        lemma_with_key_push(ranking, left.take(i), item, key);
        let a = with_key(ranking, left.take(i), key);
        let b = with_key(ranking, right.take(j), key);
        assert(with_key(ranking, out, key) == a + b);
        if ranking.key(item) == key {
            assert forall|n: int| 0 <= n < right.take(j).len() implies ranking.key(
                #[trigger] right.take(j)[n],
            ) != key by {
                assert(right.take(j)[n] == right[n]);
                assert(ranking.key(right[n]) <= ranking.key(right[j - 1]));
            }
            lemma_with_key_empty(ranking, right.take(j), key);
            assert((a + b).push(item) =~= a.push(item) + b);
        }
    }
}

/// Appending the next item of the right run keeps the classes of the merged
/// prefix equal to those of the two consumed prefixes.
proof fn lemma_merge_takes_right<T, R: Ranking<T>>(
    ranking: &R,
    out: Seq<T>,
    left: Seq<T>,
    right: Seq<T>,
    i: int,
    j: int,
)
    requires
        0 <= i <= left.len(),
        0 <= j < right.len(),
        forall|key: int| #[trigger]
            with_key(ranking, out, key) == with_key(ranking, left.take(i), key) + with_key(
                ranking,
                right.take(j),
                key,
            ),
    ensures
        forall|key: int| #[trigger]
            with_key(ranking, out.push(right[j]), key) == with_key(ranking, left.take(i), key)
                + with_key(ranking, right.take(j + 1), key),
{
    let item = right[j];
    assert(right.take(j + 1) =~= right.take(j).push(item));
    assert forall|key: int| #[trigger]
        with_key(ranking, out.push(item), key) == with_key(ranking, left.take(i), key) + with_key(
            ranking,
            right.take(j + 1),
            key,
        ) by {
        lemma_with_key_push(ranking, out, item, key);
        lemma_with_key_push(ranking, right.take(j), item, key);
        let a = with_key(ranking, left.take(i), key);
        let b = with_key(ranking, right.take(j), key);
        assert(with_key(ranking, out, key) == a + b);
        if ranking.key(item) == key {
            assert((a + b).push(item) =~= a + b.push(item));
        }
    }
}

/// Merges two ascending runs. Where keys tie, the item of `left` goes first.
fn merge<T: Copy, R: Ranking<T>>(left: &Vec<T>, right: &Vec<T>, ranking: &R) -> (out: Vec<T>)
    requires
        is_ascending(ranking, left@),
        is_ascending(ranking, right@),
    ensures
        is_stable_sort_of(ranking, out@, left@ + right@),
{
    let mut out: Vec<T> = Vec::new();
    let mut i: usize = 0;
    let mut j: usize = 0;
    proof {
        assert forall|key: int| #[trigger]
            with_key(ranking, out@, key) == with_key(ranking, left@.take(0), key) + with_key(
                ranking,
                right@.take(0),
                key,
            ) by {
            lemma_with_key_empty(ranking, out@, key);
            lemma_with_key_empty(ranking, left@.take(0), key);
            lemma_with_key_empty(ranking, right@.take(0), key);
        }
    }
    while i < left.len() || j < right.len()
        invariant
            i <= left.len(),
            j <= right.len(),
            out@.len() == i + j,
            is_ascending(ranking, left@),
            is_ascending(ranking, right@),
            is_ascending(ranking, out@),
            out@.len() > 0 && i < left.len() ==> ranking.key(out@.last()) <= ranking.key(
                left@[i as int],
            ),
            out@.len() > 0 && j < right.len() ==> ranking.key(out@.last()) <= ranking.key(
                right@[j as int],
            ),
            j > 0 && i < left.len() ==> ranking.key(right@[j - 1]) < ranking.key(left@[i as int]),
            forall|key: int| #[trigger]
                with_key(ranking, out@, key) == with_key(ranking, left@.take(i as int), key)
                    + with_key(ranking, right@.take(j as int), key),
        decreases left.len() - i + right.len() - j,
    {
        let from_left = if i >= left.len() {
            false
        } else if j >= right.len() {
            true
        } else {
            !ranking.before(&right[j], &left[i])
        };
        let ghost before = out@;
        if from_left {
            let item = left[i];
            proof {
                lemma_merge_takes_left(ranking, out@, left@, right@, i as int, j as int);
            }
            out.push(item);
            i += 1;
        } else {
            let item = right[j];
            proof {
                lemma_merge_takes_right(ranking, out@, left@, right@, i as int, j as int);
            }
            out.push(item);
            j += 1;
        }
        assert(is_ascending(ranking, out@)) by {
            assert forall|m: int, n: int| 0 <= m < n < out@.len() implies ranking.key(out@[m])
                <= ranking.key(out@[n]) by {
                if n < before.len() {
                    assert(out@[m] == before[m] && out@[n] == before[n]);
                } else if before.len() > 0 {
                    assert(out@[m] == before[m]);
                    assert(m < before.len() - 1 ==> ranking.key(before[m]) <= ranking.key(
                        before[before.len() - 1],
                    ));
                }
            }
        }
    }
    proof {
        assert(left@.take(i as int) =~= left@);
        assert(right@.take(j as int) =~= right@);
        assert forall|key: int| #[trigger]
            with_key(ranking, out@, key) == with_key(ranking, left@ + right@, key) by {
            Seq::filter_distributes_over_add(left@, right@, |item: T| ranking.key(item) == key);
            assert(with_key(ranking, out@, key) == with_key(ranking, left@.take(i as int), key)
                + with_key(ranking, right@.take(j as int), key));
        }
    }
    out
}

/// Sorts the items of `items` from position `lo` up to `hi` into a new vector.
fn sort_range<T: Copy, R: Ranking<T>>(items: &Vec<T>, lo: usize, hi: usize, ranking: &R) -> (out:
    Vec<T>)
    requires
        lo <= hi <= items.len(),
    ensures
        is_stable_sort_of(ranking, out@, items@.subrange(lo as int, hi as int)),
    decreases hi - lo,
{
    if hi - lo <= 1 {
        let mut out: Vec<T> = Vec::new();
        if lo < hi {
            out.push(items[lo]);
        }
        assert(out@ =~= items@.subrange(lo as int, hi as int));
        out
    } else {
        let mid = lo + (hi - lo) / 2;
        let left = sort_range(items, lo, mid, ranking);
        let right = sort_range(items, mid, hi, ranking);
        let out = merge(&left, &right, ranking);
        proof {
            let first = items@.subrange(lo as int, mid as int);
            let second = items@.subrange(mid as int, hi as int);
            assert(first + second =~= items@.subrange(lo as int, hi as int));
            assert forall|key: int| #[trigger]
                with_key(ranking, out@, key) == with_key(
                    ranking,
                    items@.subrange(lo as int, hi as int),
                    key,
                ) by {
                let pred = |item: T| ranking.key(item) == key;
                Seq::filter_distributes_over_add(left@, right@, pred);
                Seq::filter_distributes_over_add(first, second, pred);
                assert(with_key(ranking, out@, key) == with_key(ranking, left@ + right@, key));
                assert(with_key(ranking, left@, key) == with_key(ranking, first, key));
                assert(with_key(ranking, right@, key) == with_key(ranking, second, key));
            }
        }
        out
    }
}

/// Sorts `items` by ascending key, keeping the arrival order of items whose
/// keys are equal.
pub fn stable_sort<T: Copy, R: Ranking<T>>(items: &mut Vec<T>, ranking: &R)
    ensures
        is_stable_sort_of(ranking, final(items)@, old(items)@),
        final(items)@ == stable_sorted(ranking, old(items)@),
        final(items)@.len() == old(items)@.len(),
        final(items)@.to_multiset() == old(items)@.to_multiset(),
{
    let sorted = sort_range(items, 0, items.len(), ranking);
    proof {
        assert(items@.subrange(0, items@.len() as int) =~= items@);
        lemma_stable_sort_permutes(ranking, sorted@, items@);
        lemma_stable_sorted(ranking, sorted@, items@);
    }
    *items = sorted;
}

/// An item occurs in a sequence as often as in the class of its own key.
proof fn lemma_count_within_class<T, R: Ranking<T>>(ranking: &R, s: Seq<T>, item: T)
    ensures
        s.to_multiset().count(item) == with_key(ranking, s, ranking.key(item)).to_multiset().count(
            item,
        ),
    decreases s.len(),
{
    broadcast use group_multiset_axioms;

    let key = ranking.key(item);
    if s.len() == 0 {
        lemma_with_key_empty(ranking, s, key);
        assert(s =~= Seq::<T>::empty());
    } else {
        let rest = s.drop_last();
        let last = s.last();
        assert(s =~= rest.push(last));
        lemma_count_within_class(ranking, rest, item);
        lemma_with_key_push(ranking, rest, last, key);
        to_multiset_build(rest, last);
        if ranking.key(last) == key {
            to_multiset_build(with_key(ranking, rest, key), last);
        }
    }
}

/// A stable sort only rearranges: it keeps every item, as many times as the
/// input holds it.
pub proof fn lemma_stable_sort_permutes<T, R: Ranking<T>>(
    ranking: &R,
    output: Seq<T>,
    input: Seq<T>,
)
    requires
        is_stable_sort_of(ranking, output, input),
    ensures
        output.to_multiset() == input.to_multiset(),
        output.len() == input.len(),
{
    assert forall|item: T|
        output.to_multiset().count(item) == input.to_multiset().count(item) by {
        lemma_count_within_class(ranking, output, item);
        lemma_count_within_class(ranking, input, item);
        assert(with_key(ranking, output, ranking.key(item)) == with_key(
            ranking,
            input,
            ranking.key(item),
        ));
    }
    assert(output.to_multiset() =~= input.to_multiset());
    to_multiset_len(output);
    to_multiset_len(input);
}

/// Two ascending sequences with the same class for every key are equal.
proof fn lemma_ascending_classes_determine<T, R: Ranking<T>>(ranking: &R, a: Seq<T>, b: Seq<T>)
    requires
        is_ascending(ranking, a),
        is_ascending(ranking, b),
        forall|key: int| #[trigger] with_key(ranking, a, key) == with_key(ranking, b, key),
    ensures
        a == b,
    decreases a.len(),
{
    if a.len() == 0 {
        if b.len() > 0 {
            let key = ranking.key(b.last());
            lemma_with_key_empty(ranking, a, key);
            assert(b =~= b.drop_last().push(b.last()));
            lemma_with_key_push(ranking, b.drop_last(), b.last(), key);
            assert(with_key(ranking, b, key).len() > 0);
            assert(with_key(ranking, a, key) == with_key(ranking, b, key));
        }
        assert(a =~= b);
    } else {
        let x = a.last();
        let ka = ranking.key(x);
        assert(a =~= a.drop_last().push(x));
        lemma_with_key_push(ranking, a.drop_last(), x, ka);
        assert(with_key(ranking, a, ka) == with_key(ranking, b, ka));
        assert(with_key(ranking, a, ka).last() == x);
        if b.len() == 0 {
            lemma_with_key_empty(ranking, b, ka);
        }
        let y = b.last();
        let kb = ranking.key(y);
        assert(b =~= b.drop_last().push(y));
        lemma_with_key_push(ranking, b.drop_last(), y, kb);
        assert(with_key(ranking, a, kb) == with_key(ranking, b, kb));
        if ka < kb {
            // no item of `a` reaches the key of `y`
            assert forall|i: int| 0 <= i < a.len() implies ranking.key(#[trigger] a[i]) != kb by {
                assert(ranking.key(a[i]) <= ranking.key(a[a.len() - 1]));
            }
            lemma_with_key_empty(ranking, a, kb);
        }
        if kb < ka {
            assert forall|i: int| 0 <= i < b.len() implies ranking.key(#[trigger] b[i]) != ka by {
                assert(ranking.key(b[i]) <= ranking.key(b[b.len() - 1]));
            }
            lemma_with_key_empty(ranking, b, ka);
        }
        assert(ka == kb);
        assert(with_key(ranking, b, ka).last() == y);
        assert(x == y);
        assert forall|key: int| #[trigger]
            with_key(ranking, a.drop_last(), key) == with_key(ranking, b.drop_last(), key) by {
            lemma_with_key_push(ranking, a.drop_last(), x, key);
            lemma_with_key_push(ranking, b.drop_last(), y, key);
            assert(with_key(ranking, a, key) == with_key(ranking, b, key));
            if key == ka {
                let ca = with_key(ranking, a.drop_last(), key);
                let cb = with_key(ranking, b.drop_last(), key);
                assert(ca =~= ca.push(x).drop_last());
                assert(cb =~= cb.push(y).drop_last());
            }
        }
        assert(is_ascending(ranking, a.drop_last())) by {
            assert forall|i: int, j: int| 0 <= i < j < a.drop_last().len() implies ranking.key(
                a.drop_last()[i],
            ) <= ranking.key(a.drop_last()[j]) by {
                assert(a.drop_last()[i] == a[i] && a.drop_last()[j] == a[j]);
            }
        }
        assert(is_ascending(ranking, b.drop_last())) by {
            assert forall|i: int, j: int| 0 <= i < j < b.drop_last().len() implies ranking.key(
                b.drop_last()[i],
            ) <= ranking.key(b.drop_last()[j]) by {
                assert(b.drop_last()[i] == b[i] && b.drop_last()[j] == b[j]);
            }
        }
        lemma_ascending_classes_determine(ranking, a.drop_last(), b.drop_last());
    }
}

/// The stable sort of a sequence is unique: two outputs that both meet the
/// contract of [`stable_sort`] for one input are the same sequence.
pub proof fn lemma_stable_sort_unique<T, R: Ranking<T>>(
    ranking: &R,
    first: Seq<T>,
    second: Seq<T>,
    input: Seq<T>,
)
    requires
        is_stable_sort_of(ranking, first, input),
        is_stable_sort_of(ranking, second, input),
    ensures
        first == second,
{
    assert forall|key: int| #[trigger]
        with_key(ranking, first, key) == with_key(ranking, second, key) by {
        assert(with_key(ranking, first, key) == with_key(ranking, input, key));
        assert(with_key(ranking, second, key) == with_key(ranking, input, key));
    }
    lemma_ascending_classes_determine(ranking, first, second);
}

/// Whatever meets the contract of [`stable_sort`] for `input` is
/// [`stable_sorted`] of it.
pub proof fn lemma_stable_sorted<T, R: Ranking<T>>(ranking: &R, output: Seq<T>, input: Seq<T>)
    requires
        is_stable_sort_of(ranking, output, input),
    ensures
        output == stable_sorted(ranking, input),
{
    let chosen = stable_sorted(ranking, input);
    assert(is_stable_sort_of(ranking, chosen, input));
    lemma_stable_sort_unique(ranking, output, chosen, input);
}

} // verus!
