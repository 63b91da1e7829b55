//! Sorting that keeps items of equal rank in the order they came in.

use vstd::prelude::*;
use vstd::seq_lib::{to_multiset_build, to_multiset_contains, to_multiset_insert, to_multiset_len};

verus! {

/// Items that a strict weak order ranks: `precedes` says which of two items
/// has to come first, and two items of which neither precedes the other are
/// tied.
pub trait Ranked: Sized {
    /// `self` has to come before `other`.
    spec fn precedes(self, other: Self) -> bool;

    /// Nothing precedes itself, preceding is transitive, and so is not
    /// preceding.
    proof fn lemma_strict_weak_order(x: Self, y: Self, z: Self)
        ensures
            !x.precedes(x),
            x.precedes(y) && y.precedes(z) ==> x.precedes(z),
            !x.precedes(y) && !y.precedes(z) ==> !x.precedes(z),
    ;

    /// Decides `precedes`.
    fn comes_before(&self, other: &Self) -> (r: bool)
        ensures
            r == self.precedes(*other),
    ;
}

/// Neither of the two items has to come before the other.
pub open spec fn tied<T: Ranked>(a: T, b: T) -> bool {
    !a.precedes(b) && !b.precedes(a)
}

/// No item has to come before one that stands earlier.
pub open spec fn is_sorted<T: Ranked>(items: Seq<T>) -> bool {
    forall|i: int, j: int| 0 <= i < j < items.len() ==> !items[j].precedes(items[i])
}

/// The items that are tied with `a`, in the order they stand in.
pub open spec fn ties_with<T: Ranked>(items: Seq<T>, a: T) -> Seq<T> {
    items.filter(|x: T| tied(x, a))
}

/// `sorted` holds the items of `items`, each as often as `items` does, in an
/// order in which no item has to come before an earlier one and tied items
/// stand as they stood in `items`.
pub open spec fn is_stable_sort_of<T: Ranked>(sorted: Seq<T>, items: Seq<T>) -> bool {
    &&& is_sorted(sorted)
    &&& sorted.to_multiset() == items.to_multiset()
    &&& forall|a: T| #[trigger] ties_with(sorted, a) == ties_with(items, a)
}

/// In a sorted sequence, everything from the first item that `x` precedes
/// onwards is preceded by `x` and tied with nothing that `x` is tied with.
proof fn lemma_tail_is_beyond<T: Ranked>(sorted: Seq<T>, x: T, k: int, a: T)
    requires
        is_sorted(sorted),
        0 <= k <= sorted.len(),
        k < sorted.len() ==> x.precedes(sorted[k]),
        tied(x, a),
    ensures
        ties_with(sorted.subrange(k, sorted.len() as int), a) == Seq::<T>::empty(),
{
    let tail = sorted.subrange(k, sorted.len() as int);
    let pred = |y: T| tied(y, a);
    assert forall|m: int| 0 <= m < tail.len() implies !pred(#[trigger] tail[m]) by {
        let y = sorted[k + m];
        assert(tail[m] == y);
        T::lemma_strict_weak_order(x, y, sorted[k]);
        assert(x.precedes(y));
        T::lemma_strict_weak_order(x, a, y);
    }
    tail.lemma_all_neg_filter_empty(pred);
    assert(tail.filter(pred) =~= Seq::<T>::empty());
}

/// Inserting `x` into a sorted sequence, behind everything it does not
/// precede and before the first item it precedes, gives a sorted sequence in
/// which `x` follows the items it is tied with.
proof fn lemma_insert_keeps_sorted<T: Ranked>(sorted: Seq<T>, x: T, k: int)
    requires
        is_sorted(sorted),
        0 <= k <= sorted.len(),
        forall|m: int| 0 <= m < k ==> !x.precedes(sorted[m]),
        k < sorted.len() ==> x.precedes(sorted[k]),
    ensures
        is_sorted(sorted.insert(k, x)),
        forall|a: T| #[trigger]
            ties_with(sorted.insert(k, x), a) == ties_with(sorted.push(x), a),
{
    let after = sorted.insert(k, x);
    sorted.insert_ensures(k, x);
    assert forall|i: int, j: int| 0 <= i < j < after.len() implies !after[j].precedes(
        after[i],
    ) by {
        if i == k {
            let y = sorted[j - 1];
            assert(after[j] == y);
            T::lemma_strict_weak_order(y, x, sorted[k]);
            T::lemma_strict_weak_order(sorted[k], sorted[k], sorted[k]);
        } else if j == k {
            assert(after[i] == sorted[i]);
        } else {
            let from = if i < k { i } else { i - 1 };
            let to = if j < k { j } else { j - 1 };
            assert(after[i] == sorted[from] && after[j] == sorted[to]);
        }
    }
    assert forall|a: T| #[trigger]
        ties_with(after, a) == ties_with(sorted.push(x), a) by {
        let pred = |y: T| tied(y, a);
        let head = sorted.subrange(0, k);
        let tail = sorted.subrange(k, sorted.len() as int);
        assert(sorted =~= head + tail);
        assert(after =~= head.push(x) + tail);
        Seq::filter_distributes_over_add(head, tail, pred);
        Seq::filter_distributes_over_add(head.push(x), tail, pred);
        head.lemma_filter_push(x, pred);
        sorted.lemma_filter_push(x, pred);
        if tied(x, a) {
            lemma_tail_is_beyond(sorted, x, k, a);
            assert(tail.filter(pred) =~= Seq::<T>::empty());
            assert(after.filter(pred) =~= head.filter(pred).push(x));
            assert(sorted.filter(pred) =~= head.filter(pred));
        }
    }
}

/// Two sorted sequences that hold the same items equally often and list the
/// items of every tie in the same order are the same sequence.
proof fn lemma_sorted_alike<T: Ranked>(a: Seq<T>, b: Seq<T>)
    requires
        is_sorted(a),
        is_sorted(b),
        a.to_multiset() == b.to_multiset(),
        forall|x: T| #[trigger] ties_with(a, x) == ties_with(b, x),
    ensures
        a == b,
    decreases a.len(),
{
    to_multiset_len(a);
    to_multiset_len(b);
    if a.len() > 0 {
        let a_rest = a.drop_last();
        let b_rest = b.drop_last();
        let last_a = a.last();
        let last_b = b.last();
        assert(a =~= a_rest.push(last_a));
        assert(b =~= b_rest.push(last_b));
        // Each of the two last items occurs in the other sequence, where
        // nothing later than it may precede it: the two are tied.
        to_multiset_contains(a, last_b);
        to_multiset_contains(b, last_a);
        to_multiset_contains(a, last_a);
        to_multiset_contains(b, last_b);
        assert(b[b.len() - 1] == last_b);
        assert(a[a.len() - 1] == last_a);
        assert(a.contains(last_b));
        assert(b.contains(last_a));
        let i = choose|i: int| 0 <= i < a.len() && a[i] == last_b;
        let j = choose|j: int| 0 <= j < b.len() && b[j] == last_a;
        T::lemma_strict_weak_order(last_a, last_a, last_b);
        T::lemma_strict_weak_order(last_b, last_b, last_a);
        assert(!last_a.precedes(last_b));
        assert(!last_b.precedes(last_a));
        // So both end the list of the items tied with them, which is one
        // list: they are one item.
        let pred = |y: T| tied(y, last_a);
        a_rest.lemma_filter_push(last_a, pred);
        b_rest.lemma_filter_push(last_b, pred);
        assert(ties_with(a, last_a) == ties_with(b, last_a));
        assert(ties_with(a, last_a).last() == last_a);
        assert(ties_with(b, last_a).last() == last_b);
        assert(last_a == last_b);
        // What stands before them is alike in the same way.
        to_multiset_build(a_rest, last_a);
        to_multiset_build(b_rest, last_b);
        assert(a_rest.to_multiset() =~= a.to_multiset().remove(last_a));
        assert(b_rest.to_multiset() =~= b.to_multiset().remove(last_b));
        assert forall|x: T| #[trigger] ties_with(a_rest, x) == ties_with(b_rest, x) by {
            let with_x = |y: T| tied(y, x);
            a_rest.lemma_filter_push(last_a, with_x);
            b_rest.lemma_filter_push(last_b, with_x);
            assert(ties_with(a, x) == ties_with(b, x));
            if tied(last_a, x) {
                assert(ties_with(a_rest, x) =~= ties_with(a, x).drop_last());
                assert(ties_with(b_rest, x) =~= ties_with(b, x).drop_last());
            }
        }
        assert(is_sorted(a_rest)) by {
            assert forall|p: int, q: int| 0 <= p < q < a_rest.len() implies !a_rest[q].precedes(
                a_rest[p],
            ) by {
                assert(a_rest[p] == a[p] && a_rest[q] == a[q]);
            }
        }
        assert(is_sorted(b_rest)) by {
            assert forall|p: int, q: int| 0 <= p < q < b_rest.len() implies !b_rest[q].precedes(
                b_rest[p],
            ) by {
                assert(b_rest[p] == b[p] && b_rest[q] == b[q]);
            }
        }
        lemma_sorted_alike(a_rest, b_rest);
    } else {
        assert(a =~= b);
    }
}

/// A sequence has one stable sort and no other.
pub proof fn lemma_stable_sort_is_unique<T: Ranked>(first: Seq<T>, second: Seq<T>, items: Seq<T>)
    requires
        is_stable_sort_of(first, items),
        is_stable_sort_of(second, items),
    ensures
        first == second,
{
    assert forall|x: T| #[trigger] ties_with(first, x) == ties_with(second, x) by {
        assert(ties_with(first, x) == ties_with(items, x));
        assert(ties_with(second, x) == ties_with(items, x));
    }
    lemma_sorted_alike(first, second);
}

/// Sorts the items, keeping tied items in the order they came in.
pub fn stable_sort<T: Ranked>(items: Vec<T>) -> (sorted: Vec<T>)
    ensures
        is_stable_sort_of(sorted@, items@),
{
    let ghost input = items@;
    let mut out: Vec<T> = Vec::new();
    let ghost mut done: int = 0;
    proof {
        assert(input.take(0) =~= Seq::<T>::empty());
    }
    for item in it: items
        invariant
            it.seq() == input,
            done == it.index(),
            0 <= done <= input.len(),
            is_sorted(out@),
            out@.to_multiset() == input.take(done).to_multiset(),
            forall|a: T| #[trigger] ties_with(out@, a) == ties_with(input.take(done), a),
    {
        let n: usize = out.len();
        let mut k: usize = 0;
        while k < n && !item.comes_before(&out[k])
            invariant
                n == out@.len(),
                0 <= k <= n,
                forall|m: int| 0 <= m < k ==> !item.precedes(out@[m]),
            decreases n - k,
        {
            k += 1;
        }
        let ghost before = out@;
        out.insert(k, item);
        proof {
            lemma_insert_keeps_sorted(before, item, k as int);
            to_multiset_insert(before, k as int, item);
            to_multiset_build(input.take(done), item);
            assert(input.take(done + 1) =~= input.take(done).push(item));
            assert forall|a: T| #[trigger]
                ties_with(out@, a) == ties_with(input.take(done + 1), a) by {
                let pred = |y: T| tied(y, a);
                assert(ties_with(before, a) == ties_with(input.take(done), a));
                before.lemma_filter_push(item, pred);
                input.take(done).lemma_filter_push(item, pred);
            }
            done = done + 1;
        }
    }
    proof {
        assert(input.take(done) =~= input);
    }
    out
}

} // verus!
