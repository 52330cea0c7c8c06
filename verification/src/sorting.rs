//! Stable sorting of indices by integer keys.

use vstd::prelude::*;

verus! {

/// One key comes before another.
pub open spec fn key_before(a: (i64, i64), b: (i64, i64)) -> bool {
    a.0 < b.0 || (a.0 == b.0 && a.1 < b.1)
}

/// A sorted list with one more index, behind all that do not come after it.
pub open spec fn inserted(sorted: Seq<usize>, keys: Seq<(i64, i64)>, x: usize) -> Seq<usize>
    decreases sorted.len(),
{
    if sorted.len() == 0 || !key_before(keys[x as int], keys[sorted.last() as int]) {
        sorted.push(x)
    } else {
        inserted(sorted.drop_last(), keys, x).push(sorted.last())
    }
}

/// The indices in the order of their keys; equal keys keep their order.
pub open spec fn stably_sorted(list: Seq<usize>, keys: Seq<(i64, i64)>) -> Seq<usize>
    decreases list.len(),
{
    if list.len() == 0 {
        Seq::empty()
    } else {
        inserted(stably_sorted(list.drop_last(), keys), keys, list.last())
    }
}

fn is_before(a: (i64, i64), b: (i64, i64)) -> (r: bool)
    ensures
        r == key_before(a, b),
{
    a.0 < b.0 || (a.0 == b.0 && a.1 < b.1)
}

/// Every index of the list has a key.
pub open spec fn has_keys(list: Seq<usize>, keys: Seq<(i64, i64)>) -> bool {
    forall|i: int| 0 <= i < list.len() ==> (#[trigger] list[i]) < keys.len()
}

/// Sorts indices by their keys; equal keys keep their order.
pub fn sort_indices(list: &Vec<usize>, keys: &Vec<(i64, i64)>) -> (r: Vec<usize>)
    requires
        has_keys(list@, keys@),
    ensures
        r@ == stably_sorted(list@, keys@),
        has_keys(r@, keys@),
        r@.to_multiset() == list@.to_multiset(),
        r@.len() == list@.len(),
{
    let mut out: Vec<usize> = Vec::new();
    let mut i: usize = 0;
    while i < list.len()
        invariant
            i <= list@.len(),
            has_keys(list@, keys@),
            out@ == stably_sorted(list@.take(i as int), keys@),
            has_keys(out@, keys@),
        decreases list@.len() - i,
    {
        let x = list[i];
        let ghost sorted = out@;
        let mut at: usize = out.len();
        out.push(x);
        let ghost mut tail: Seq<usize> = Seq::empty();
        assert(inserted(sorted, keys@, x) =~= inserted(sorted.take(at as int), keys@, x) + tail) by {
            assert(sorted.take(at as int) =~= sorted);
        }
        while at > 0 && is_before(keys[x], keys[out[at - 1]])
            invariant
                at < out@.len(),
                out@.len() == sorted.len() + 1,
                x < keys@.len(),
                has_keys(out@, keys@),
                tail == sorted.skip(at as int),
                out@ == sorted.take(at as int).push(x) + tail,
                inserted(sorted, keys@, x) == inserted(sorted.take(at as int), keys@, x) + tail,
            decreases at,
        {
            let y = out[at - 1];
            assert(y == sorted[at - 1]);
            out[at] = y;
            out[at - 1] = x;
            proof {
                let head = sorted.take(at as int);
                assert(head.last() == y);
                assert(head.drop_last() =~= sorted.take(at - 1));
                let next = seq![y] + tail;
                assert(inserted(sorted.take(at - 1), keys@, x).push(y) + tail =~= inserted(
                    sorted.take(at - 1),
                    keys@,
                    x,
                ) + next);
                assert(next =~= sorted.skip(at - 1));
                assert(out@ =~= sorted.take(at - 1).push(x) + next);
                tail = next;
            }
            at -= 1;
        }
        proof {
            let head = sorted.take(at as int);
            assert(at > 0 ==> head.last() == out@[at - 1]);
            assert(inserted(head, keys@, x) == head.push(x));
            assert(list@.take(i + 1).drop_last() =~= list@.take(i as int));
        }
        i += 1;
    }
    proof {
        assert(list@.take(list@.len() as int) =~= list@);
        lemma_sorted_is_permutation(list@, keys@);
        law_sorted_is_an_ordered_permutation(list@, keys@);
    }
    out
}

proof fn lemma_inserted_multiset(sorted: Seq<usize>, keys: Seq<(i64, i64)>, x: usize)
    ensures
        inserted(sorted, keys, x).to_multiset() == sorted.to_multiset().insert(x),
    decreases sorted.len(),
{
    broadcast use vstd::seq_lib::group_to_multiset_ensures;

    if sorted.len() == 0 || !key_before(keys[x as int], keys[sorted.last() as int]) {
    } else {
        lemma_inserted_multiset(sorted.drop_last(), keys, x);
        assert(sorted.drop_last().push(sorted.last()) =~= sorted);
        assert(sorted.drop_last().to_multiset().insert(sorted.last()) == sorted.to_multiset());
        assert(sorted.drop_last().to_multiset().insert(x).insert(sorted.last()) =~= sorted.to_multiset().insert(x));
    }
}

proof fn lemma_sorted_is_permutation(list: Seq<usize>, keys: Seq<(i64, i64)>)
    ensures
        stably_sorted(list, keys).to_multiset() == list.to_multiset(),
    decreases list.len(),
{
    broadcast use vstd::seq_lib::group_to_multiset_ensures;

    if list.len() > 0 {
        lemma_sorted_is_permutation(list.drop_last(), keys);
        lemma_inserted_multiset(stably_sorted(list.drop_last(), keys), keys, list.last());
        assert(list.drop_last().push(list.last()) =~= list);
    }
}

/// No index comes after one whose key is larger.
pub open spec fn in_order(list: Seq<usize>, keys: Seq<(i64, i64)>) -> bool {
    forall|i: int, j: int|
        0 <= i < j < list.len() ==> !key_before(keys[(#[trigger] list[j]) as int], keys[(#[trigger] list[i]) as int])
}

proof fn lemma_inserted_in_order(sorted: Seq<usize>, keys: Seq<(i64, i64)>, x: usize)
    requires
        in_order(sorted, keys),
    ensures
        in_order(inserted(sorted, keys, x), keys),
        inserted(sorted, keys, x).len() == sorted.len() + 1,
        forall|i: int|
            0 <= i < inserted(sorted, keys, x).len() ==> (inserted(sorted, keys, x)[i] == x || sorted.contains(
                #[trigger] inserted(sorted, keys, x)[i],
            )),
    decreases sorted.len(),
{
    if sorted.len() == 0 || !key_before(keys[x as int], keys[sorted.last() as int]) {
        let r = sorted.push(x);
        assert forall|i: int| 0 <= i < r.len() implies (r[i] == x || sorted.contains(#[trigger] r[i])) by {
            if i < sorted.len() {
                assert(sorted[i] == r[i]);
            }
        }
        assert forall|i: int, j: int| 0 <= i < j < r.len() implies !key_before(
            keys[(#[trigger] r[j]) as int],
            keys[(#[trigger] r[i]) as int],
        ) by {
            if j == sorted.len() {
                assert(r[i] == sorted[i]);
                assert(i < sorted.len() - 1 ==> !key_before(keys[sorted.last() as int], keys[sorted[i] as int]));
            } else {
                assert(r[i] == sorted[i] && r[j] == sorted[j]);
            }
        }
    } else {
        let head = sorted.drop_last();
        assert(in_order(head, keys)) by {
            assert forall|i: int, j: int| 0 <= i < j < head.len() implies !key_before(
                keys[(#[trigger] head[j]) as int],
                keys[(#[trigger] head[i]) as int],
            ) by {
                assert(head[i] == sorted[i] && head[j] == sorted[j]);
            }
        }
        lemma_inserted_in_order(head, keys, x);
        let part = inserted(head, keys, x);
        let r = part.push(sorted.last());
        assert forall|i: int| 0 <= i < r.len() implies (r[i] == x || sorted.contains(#[trigger] r[i])) by {
            if i < part.len() {
                assert(r[i] == part[i]);
                if part[i] != x {
                    let k = choose|k: int| 0 <= k < head.len() && head[k] == part[i];
                    assert(sorted[k] == r[i]);
                }
            } else {
                assert(r[i] == sorted[sorted.len() - 1]);
            }
        }
        assert forall|i: int, j: int| 0 <= i < j < r.len() implies !key_before(
            keys[(#[trigger] r[j]) as int],
            keys[(#[trigger] r[i]) as int],
        ) by {
            assert(r[i] == part[i]);
            if j == part.len() {
                if part[i] != x {
                    let k = choose|k: int| 0 <= k < head.len() && head[k] == part[i];
                    assert(sorted[k] == r[i]);
                    assert(!key_before(keys[sorted[sorted.len() - 1] as int], keys[sorted[k] as int]));
                }
            } else {
                assert(r[j] == part[j]);
            }
        }
    }
}

/// A sorted list holds the same indices, in the order of their keys.
pub proof fn law_sorted_is_an_ordered_permutation(list: Seq<usize>, keys: Seq<(i64, i64)>)
    ensures
        stably_sorted(list, keys).to_multiset() == list.to_multiset(),
        stably_sorted(list, keys).len() == list.len(),
        in_order(stably_sorted(list, keys), keys),
    decreases list.len(),
{
    lemma_sorted_is_permutation(list, keys);
    if list.len() > 0 {
        law_sorted_is_an_ordered_permutation(list.drop_last(), keys);
        lemma_inserted_in_order(stably_sorted(list.drop_last(), keys), keys, list.last());
    }
}

} // verus!
