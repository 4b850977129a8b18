//! Helpers on lists.

use vstd::prelude::*;

verus! {

/// What a list of index lists holds.
pub open spec fn index_lists(lists: Seq<Vec<usize>>) -> Seq<Seq<usize>> {
    Seq::new(lists.len(), |i: int| lists[i]@)
}

/// A copy of the elements of `v` from `from` up to but not including `to`.
pub fn copy_range(v: &Vec<usize>, from: usize, to: usize) -> (r: Vec<usize>)
    requires
        from <= to <= v@.len(),
    ensures
        r@ == v@.subrange(from as int, to as int),
{
    let mut r: Vec<usize> = Vec::new();
    let mut i: usize = from;
    while i < to
        invariant
            from <= i <= to <= v@.len(),
            r@ == v@.subrange(from as int, i as int),
        decreases to - i,
    {
        r.push(v[i]);
        i += 1;
        assert(r@ =~= v@.subrange(from as int, i as int));
    }
    assert(v@.subrange(from as int, from as int) =~= Seq::<usize>::empty());
    r
}

/// The elements of `v` in reverse order.
pub fn reverse_list<T>(v: Vec<T>) -> (r: Vec<T>)
    ensures
        r@ == v@.reverse(),
{
    let ghost whole = v@;
    let mut v = v;
    let mut r: Vec<T> = Vec::new();
    while v.len() > 0
        invariant
            v@.len() <= whole.len(),
            v@ == whole.take(v@.len() as int),
            r@.len() == whole.len() - v@.len(),
            forall|k: int| 0 <= k < r@.len() ==> r@[k] == whole[whole.len() - 1 - k],
        decreases v@.len(),
    {
        let x = v.pop().unwrap();
        r.push(x);
    }
    assert(r@ =~= whole.reverse());
    r
}

/// The position of the first failure among `items`, or their number where
/// none has failed.
pub open spec fn first_failure<T, E>(items: Seq<Result<T, E>>) -> int
    decreases items.len(),
{
    if items.len() == 0 {
        0
    } else if items[0] is Err {
        0
    } else {
        1 + first_failure(items.drop_first())
    }
}

/// `first_failure` names a failure before which nothing has failed, or the
/// end of the list.
pub proof fn lemma_first_failure<T, E>(items: Seq<Result<T, E>>)
    ensures
        0 <= first_failure(items) <= items.len(),
        forall|i: int| 0 <= i < first_failure(items) ==> (#[trigger] items[i]) is Ok,
        first_failure(items) < items.len() ==> items[first_failure(items)] is Err,
    decreases items.len(),
{
    if items.len() > 0 && items[0] is Ok {
        let rest = items.drop_first();
        lemma_first_failure(rest);
        assert forall|i: int| 0 <= i < first_failure(items) implies (#[trigger] items[i]) is Ok by {
            if i > 0 {
                assert(items[i] == rest[i - 1]);
            }
        }
    }
}

/// Gathers the values of a list of results. Hands back all the values, in
/// their order, where nothing has failed, else the first failure.
pub fn collect_results<T, E>(iter: Vec<Result<T, E>>) -> (result: Result<Vec<T>, E>)
    ensures
        match result {
            Ok(values) => first_failure(iter@) == iter@.len() && values@.len() == iter@.len()
                && forall|i: int| 0 <= i < iter@.len() ==> iter@[i] == Ok::<T, E>(#[trigger] values@[i]),
            Err(e) => first_failure(iter@) < iter@.len() && iter@[first_failure(iter@)] == Err::<
                T,
                E,
            >(e),
        },
{
    let ghost all = iter@;
    proof {
        lemma_first_failure(all);
    }
    let mut pending = reverse_list(iter);
    let mut result: Vec<T> = Vec::new();
    while pending.len() > 0
        invariant
            all == iter@,
            pending@.len() + result@.len() == all.len(),
            forall|k: int| 0 <= k < pending@.len() ==> pending@[k] == all[all.len() - 1 - k],
            forall|i: int| 0 <= i < result@.len() ==> all[i] == Ok::<T, E>(#[trigger] result@[i]),
            result@.len() <= first_failure(all) <= all.len(),
            forall|i: int| 0 <= i < first_failure(all) ==> (#[trigger] all[i]) is Ok,
            first_failure(all) < all.len() ==> all[first_failure(all)] is Err,
        decreases pending@.len(),
    {
        let item = pending.pop().unwrap();
        assert(item == all[result@.len() as int]);
        match item {
            Ok(value) => {
                result.push(value);
            },
            Err(e) => {
                return Err(e);
            },
        }
    }
    Ok(result)
}

} // verus!
