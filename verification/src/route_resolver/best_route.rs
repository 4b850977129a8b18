//! What the chains of a trip have in common.

use crate::utils::{copy_range, index_lists};
use vstd::prelude::*;

verus! {

/// The length of the shortest of `lists`.
pub open spec fn shortest_len(lists: Seq<Seq<usize>>) -> nat
    decreases lists.len(),
{
    if lists.len() == 0 {
        0
    } else if lists.len() == 1 {
        lists[0].len()
    } else {
        let before = shortest_len(lists.drop_last());
        if lists.last().len() < before {
            lists.last().len()
        } else {
            before
        }
    }
}

/// All of `lists` hold at position `i` what the first of them holds there.
pub open spec fn agree_at(lists: Seq<Seq<usize>>, i: int) -> bool {
    forall|k: int| 0 <= k < lists.len() ==> (#[trigger] lists[k])[i] == lists[0][i]
}

/// All of `lists` hold at the position `i` before their last what the first
/// of them holds there.
pub open spec fn agree_from_end(lists: Seq<Seq<usize>>, i: int) -> bool {
    forall|k: int|
        0 <= k < lists.len() ==> (#[trigger] lists[k])[lists[k].len() - 1 - i]
            == lists[0][lists[0].len() - 1 - i]
}

/// No list is shorter than the shortest.
pub proof fn lemma_shortest_len(lists: Seq<Seq<usize>>, k: int)
    requires
        0 <= k < lists.len(),
    ensures
        shortest_len(lists) <= lists[k].len(),
    decreases lists.len(),
{
    if lists.len() > 1 {
        if k < lists.len() - 1 {
            lemma_shortest_len(lists.drop_last(), k);
        }
    }
}

/// The length of the shortest of `lists`.
fn min_len(lists: &[Vec<usize>]) -> (n: usize)
    requires
        lists@.len() > 0,
    ensures
        n == shortest_len(index_lists(lists@)),
        forall|k: int| 0 <= k < lists@.len() ==> n <= (#[trigger] lists@[k])@.len(),
{
    let ghost views = index_lists(lists@);
    let mut n: usize = lists[0].len();
    let mut k: usize = 1;
    assert(views.take(1).len() == 1);
    while k < lists.len()
        invariant
            1 <= k <= lists@.len(),
            views == index_lists(lists@),
            n == shortest_len(views.take(k as int)),
        decreases lists@.len() - k,
    {
        assert(views.take(k + 1).drop_last() =~= views.take(k as int));
        if lists[k].len() < n {
            n = lists[k].len();
        }
        k += 1;
    }
    proof {
        assert(views.take(k as int) =~= views);
        assert forall|j: int| 0 <= j < lists@.len() implies n <= (#[trigger] lists@[j])@.len() by {
            lemma_shortest_len(views, j);
        }
    }
    n
}

/// Whether all lists hold at position `i` what the first holds there.
fn agrees_at(lists: &[Vec<usize>], i: usize) -> (b: bool)
    requires
        lists@.len() > 0,
        forall|k: int| 0 <= k < lists@.len() ==> i < (#[trigger] lists@[k])@.len(),
    ensures
        b == agree_at(index_lists(lists@), i as int),
{
    let ghost views = index_lists(lists@);
    let val: usize = lists[0][i];
    let mut k: usize = 1;
    while k < lists.len()
        invariant
            1 <= k <= lists@.len(),
            views == index_lists(lists@),
            val == views[0][i as int],
            forall|j: int| 0 <= j < lists@.len() ==> i < (#[trigger] lists@[j])@.len(),
            forall|j: int| 0 <= j < k ==> (#[trigger] views[j])[i as int] == val,
        decreases lists@.len() - k,
    {
        assert(i < lists@[k as int]@.len());
        if lists[k][i] != val {
            assert(views[k as int][i as int] != val);
            return false;
        }
        k += 1;
    }
    true
}

/// Whether all lists hold at the position `i` before their last what the
/// first holds there.
fn agrees_from_end(lists: &[Vec<usize>], i: usize) -> (b: bool)
    requires
        lists@.len() > 0,
        forall|k: int| 0 <= k < lists@.len() ==> i < (#[trigger] lists@[k])@.len(),
    ensures
        b == agree_from_end(index_lists(lists@), i as int),
{
    let ghost views = index_lists(lists@);
    let val: usize = lists[0][lists[0].len() - 1 - i];
    let mut k: usize = 1;
    while k < lists.len()
        invariant
            1 <= k <= lists@.len(),
            views == index_lists(lists@),
            val == views[0][views[0].len() - 1 - i],
            forall|j: int| 0 <= j < lists@.len() ==> i < (#[trigger] lists@[j])@.len(),
            forall|j: int| 0 <= j < k ==> (#[trigger] views[j])[views[j].len() - 1 - i] == val,
        decreases lists@.len() - k,
    {
        assert(i < lists@[k as int]@.len());
        let r = &lists[k];
        if r[r.len() - 1 - i] != val {
            assert(views[k as int][views[k as int].len() - 1 - i] != val);
            return false;
        }
        k += 1;
    }
    true
}

/// `prefix`, `middles` and `postfix` are what `lists` have in common and
/// what is left of each: every list is the prefix, its own middle and the
/// postfix; the prefix is the longest start that all lists share; and the
/// postfix is the longest end that they share beyond the prefix.
pub open spec fn is_common_split(
    lists: Seq<Seq<usize>>,
    prefix: Seq<usize>,
    middles: Seq<Seq<usize>>,
    postfix: Seq<usize>,
) -> bool {
    &&& middles.len() == lists.len()
    &&& prefix.len() + postfix.len() <= shortest_len(lists)
    &&& forall|k: int|
        0 <= k < lists.len() ==> #[trigger] lists[k] == prefix + middles[k] + postfix
    &&& prefix.len() < shortest_len(lists) ==> !agree_at(lists, prefix.len() as int)
    &&& prefix.len() + postfix.len() < shortest_len(lists) ==> !agree_from_end(
        lists,
        postfix.len() as int,
    )
}

/// Splits the chains of a trip into what they have in common and what is
/// left of each. Hands back the segments with which all chains start, the
/// rest of each chain, and the segments with which all chains end. Of no
/// chains nothing is left.
pub fn remove_common_elements(route_segments: &[Vec<usize>]) -> (r: (
    Vec<usize>,
    Vec<Vec<usize>>,
    Vec<usize>,
))
    ensures
        route_segments@.len() == 0 ==> r.0@.len() == 0 && r.1@.len() == 0 && r.2@.len() == 0,
        route_segments@.len() > 0 ==> is_common_split(
            index_lists(route_segments@),
            r.0@,
            index_lists(r.1@),
            r.2@,
        ),
{
    let ghost lists = index_lists(route_segments@);
    if route_segments.len() == 0 {
        return (Vec::new(), Vec::new(), Vec::new());
    }
    let min_len: usize = min_len(route_segments);
    let first = &route_segments[0];
    let mut p: usize = 0;
    while p < min_len && agrees_at(route_segments, p)
        invariant
            p <= min_len,
            route_segments@.len() > 0,
            lists == index_lists(route_segments@),
            forall|k: int| 0 <= k < route_segments@.len() ==> min_len <= (#[trigger] route_segments@[k])@.len(),
            forall|i: int| 0 <= i < p ==> agree_at(lists, i),
        decreases min_len - p,
    {
        p += 1;
    }
    let mut q: usize = 0;
    while q < min_len - p && agrees_from_end(route_segments, q)
        invariant
            p <= min_len,
            q <= min_len - p,
            route_segments@.len() > 0,
            lists == index_lists(route_segments@),
            forall|k: int| 0 <= k < route_segments@.len() ==> min_len <= (#[trigger] route_segments@[k])@.len(),
            forall|i: int| 0 <= i < q ==> agree_from_end(lists, i),
        decreases min_len - p - q,
    {
        q += 1;
    }
    let prefix = copy_range(first, 0, p);
    let postfix = copy_range(first, first.len() - q, first.len());
    let mut new_subsegments: Vec<Vec<usize>> = Vec::new();
    let mut k: usize = 0;
    while k < route_segments.len()
        invariant
            k <= route_segments@.len(),
            p + q <= min_len,
            lists == index_lists(route_segments@),
            forall|j: int| 0 <= j < route_segments@.len() ==> min_len <= (#[trigger] route_segments@[j])@.len(),
            new_subsegments@.len() == k,
            forall|j: int|
                0 <= j < k ==> (#[trigger] new_subsegments@[j])@ == lists[j].subrange(
                    p as int,
                    lists[j].len() - q,
                ),
        decreases route_segments@.len() - k,
    {
        let s = &route_segments[k];
        assert(min_len <= route_segments@[k as int]@.len());
        new_subsegments.push(copy_range(s, p, s.len() - q));
        k += 1;
    }
    proof {
        let middles = index_lists(new_subsegments@);
        assert forall|j: int| 0 <= j < lists.len() implies #[trigger] lists[j] == prefix@
            + middles[j] + postfix@ by {
            let whole = lists[j];
            let built = prefix@ + middles[j] + postfix@;
            assert(min_len <= route_segments@[j]@.len());
            assert(middles[j] == new_subsegments@[j]@);
            assert(built.len() == whole.len());
            assert forall|i: int| 0 <= i < whole.len() implies whole[i] == built[i] by {
                if i < p {
                    assert(agree_at(lists, i));
                } else if i >= whole.len() - q {
                    let back = whole.len() - 1 - i;
                    assert(agree_from_end(lists, back));
                }
            }
            assert(whole =~= built);
        }
    }
    (prefix, new_subsegments, postfix)
}

} // verus!
