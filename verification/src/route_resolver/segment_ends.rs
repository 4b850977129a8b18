//! The map from the number of a segment to the two stops that it joins.

use std::collections::BTreeMap;
use vstd::prelude::*;

verus! {

broadcast use {vstd::std_specs::btree::group_btree_axioms, vstd::laws_cmp::group_laws_cmp};

/// The two stops of each segment, by the number of the segment.
pub type SegmentEnds<'a> = BTreeMap<usize, (&'a String, &'a String)>;

/// A map that holds no segment.
pub fn no_segment_ends<'a>() -> (ends: SegmentEnds<'a>)
    ensures
        ends@ == Map::<usize, (&String, &String)>::empty(),
{
    BTreeMap::new()
}

/// Puts the two stops of a segment into the map, in place of what it held
/// for that segment.
pub fn put_segment_ends<'a>(
    ends: &mut SegmentEnds<'a>,
    segment: usize,
    start: &'a String,
    end: &'a String,
)
    ensures
        final(ends)@ == old(ends)@.insert(segment, (start, end)),
{
    ends.insert(segment, (start, end));
}

/// The two stops of a segment, where the map holds it.
pub fn segment_ends_of<'a>(ends: &SegmentEnds<'a>, segment: usize) -> (r: Option<
    (&'a String, &'a String),
>)
    ensures
        match r {
            Some(pair) => ends@.contains_key(segment) && pair == ends@[segment],
            None => !ends@.contains_key(segment),
        },
{
    match ends.get(&segment) {
        Some(pair) => Some(*pair),
        None => None,
    }
}

} // verus!
