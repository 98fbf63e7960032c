use vstd::prelude::*;

verus! {

/// Which feed items to fetch.
#[derive(PartialEq, Eq, Structural, Clone, Copy, Debug)]
pub enum FetchType {
    /// Those added today.
    Today,
    /// Those added yesterday.
    Yesterday,
    /// The first ones of the feed, this many.
    Latest(usize),
}

/// The first `n` of the items, in order.
pub fn keep_latest<T>(items: &mut Vec<T>, n: usize)
    ensures
        final(items)@ == old(items)@.take(if n < old(items)@.len() { n as int } else { old(items)@.len() as int }),
{
    if n < items.len() {
        items.truncate(n);
    } else {
        assert(items@.take(items@.len() as int) =~= items@);
    }
}

} // verus!
