//! Grouping a sorted page list into consecutive non-overlapping pairs.

use vstd::prelude::*;
use crate::listing::{views_of, copy_name};

verus! {

/// Two consecutive pages whose names are to be exchanged.
pub struct PagePair {
    pub first: Vec<u8>,
    pub second: Vec<u8>,
}

/// Groups the pages into consecutive pairs: positions (0,1), (2,3), … .
/// A page set of size n yields exactly n / 2 pairs covering positions
/// 0 .. 2·(n / 2) in order; with an odd count the last page stays unpaired
/// and untouched.
pub fn pair_up(pages: &Vec<Vec<u8>>) -> (pairs: Vec<PagePair>)
    ensures
        pairs@.len() == pages@.len() / 2,
        forall|i: int|
            0 <= i < pairs@.len() ==> (#[trigger] pairs@[i]).first@ == views_of(pages@)[2 * i]
                && pairs@[i].second@ == views_of(pages@)[2 * i + 1],
{
    let n = pages.len();
    let m = n / 2;
    let mut pairs: Vec<PagePair> = Vec::new();
    let mut k: usize = 0;
    while k < m
        invariant
            n == pages@.len(),
            m == n / 2,
            k <= m,
            pairs@.len() == k,
            forall|i: int|
                0 <= i < k ==> (#[trigger] pairs@[i]).first@ == views_of(pages@)[2 * i]
                    && pairs@[i].second@ == views_of(pages@)[2 * i + 1],
        decreases m - k,
    {
        let a = copy_name(&pages[2 * k]);
        let b = copy_name(&pages[2 * k + 1]);
        pairs.push(PagePair { first: a, second: b });
        k = k + 1;
    }
    pairs
}

} // verus!
