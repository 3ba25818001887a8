//! The rename plan: the four-step exchange of one pair's names, and the
//! whole book's plan, pair after pair.

use vstd::prelude::*;
use crate::name::{bak_of, bak_name, lex_leq_fn};
use crate::listing::{DirEntry, views_of, pages_of, list_pages, copy_name};
use crate::pairing::{PagePair, pair_up};

verus! {

/// One rename step: the file at `from` is to be renamed to `to`.
pub struct RenameOp {
    pub from: Vec<u8>,
    pub to: Vec<u8>,
}

/// The (from, to) views of a plan.
pub open spec fn op_views(ops: Seq<RenameOp>) -> Seq<(Seq<u8>, Seq<u8>)> {
    ops.map_values(|o: RenameOp| (o.from@, o.to@))
}

/// The four-step exchange of the names `a` and `b`, in the one order that
/// never renames onto an occupied name:
/// 1. `a` → `b.bak`, 2. `b` → `a.bak`, 3. `a.bak` → `a`, 4. `b.bak` → `b`.
pub open spec fn swap_ops(a: Seq<u8>, b: Seq<u8>) -> Seq<(Seq<u8>, Seq<u8>)> {
    seq![(a, bak_of(b)), (b, bak_of(a)), (bak_of(a), a), (bak_of(b), b)]
}

/// The whole book's plan over the sorted pages: the first pair's exchange,
/// then the next pair's, and so on; a trailing unpaired page gets no step.
pub open spec fn book_ops(pages: Seq<Seq<u8>>) -> Seq<(Seq<u8>, Seq<u8>)>
    decreases pages.len(),
{
    if pages.len() < 2 {
        Seq::empty()
    } else {
        swap_ops(pages[0], pages[1]) + book_ops(pages.skip(2))
    }
}

/// Builds the four rename steps for one pair.
pub fn swap_plan(pair: &PagePair) -> (ops: Vec<RenameOp>)
    ensures
        op_views(ops@) == swap_ops(pair.first@, pair.second@),
{
    let a_bak = bak_name(&pair.first);
    let b_bak = bak_name(&pair.second);
    let mut ops: Vec<RenameOp> = Vec::new();
    ops.push(RenameOp { from: copy_name(&pair.first), to: copy_name(&b_bak) });
    ops.push(RenameOp { from: copy_name(&pair.second), to: copy_name(&a_bak) });
    ops.push(RenameOp { from: a_bak, to: copy_name(&pair.first) });
    ops.push(RenameOp { from: b_bak, to: copy_name(&pair.second) });
    proof {
        assert(op_views(ops@) =~= swap_ops(pair.first@, pair.second@));
    }
    ops
}

/// Builds the whole book's rename plan from the directory's entries:
/// list the pages, pair them, and chain the pairs' exchanges in order.
pub fn book_plan(entries: &Vec<DirEntry>) -> (ops: Vec<RenameOp>)
    ensures
        op_views(ops@) == book_ops(pages_of(entries@).sort_by(lex_leq_fn())),
{
    let pages = list_pages(entries);
    let pairs = pair_up(&pages);
    let ghost pv = views_of(pages@);
    let mut ops: Vec<RenameOp> = Vec::new();
    let mut k: usize = 0;
    proof {
        assert(pv.skip(0) =~= pv);
        assert(op_views(ops@) =~= Seq::<(Seq<u8>, Seq<u8>)>::empty());
        assert(Seq::<(Seq<u8>, Seq<u8>)>::empty() + book_ops(pv) =~= book_ops(pv));
    }
    while k < pairs.len()
        invariant
            k <= pairs@.len(),
            pairs@.len() == pv.len() / 2,
            forall|i: int|
                0 <= i < pairs@.len() ==> (#[trigger] pairs@[i]).first@ == pv[2 * i]
                    && pairs@[i].second@ == pv[2 * i + 1],
            op_views(ops@) + book_ops(pv.skip(2 * k)) == book_ops(pv),
        decreases pairs@.len() - k,
    {
        let ghost ops_before = op_views(ops@);
        let mut sp = swap_plan(&pairs[k]);
        let ghost sp_views = op_views(sp@);
        ops.append(&mut sp);
        proof {
            let tail = pv.skip(2 * k as int);
            assert(tail.len() >= 2);
            assert(tail[0] == pv[2 * k as int]);
            assert(tail[1] == pv[2 * k as int + 1]);
            assert(tail.skip(2) =~= pv.skip(2 * (k + 1) as int));
            assert(book_ops(tail) == swap_ops(pv[2 * k as int], pv[2 * k as int + 1])
                + book_ops(pv.skip(2 * (k + 1) as int)));
            assert(op_views(ops@) =~= ops_before + sp_views);
            assert(op_views(ops@) + book_ops(pv.skip(2 * (k + 1) as int)) =~= book_ops(pv));
        }
        k = k + 1;
    }
    proof {
        assert(pv.skip(2 * k as int).len() < 2);
        assert(book_ops(pv.skip(2 * k as int)) == Seq::<(Seq<u8>, Seq<u8>)>::empty());
        assert(op_views(ops@) =~= op_views(ops@) + Seq::<(Seq<u8>, Seq<u8>)>::empty());
    }
    ops
}

} // verus!
