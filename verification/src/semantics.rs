//! What a rename plan does to a directory: a directory state maps each
//! present name to its file's content, a rename step moves content from one
//! name to another, and a plan runs its steps in order. On this model the
//! four-step exchange is proved to swap two names' contents exactly.

use vstd::prelude::*;
use crate::name::{bak_of, lemma_bak_distinct, lemma_bak_injective};
use crate::plan::swap_ops;

verus! {

/// A directory's state: each present name maps to that file's content.
pub type DirState = Map<Seq<u8>, Seq<u8>>;

/// A rename step can run only when its source name is present.
pub open spec fn rename_enabled(d: DirState, from: Seq<u8>, to: Seq<u8>) -> bool {
    d.contains_key(from)
}

/// One rename step: the content leaves `from` and becomes reachable at
/// `to`, overwriting `to` if something was there.
pub open spec fn rename_map(d: DirState, from: Seq<u8>, to: Seq<u8>) -> DirState {
    d.remove(from).insert(to, d[from])
}

/// Every step of `ops` can run, each in the state the previous steps left.
pub open spec fn plan_enabled(d: DirState, ops: Seq<(Seq<u8>, Seq<u8>)>) -> bool
    decreases ops.len(),
{
    ops.len() == 0 || (rename_enabled(d, ops[0].0, ops[0].1) && plan_enabled(
        rename_map(d, ops[0].0, ops[0].1),
        ops.skip(1),
    ))
}

/// The state after running `ops` in order.
pub open spec fn apply_ops(d: DirState, ops: Seq<(Seq<u8>, Seq<u8>)>) -> DirState
    decreases ops.len(),
{
    if ops.len() == 0 {
        d
    } else {
        apply_ops(rename_map(d, ops[0].0, ops[0].1), ops.skip(1))
    }
}

/// Running a plan with one more step at its end runs the plan, then the step.
pub proof fn lemma_apply_ops_push(d: DirState, ops: Seq<(Seq<u8>, Seq<u8>)>, op: (Seq<u8>, Seq<u8>))
    ensures
        apply_ops(d, ops.push(op)) == rename_map(apply_ops(d, ops), op.0, op.1),
        plan_enabled(d, ops.push(op)) == (plan_enabled(d, ops) && rename_enabled(
            apply_ops(d, ops),
            op.0,
            op.1,
        )),
    decreases ops.len(),
{
    reveal_with_fuel(plan_enabled, 2);
    reveal_with_fuel(apply_ops, 2);
    if ops.len() == 0 {
        assert(ops.push(op).skip(1) =~= Seq::<(Seq<u8>, Seq<u8>)>::empty());
        assert(ops.push(op)[0] == op);
    } else {
        assert(ops.push(op).skip(1) =~= ops.skip(1).push(op));
        assert(ops.push(op)[0] == ops[0]);
        lemma_apply_ops_push(rename_map(d, ops[0].0, ops[0].1), ops.skip(1), op);
    }
}

/// Running a concatenated plan runs the first part, then the second.
pub proof fn lemma_apply_ops_concat(
    d: DirState,
    s1: Seq<(Seq<u8>, Seq<u8>)>,
    s2: Seq<(Seq<u8>, Seq<u8>)>,
)
    ensures
        apply_ops(d, s1 + s2) == apply_ops(apply_ops(d, s1), s2),
        plan_enabled(d, s1 + s2) == (plan_enabled(d, s1) && plan_enabled(apply_ops(d, s1), s2)),
    decreases s1.len(),
{
    if s1.len() == 0 {
        assert(s1 + s2 =~= s2);
    } else {
        assert((s1 + s2).skip(1) =~= s1.skip(1) + s2);
        assert((s1 + s2)[0] == s1[0]);
        lemma_apply_ops_concat(rename_map(d, s1[0].0, s1[0].1), s1.skip(1), s2);
    }
}

/// In a plan whose every step can run, each step is enabled in the state
/// the steps before it leave.
pub proof fn lemma_plan_enabled_prefix(d: DirState, ops: Seq<(Seq<u8>, Seq<u8>)>, p: int)
    requires
        plan_enabled(d, ops),
        0 <= p < ops.len(),
    ensures
        plan_enabled(d, ops.take(p)),
        rename_enabled(apply_ops(d, ops.take(p)), ops[p].0, ops[p].1),
    decreases p,
{
    reveal_with_fuel(plan_enabled, 2);
    reveal_with_fuel(apply_ops, 2);
    if p == 0 {
        assert(ops.take(0) =~= Seq::<(Seq<u8>, Seq<u8>)>::empty());
    } else {
        let d1 = rename_map(d, ops[0].0, ops[0].1);
        lemma_plan_enabled_prefix(d1, ops.skip(1), p - 1);
        assert(ops.skip(1).take(p - 1) =~= ops.take(p).skip(1));
        assert(ops.take(p)[0] == ops[0]);
        assert(ops.skip(1)[p - 1] == ops[p]);
        assert(apply_ops(d, ops.take(p)) == apply_ops(d1, ops.take(p).skip(1)));
    }
}

/// The state a successful exchange of `a` and `b` leaves: each of the two
/// names holds the other's former content, and nothing else changed.
pub open spec fn swapped(d: DirState, a: Seq<u8>, b: Seq<u8>) -> DirState {
    d.insert(a, d[b]).insert(b, d[a])
}

/// Swap correctness: when `a` and `b` are present, distinct, and their
/// `.bak` names are free, the four steps all run; afterwards `a` holds
/// `b`'s former content and `b` holds `a`'s, no other name changed, and no
/// `.bak` name remains — the names present are exactly those present before.
pub proof fn lemma_swap_correct(d: DirState, a: Seq<u8>, b: Seq<u8>)
    requires
        d.contains_key(a),
        d.contains_key(b),
        a != b,
        !d.contains_key(bak_of(a)),
        !d.contains_key(bak_of(b)),
    ensures
        plan_enabled(d, swap_ops(a, b)),
        apply_ops(d, swap_ops(a, b)) == swapped(d, a, b),
        swapped(d, a, b).dom() == d.dom(),
{
    reveal_with_fuel(plan_enabled, 5);
    reveal_with_fuel(apply_ops, 5);
    lemma_bak_distinct(a);
    lemma_bak_distinct(b);
    if bak_of(a) == bak_of(b) {
        lemma_bak_injective(a, b);
    }
    let s = swap_ops(a, b);
    let d1 = rename_map(d, a, bak_of(b));
    let d2 = rename_map(d1, b, bak_of(a));
    let d3 = rename_map(d2, bak_of(a), a);
    let d4 = rename_map(d3, bak_of(b), b);
    assert(s[0] == (a, bak_of(b)));
    assert(s.skip(1) =~= seq![(b, bak_of(a)), (bak_of(a), a), (bak_of(b), b)]);
    assert(s.skip(1).skip(1) =~= seq![(bak_of(a), a), (bak_of(b), b)]);
    assert(s.skip(1).skip(1).skip(1) =~= seq![(bak_of(b), b)]);
    assert(s.skip(1).skip(1).skip(1).skip(1) =~= Seq::<(Seq<u8>, Seq<u8>)>::empty());
    assert(rename_enabled(d, a, bak_of(b)));
    assert(rename_enabled(d1, b, bak_of(a)));
    assert(rename_enabled(d2, bak_of(a), a));
    assert(rename_enabled(d3, bak_of(b), b));
    assert(apply_ops(d, s) == d4);
    assert(d4 =~= swapped(d, a, b)) by {
        assert(d1[b] == d[b]);
        assert(d2[bak_of(a)] == d[b]);
        assert(d2[bak_of(b)] == d[a]);
        assert(d3[bak_of(b)] == d[a]);
        assert(d3[a] == d[b]);
        assert(d4[a] == d[b]);
        assert(d4[b] == d[a]);
    }
    assert(swapped(d, a, b).dom() =~= d.dom());
}

/// The exchange is an involution: run on the swapped state, the same four
/// steps run again and restore the original state.
pub proof fn lemma_swap_involution(d: DirState, a: Seq<u8>, b: Seq<u8>)
    requires
        d.contains_key(a),
        d.contains_key(b),
        a != b,
        !d.contains_key(bak_of(a)),
        !d.contains_key(bak_of(b)),
    ensures
        plan_enabled(swapped(d, a, b), swap_ops(a, b)),
        apply_ops(swapped(d, a, b), swap_ops(a, b)) == d,
{
    let d1 = swapped(d, a, b);
    lemma_swap_correct(d, a, b);
    lemma_swap_correct(d1, a, b);
    assert(swapped(d1, a, b) =~= d);
}

/// The transaction invariant: after every step of the exchange the state
/// is an explicit rearrangement of the original directory — each content
/// reachable before is reachable under exactly one name, none lost, with
/// only the transient `.bak` names added and removed along the way.
pub proof fn lemma_swap_intermediate_states(d: DirState, a: Seq<u8>, b: Seq<u8>)
    requires
        d.contains_key(a),
        d.contains_key(b),
        a != b,
        !d.contains_key(bak_of(a)),
        !d.contains_key(bak_of(b)),
    ensures
        apply_ops(d, swap_ops(a, b).take(1)) == d.remove(a).insert(bak_of(b), d[a]),
        apply_ops(d, swap_ops(a, b).take(2)) == d.remove(a).remove(b).insert(
            bak_of(b),
            d[a],
        ).insert(bak_of(a), d[b]),
        apply_ops(d, swap_ops(a, b).take(3)) == d.remove(a).remove(b).insert(
            bak_of(b),
            d[a],
        ).insert(a, d[b]),
        apply_ops(d, swap_ops(a, b).take(4)) == swapped(d, a, b),
{
    reveal_with_fuel(apply_ops, 5);
    lemma_bak_distinct(a);
    lemma_bak_distinct(b);
    if bak_of(a) == bak_of(b) {
        lemma_bak_injective(a, b);
    }
    let s = swap_ops(a, b);
    let d1 = rename_map(d, a, bak_of(b));
    let d2 = rename_map(d1, b, bak_of(a));
    let d3 = rename_map(d2, bak_of(a), a);
    let d4 = rename_map(d3, bak_of(b), b);
    assert(s.take(1) =~= seq![(a, bak_of(b))]);
    assert(s.take(1).skip(1) =~= Seq::<(Seq<u8>, Seq<u8>)>::empty());
    assert(s.take(2) =~= seq![(a, bak_of(b)), (b, bak_of(a))]);
    assert(s.take(2).skip(1) =~= seq![(b, bak_of(a))]);
    assert(s.take(2).skip(1).skip(1) =~= Seq::<(Seq<u8>, Seq<u8>)>::empty());
    assert(s.take(3) =~= seq![(a, bak_of(b)), (b, bak_of(a)), (bak_of(a), a)]);
    assert(s.take(3).skip(1) =~= seq![(b, bak_of(a)), (bak_of(a), a)]);
    assert(s.take(3).skip(1).skip(1) =~= seq![(bak_of(a), a)]);
    assert(s.take(3).skip(1).skip(1).skip(1) =~= Seq::<(Seq<u8>, Seq<u8>)>::empty());
    assert(s.take(4) =~= s);
    assert(s.skip(1) =~= seq![(b, bak_of(a)), (bak_of(a), a), (bak_of(b), b)]);
    assert(s.skip(1).skip(1) =~= seq![(bak_of(a), a), (bak_of(b), b)]);
    assert(s.skip(1).skip(1).skip(1) =~= seq![(bak_of(b), b)]);
    assert(s.skip(1).skip(1).skip(1).skip(1) =~= Seq::<(Seq<u8>, Seq<u8>)>::empty());
    assert(apply_ops(d, s.take(1)) == d1);
    assert(apply_ops(d, s.take(2)) == d2);
    assert(apply_ops(d, s.take(3)) == d3);
    assert(apply_ops(d, s.take(4)) == d4);
    assert(d1 =~= d.remove(a).insert(bak_of(b), d[a]));
    assert(d2 =~= d.remove(a).remove(b).insert(bak_of(b), d[a]).insert(bak_of(a), d[b])) by {
        assert(d1[b] == d[b]);
    }
    assert(d3 =~= d.remove(a).remove(b).insert(bak_of(b), d[a]).insert(a, d[b])) by {
        assert(d2[bak_of(a)] == d[b]);
    }
    assert(d4 =~= swapped(d, a, b)) by {
        assert(d3[bak_of(b)] == d[a]);
    }
}

/// The failure window: if the exchange stops after its first step, the
/// directory shows exactly that step — `a` is gone, `b.bak` holds `a`'s
/// former content, every other name untouched. If `b` is missing, the
/// second step indeed cannot run.
pub proof fn lemma_swap_first_step(d: DirState, a: Seq<u8>, b: Seq<u8>)
    requires
        d.contains_key(a),
    ensures
        plan_enabled(d, swap_ops(a, b).take(1)),
        apply_ops(d, swap_ops(a, b).take(1)) == d.remove(a).insert(bak_of(b), d[a]),
        !d.contains_key(b) ==> !rename_enabled(
            apply_ops(d, swap_ops(a, b).take(1)),
            swap_ops(a, b)[1].0,
            swap_ops(a, b)[1].1,
        ),
{
    reveal_with_fuel(plan_enabled, 3);
    reveal_with_fuel(apply_ops, 3);
    lemma_bak_distinct(b);
    let s1 = swap_ops(a, b).take(1);
    assert(s1 =~= seq![(a, bak_of(b))]);
    assert(s1.skip(1) =~= Seq::<(Seq<u8>, Seq<u8>)>::empty());
    assert(apply_ops(d, s1) == rename_map(d, a, bak_of(b)));
}

} // verus!
