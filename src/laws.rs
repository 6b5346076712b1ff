use vstd::prelude::*;

use crate::node::{
    head_of, lemma_decompose, sorted, tail_of, Node, MAX_KEYS, MIN_KEYS,
};
use crate::ordered::lemma_sorted_middle;
use crate::search::{lemma_child_wf, lemma_head_last};
use crate::delete::lemma_flat_nonempty;
use crate::shape::lemma_shaped_balanced;

verus! {

/// One mutation of a tree.
pub enum Op {
    Insert(usize),
    Delete(usize),
}

/// The keys left after one mutation: what `Node::insert` and `Node::delete` promise of the
/// tree's key set.
pub open spec fn step(s: Set<usize>, op: Op) -> Set<usize> {
    match op {
        Op::Insert(k) => s.insert(k),
        Op::Delete(k) => s.remove(k),
    }
}

/// The keys of a tree that starts empty and undergoes `ops` in turn.
pub open spec fn keys_after(ops: Seq<Op>) -> Set<usize>
    decreases ops.len(),
{
    if ops.len() == 0 {
        Set::empty()
    } else {
        step(keys_after(ops.drop_last()), ops.last())
    }
}

/// `k` was inserted by `ops[i]` and not deleted afterwards.
pub open spec fn live_from(ops: Seq<Op>, k: usize, i: int) -> bool {
    &&& 0 <= i < ops.len()
    &&& ops[i] == Op::Insert(k)
    &&& forall|j: int| i < j < ops.len() ==> ops[j] != Op::Delete(k)
}

/// A valid tree keeps its invariants at every node: the keys of a node ascend; an internal node
/// has one child more than keys; key `i` lies above every key under child `i` and below every
/// key under child `i + 1`; each child is a valid tree one level lower holding between
/// `MIN_KEYS` and `MAX_KEYS` keys; and all leaves lie at the same depth. As `Node::insert` and
/// `Node::delete` keep the tree valid, these hold after every operation.
pub proof fn law_valid_tree(t: Node, i: int)
    requires
        t.wf(),
    ensures
        sorted(t.keys@),
        t.keys@.len() <= MAX_KEYS,
        t.balanced(),
        !t.leaf() ==> t.children@.len() == t.keys@.len() + 1,
        !t.leaf() && 0 <= i < t.keys@.len() ==> (forall|x: usize|
            #[trigger] t.children@[i].flat().contains(x) ==> x < t.keys@[i]) && (forall|y: usize|
            #[trigger] t.children@[i + 1].flat().contains(y) ==> t.keys@[i] < y),
        !t.leaf() && 0 <= i < t.children@.len() ==> {
            let c = t.children@[i];
            &&& c.wf()
            &&& MIN_KEYS <= c.keys@.len() <= MAX_KEYS
            &&& c.spec_height() + 1 == t.spec_height()
        },
{
    lemma_shaped_balanced(t, t.spec_height(), true);
    if t.leaf() {
        return;
    }
    let ks = t.keys@;
    let cs = t.children@;
    if 0 <= i < t.children@.len() {
        lemma_child_wf(t, i);
        crate::node::lemma_shaped_height(cs[i], (t.spec_height() - 1) as nat, false);
    }
    if 0 <= i < ks.len() {
        lemma_key_above_child(t, i);
        lemma_key_below_child(t, i + 1);
    }
    assert forall|j: int| 0 < j < ks.len() implies ks[j - 1] < #[trigger] ks[j] by {
        lemma_key_below_child(t, j);
        lemma_key_above_child(t, j);
        assert(cs[j].shaped((t.spec_height() - 1) as nat, false));
        lemma_flat_nonempty(cs[j], (t.spec_height() - 1) as nat);
        assert(cs[j].flat().contains(cs[j].flat()[0]));
    }
    lemma_sorted_from_adjacent(ks);
}

/// Key `i` of a valid internal node lies above every key under child `i`.
proof fn lemma_key_above_child(t: Node, i: int)
    requires
        t.wf(),
        !t.leaf(),
        0 <= i < t.keys@.len(),
    ensures
        forall|x: usize| #[trigger] t.children@[i].flat().contains(x) ==> x < t.keys@[i],
{
    let ks = t.keys@;
    let cs = t.children@;
    lemma_decompose(ks, cs, i);
    lemma_head_last(ks, cs, i);
    lemma_sorted_middle(head_of(ks, cs, i), cs[i].flat(), tail_of(ks, cs, i));
}

/// Key `i - 1` of a valid internal node lies below every key under child `i`.
proof fn lemma_key_below_child(t: Node, i: int)
    requires
        t.wf(),
        !t.leaf(),
        0 < i < t.children@.len(),
    ensures
        forall|y: usize| #[trigger] t.children@[i].flat().contains(y) ==> t.keys@[i - 1] < y,
{
    let ks = t.keys@;
    let cs = t.children@;
    lemma_decompose(ks, cs, i);
    lemma_head_last(ks, cs, i);
    lemma_sorted_middle(head_of(ks, cs, i), cs[i].flat(), tail_of(ks, cs, i));
}

/// A sequence whose neighbours ascend is sorted.
proof fn lemma_sorted_from_adjacent(s: Seq<usize>)
    requires
        forall|j: int| 0 < j < s.len() ==> s[j - 1] < #[trigger] s[j],
    ensures
        sorted(s),
{
    assert forall|a: int, b: int| 0 <= a < b < s.len() implies s[a] < s[b] by {
        lemma_ascends_between(s, a, b);
    }
}

proof fn lemma_ascends_between(s: Seq<usize>, a: int, b: int)
    requires
        forall|j: int| 0 < j < s.len() ==> s[j - 1] < #[trigger] s[j],
        0 <= a < b < s.len(),
    ensures
        s[a] < s[b],
    decreases b - a,
{
    if b > a + 1 {
        lemma_ascends_between(s, a, b - 1);
        assert(s[b - 1] < s[b]);
    }
}

/// After any sequence of insertions and deletions on an empty tree, a key is present exactly
/// when some insertion of it has not been followed by a deletion of it. `Node::find` reports a
/// key exactly when it is present.
pub proof fn law_membership(ops: Seq<Op>, k: usize)
    ensures
        keys_after(ops).contains(k) <==> exists|i: int| live_from(ops, k, i),
    decreases ops.len(),
{
    if ops.len() > 0 {
        let init = ops.drop_last();
        let n = ops.len() - 1;
        law_membership(init, k);
        if keys_after(ops).contains(k) {
            if ops.last() == Op::Insert(k) {
                assert(live_from(ops, k, n));
            } else {
                assert(keys_after(init).contains(k));
                let i = choose|i: int| live_from(init, k, i);
                assert(ops.last() != Op::Delete(k));
                assert forall|j: int| i < j < ops.len() implies ops[j] != Op::Delete(k) by {
                    if j < n {
                        assert(init[j] == ops[j]);
                    }
                }
                assert(init[i] == ops[i]);
                assert(live_from(ops, k, i));
            }
        } else {
            assert forall|i: int| !live_from(ops, k, i) by {
                if live_from(ops, k, i) {
                    if i == n {
                        assert(ops.last() == Op::Insert(k));
                    } else {
                        assert(ops[n] != Op::Delete(k));
                        assert forall|j: int| i < j < init.len() implies init[j] != Op::Delete(k) by {
                            assert(init[j] == ops[j]);
                        }
                        assert(init[i] == ops[i]);
                        assert(live_from(init, k, i));
                    }
                }
            }
        }
    }
}

/// A run of trees, each one obtained from the one before by `Node::insert` or `Node::delete`
/// as `ops` says, holds after every step the keys that `keys_after` gives.
pub proof fn law_run(ts: Seq<Node>, ops: Seq<Op>)
    requires
        ts.len() == ops.len() + 1,
        ts[0]@ == Set::<usize>::empty(),
        forall|i: int| 0 < i < ts.len() ==> #[trigger] ts[i]@ == step(ts[i - 1]@, ops[i - 1]),
    ensures
        forall|i: int| 0 <= i < ts.len() ==> #[trigger] ts[i]@ == keys_after(ops.subrange(0, i)),
{
    assert forall|i: int| 0 <= i < ts.len() implies #[trigger] ts[i]@ == keys_after(
        ops.subrange(0, i),
    ) by {
        lemma_run_prefix(ts, ops, i);
    }
}

proof fn lemma_run_prefix(ts: Seq<Node>, ops: Seq<Op>, i: int)
    requires
        ts.len() == ops.len() + 1,
        ts[0]@ == Set::<usize>::empty(),
        forall|i: int| 0 < i < ts.len() ==> #[trigger] ts[i]@ == step(ts[i - 1]@, ops[i - 1]),
        0 <= i < ts.len(),
    ensures
        ts[i]@ == keys_after(ops.subrange(0, i)),
    decreases i,
{
    if i > 0 {
        lemma_run_prefix(ts, ops, i - 1);
        assert(ops.subrange(0, i).drop_last() =~= ops.subrange(0, i - 1));
    }
}

/// Inserting a key that the tree does not hold and then deleting it gives back a valid tree
/// with the same keys, all leaves at one depth. (A key already present is not restored: the
/// insertion leaves the tree as it is and the deletion removes the key.)
pub proof fn law_round_trip(a: Node, b: Node, c: Node, k: usize)
    requires
        a.wf(),
        !a@.contains(k),
        b.wf(),
        b@ == a@.insert(k),
        c.wf(),
        c@ == b@.remove(k),
    ensures
        c@ == a@,
        c.balanced(),
{
    assert(c@ =~= a@);
    lemma_shaped_balanced(c, c.spec_height(), true);
}

/// Along a run of insertions the height never falls: each `Node::insert` keeps it or adds one
/// level (the latter only where the root was full and split).
pub proof fn law_heights_under_inserts(ts: Seq<Node>)
    requires
        forall|i: int|
            0 < i < ts.len() ==> #[trigger] ts[i].spec_height() == ts[i - 1].spec_height()
                || ts[i].spec_height() == ts[i - 1].spec_height() + 1,
    ensures
        forall|i: int, j: int|
            0 <= i <= j < ts.len() ==> #[trigger] ts[i].spec_height() <= #[trigger] ts[j].spec_height(),
{
    assert forall|i: int, j: int| 0 <= i <= j < ts.len() implies #[trigger] ts[i].spec_height()
        <= #[trigger] ts[j].spec_height() by {
        lemma_rises(ts, i, j);
    }
}

proof fn lemma_rises(ts: Seq<Node>, i: int, j: int)
    requires
        forall|i: int|
            0 < i < ts.len() ==> #[trigger] ts[i].spec_height() == ts[i - 1].spec_height()
                || ts[i].spec_height() == ts[i - 1].spec_height() + 1,
        0 <= i <= j < ts.len(),
    ensures
        ts[i].spec_height() <= ts[j].spec_height(),
    decreases j - i,
{
    if j > i {
        lemma_rises(ts, i, j - 1);
    }
}

/// Along a run of deletions the height never grows: each `Node::delete` keeps it or removes one
/// level (the latter only where a root of one key collapsed into its only child).
pub proof fn law_heights_under_deletes(ts: Seq<Node>)
    requires
        forall|i: int|
            0 < i < ts.len() ==> #[trigger] ts[i].spec_height() == ts[i - 1].spec_height()
                || ts[i].spec_height() + 1 == ts[i - 1].spec_height(),
    ensures
        forall|i: int, j: int|
            0 <= i <= j < ts.len() ==> #[trigger] ts[j].spec_height() <= #[trigger] ts[i].spec_height(),
{
    assert forall|i: int, j: int| 0 <= i <= j < ts.len() implies #[trigger] ts[j].spec_height()
        <= #[trigger] ts[i].spec_height() by {
        lemma_falls(ts, i, j);
    }
}

proof fn lemma_falls(ts: Seq<Node>, i: int, j: int)
    requires
        forall|i: int|
            0 < i < ts.len() ==> #[trigger] ts[i].spec_height() == ts[i - 1].spec_height()
                || ts[i].spec_height() + 1 == ts[i - 1].spec_height(),
        0 <= i <= j < ts.len(),
    ensures
        ts[j].spec_height() <= ts[i].spec_height(),
    decreases j - i,
{
    if j > i {
        lemma_falls(ts, i, j - 1);
    }
}

} // verus!
