use vstd::prelude::*;

use crate::node::{
    head_of, lemma_decompose, lemma_flat_ends, lemma_flat_join, lemma_merge_pair,
    lemma_replace_pair, lemma_shaped_height, lemma_shaped_relax, lemma_update_child, lemma_update_key, sorted,
    tail_of, Node, MAX_KEYS, MIN_KEYS,
};
use crate::model::{
    borrowed_left, borrowed_right, deleted, filled, max_key, merged, min_key, models, removed,
    removed_at, Tree,
};
use crate::ordered::{
    lemma_remove_in_middle, lemma_sorted_middle, lemma_sorted_remove, lemma_swap_pred,
    lemma_swap_succ,
};
use crate::search::{lemma_head_last, lemma_key_in_flat};

verus! {

/// The two ways of stating the shape of a node other than the root agree.
pub(crate) proof fn lemma_shaped_under_iff(n: Node, g: nat)
    requires
        g >= 1,
    ensures
        n.shaped(g, false) == n.shaped_under(g, MIN_KEYS as nat),
        n.shaped(g, true) == n.shaped_under(g, if g > 1 { 1 } else { 0 }),
{
}

/// A node other than the root holds some key.
pub(crate) proof fn lemma_flat_nonempty(n: Node, g: nat)
    requires
        n.shaped(g, false),
    ensures
        n.flat().len() > 0,
{
    lemma_key_in_flat(n, 0);
}

impl Node {
    /// Child `i` has too few keys and its left sibling has more than enough: the separating key
    /// moves down to the front of child `i`, and the sibling's last key moves up in its place
    /// (with the sibling's last child, where they are internal).
    #[verifier::rlimit(60)]
    fn borrow_from_left(&mut self, i: usize, Ghost(h): Ghost<nat>)
        requires
            h > 1,
            0 < i < old(self).children@.len(),
            old(self).children@.len() == old(self).keys@.len() + 1,
            old(self).children@[i - 1].shaped((h - 1) as nat, false),
            old(self).children@[i - 1].keys@.len() > MIN_KEYS,
            old(self).children@[i as int].shaped_under((h - 1) as nat, (MIN_KEYS - 1) as nat),
            old(self).children@[i as int].keys@.len() < MIN_KEYS,
        ensures
            final(self).flat() == old(self).flat(),
            final(self).keys@.len() == old(self).keys@.len(),
            final(self).children@.len() == old(self).children@.len(),
            final(self).children@[i - 1].shaped((h - 1) as nat, false),
            final(self).children@[i as int].shaped((h - 1) as nat, false),
            forall|j: int|
                0 <= j < old(self).children@.len() && j != i - 1 && j != i ==> final(self).children@[j] == old(self).children@[j],
            final(self).model() == borrowed_left(old(self).model(), i as int),
    {
        let ghost ks = self.keys@;
        let ghost cs = self.children@;
        let mut child = self.children.remove(i);
        let mut left = self.children.remove(i - 1);
        let ghost old_left = left;
        let ghost old_child = child;
        let last = left.keys.len() - 1;
        let x = left.keys.remove(last);
        let sep = self.keys[i - 1];
        child.keys.insert(0, sep);
        self.keys.set(i - 1, x);
        if left.children.len() > 0 {
            let lc_idx = left.children.len() - 1;
            let lc = left.children.remove(lc_idx);
            child.children.insert(0, lc);
        }
        proof {
            let t = old_left.children@.subrange(left.children@.len() as int, old_left.children@.len() as int);
            assert(old_left.keys@ =~= left.keys@ + seq![x] + Seq::<usize>::empty());
            assert(old_left.children@ =~= left.children@ + t);
            lemma_flat_join(left.keys@, left.children@, x, Seq::empty(), t);
            assert(child.keys@ =~= Seq::<usize>::empty() + seq![sep] + old_child.keys@);
            assert(child.children@ =~= t + old_child.children@);
            lemma_flat_join(Seq::empty(), t, sep, old_child.keys@, old_child.children@);
            assert(cs[i - 1] == old_left && cs[i as int] == old_child && ks[i - 1] == sep);
            assert(left.flat() + seq![x] + child.flat() =~= cs[i - 1].flat() + seq![ks[i - 1]]
                + cs[i as int].flat());
            lemma_replace_pair(ks, cs, i - 1, left, x, child);
            lemma_shaped_under_iff(old_left, (h - 1) as nat);
            lemma_shaped_under_iff(left, (h - 1) as nat);
            lemma_shaped_under_iff(child, (h - 1) as nat);
            assert forall|j: int| 0 <= j < left.children@.len() implies (
            #[trigger] left.children@[j]).shaped((h - 2) as nat, false) by {
                assert(left.children@[j] == old_left.children@[j]);
            }
            assert forall|j: int| 0 <= j < child.children@.len() implies (
            #[trigger] child.children@[j]).shaped((h - 2) as nat, false) by {
                if t.len() > 0 && j == 0 {
                    assert(child.children@[j] == old_left.children@[old_left.children@.len() - 1]);
                } else {
                    assert(child.children@[j] == old_child.children@[j - t.len()]);
                }
            }
        }
        let ghost gl = left;
        let ghost gc = child;
        self.children.insert(i - 1, left);
        self.children.insert(i, child);
        proof {
            assert(self.children@ =~= cs.update(i - 1, gl).update(i as int, gc));
            let lm = old_left.model();
            assert(models(cs)[i - 1] == lm);
            assert(models(cs)[i as int] == old_child.model());
            if old_left.children@.len() > 0 {
                assert(models(gl.children@) =~= lm.children.drop_last());
                assert(models(gc.children@) =~= seq![lm.children.last()] + old_child.model().children);
            } else {
                assert(models(gl.children@) =~= lm.children);
                assert(models(gc.children@) =~= old_child.model().children);
            }
            assert(gl.keys@ =~= lm.keys.drop_last());
            assert(gc.keys@ =~= seq![ks[i - 1]] + old_child.keys@);
            assert(models(self.children@) =~= models(cs).update(i - 1, gl.model()).update(
                i as int,
                gc.model(),
            ));
            assert(self.model() =~= borrowed_left(Tree { keys: ks, children: models(cs) }, i as int));
        }
    }

    /// Child `i` has too few keys and its right sibling has more than enough: the separating
    /// key moves down to the end of child `i`, and the sibling's first key moves up in its
    /// place (with the sibling's first child, where they are internal).
    #[verifier::rlimit(60)]
    fn borrow_from_right(&mut self, i: usize, Ghost(h): Ghost<nat>)
        requires
            h > 1,
            i + 1 < old(self).children@.len(),
            old(self).children@.len() == old(self).keys@.len() + 1,
            old(self).children@[i + 1].shaped((h - 1) as nat, false),
            old(self).children@[i + 1].keys@.len() > MIN_KEYS,
            old(self).children@[i as int].shaped_under((h - 1) as nat, (MIN_KEYS - 1) as nat),
            old(self).children@[i as int].keys@.len() < MIN_KEYS,
        ensures
            final(self).flat() == old(self).flat(),
            final(self).keys@.len() == old(self).keys@.len(),
            final(self).children@.len() == old(self).children@.len(),
            final(self).children@[i as int].shaped((h - 1) as nat, false),
            final(self).children@[i + 1].shaped((h - 1) as nat, false),
            forall|j: int|
                0 <= j < old(self).children@.len() && j != i && j != i + 1 ==> final(self).children@[j] == old(self).children@[j],
            final(self).model() == borrowed_right(old(self).model(), i as int),
    {
        let ghost ks = self.keys@;
        let ghost cs = self.children@;
        let n = self.children.len();
        assert(i + 1 < n);
        let mut right = self.children.remove(i + 1);
        let mut child = self.children.remove(i);
        let ghost old_right = right;
        let ghost old_child = child;
        let y = right.keys.remove(0);
        let sep = self.keys[i];
        child.keys.push(sep);
        self.keys.set(i, y);
        if right.children.len() > 0 {
            let rc = right.children.remove(0);
            child.children.push(rc);
        }
        proof {
            let t = old_right.children@.subrange(0, old_right.children@.len() - right.children@.len());
            assert(child.keys@ =~= old_child.keys@ + seq![sep] + Seq::<usize>::empty());
            assert(child.children@ =~= old_child.children@ + t);
            lemma_flat_join(old_child.keys@, old_child.children@, sep, Seq::empty(), t);
            assert(old_right.keys@ =~= Seq::<usize>::empty() + seq![y] + right.keys@);
            assert(old_right.children@ =~= t + right.children@);
            lemma_flat_join(Seq::empty(), t, y, right.keys@, right.children@);
            assert(cs[i + 1] == old_right && cs[i as int] == old_child && ks[i as int] == sep);
            assert(child.flat() + seq![y] + right.flat() =~= cs[i as int].flat() + seq![ks[i as int]]
                + cs[i + 1].flat());
            lemma_replace_pair(ks, cs, i as int, child, y, right);
            lemma_shaped_under_iff(old_right, (h - 1) as nat);
            lemma_shaped_under_iff(right, (h - 1) as nat);
            lemma_shaped_under_iff(child, (h - 1) as nat);
            assert forall|j: int| 0 <= j < right.children@.len() implies (
            #[trigger] right.children@[j]).shaped((h - 2) as nat, false) by {
                assert(right.children@[j] == old_right.children@[j + t.len()]);
            }
            assert forall|j: int| 0 <= j < child.children@.len() implies (
            #[trigger] child.children@[j]).shaped((h - 2) as nat, false) by {
                if j < old_child.children@.len() {
                    assert(child.children@[j] == old_child.children@[j]);
                } else {
                    assert(child.children@[j] == old_right.children@[0]);
                }
            }
        }
        let ghost gr = right;
        let ghost gc = child;
        self.children.insert(i, child);
        self.children.insert(i + 1, right);
        proof {
            assert(self.children@ =~= cs.update(i as int, gc).update(i + 1, gr));
            let rm = old_right.model();
            assert(models(cs)[i + 1] == rm);
            assert(models(cs)[i as int] == old_child.model());
            if old_right.children@.len() > 0 {
                assert(models(gr.children@) =~= rm.children.drop_first());
                assert(models(gc.children@) =~= old_child.model().children.push(rm.children[0]));
            } else {
                assert(models(gr.children@) =~= rm.children);
                assert(models(gc.children@) =~= old_child.model().children);
            }
            assert(gr.keys@ =~= rm.keys.drop_first());
            assert(gc.keys@ =~= old_child.keys@.push(ks[i as int]));
            assert(models(self.children@) =~= models(cs).update(i as int, gc.model()).update(
                i + 1,
                gr.model(),
            ));
            assert(self.model() =~= borrowed_right(Tree { keys: ks, children: models(cs) }, i as int));
        }
    }

    /// Merges children `i - 1` and `i` into one node, with the key that separated them between
    /// their keys; the node loses that key and one child.
    fn merge(&mut self, i: usize, Ghost(h): Ghost<nat>)
        requires
            h > 1,
            0 < i < old(self).children@.len(),
            old(self).children@.len() == old(self).keys@.len() + 1,
            old(self).children@[i - 1].shaped_under((h - 1) as nat, (MIN_KEYS - 1) as nat),
            old(self).children@[i as int].shaped_under((h - 1) as nat, (MIN_KEYS - 1) as nat),
            old(self).children@[i - 1].keys@.len() + old(self).children@[i as int].keys@.len() + 1
                <= MAX_KEYS,
        ensures
            final(self).flat() == old(self).flat(),
            final(self).keys@.len() + 1 == old(self).keys@.len(),
            final(self).children@.len() == final(self).keys@.len() + 1,
            final(self).children@[i - 1].shaped((h - 1) as nat, false),
            forall|j: int| 0 <= j < i - 1 ==> final(self).children@[j] == old(self).children@[j],
            forall|j: int|
                i <= j < final(self).children@.len() ==> final(self).children@[j] == old(self).children@[j + 1],
            final(self).model() == merged(old(self).model(), i as int),
    {
        let ghost ks = self.keys@;
        let ghost cs = self.children@;
        let mut right = self.children.remove(i);
        let mut left = self.children.remove(i - 1);
        let ghost old_left = left;
        let ghost old_right = right;
        let sep = self.keys.remove(i - 1);
        left.keys.push(sep);
        left.keys.append(&mut right.keys);
        left.children.append(&mut right.children);
        proof {
            assert(left.keys@ =~= old_left.keys@ + seq![sep] + old_right.keys@);
            assert(left.children@ =~= old_left.children@ + old_right.children@);
            lemma_flat_join(old_left.keys@, old_left.children@, sep, old_right.keys@, old_right.children@);
            lemma_merge_pair(ks, cs, i - 1, left);
            lemma_shaped_under_iff(left, (h - 1) as nat);
            assert forall|j: int| 0 <= j < left.children@.len() implies (
            #[trigger] left.children@[j]).shaped((h - 2) as nat, false) by {
                if j < old_left.children@.len() {
                    assert(left.children@[j] == old_left.children@[j]);
                } else {
                    assert(left.children@[j] == old_right.children@[j - old_left.children@.len()]);
                }
            }
        }
        let ghost gl = left;
        self.children.insert(i - 1, left);
        proof {
            assert(self.children@ =~= cs.remove(i as int).update(i - 1, gl));
            assert(models(cs)[i - 1] == old_left.model());
            assert(models(cs)[i as int] == old_right.model());
            assert(models(gl.children@) =~= old_left.model().children + old_right.model().children);
            assert(models(self.children@) =~= models(cs).remove(i as int).update(i - 1, gl.model()));
            assert(self.model() =~= merged(Tree { keys: ks, children: models(cs) }, i as int));
        }
    }

    /// Brings child `i`, which has one key too few, back to the minimum: by borrowing from a
    /// sibling with keys to spare, the left one first, or else by merging it with a sibling,
    /// the left one where there is one.
    fn fill_child(&mut self, i: usize, Ghost(h): Ghost<nat>)
        requires
            h > 1,
            old(self).keys@.len() >= 1,
            i < old(self).children@.len(),
            old(self).children@.len() == old(self).keys@.len() + 1,
            old(self).children@[i as int].shaped_under((h - 1) as nat, (MIN_KEYS - 1) as nat),
            old(self).children@[i as int].keys@.len() < MIN_KEYS,
            forall|j: int|
                0 <= j < old(self).children@.len() && j != i ==> (#[trigger] old(self).children@[j]).shaped((h - 1) as nat, false),
        ensures
            final(self).flat() == old(self).flat(),
            final(self).children@.len() == final(self).keys@.len() + 1,
            final(self).keys@.len() == old(self).keys@.len() || final(self).keys@.len() + 1
                == old(self).keys@.len(),
            forall|j: int|
                0 <= j < final(self).children@.len() ==> (#[trigger] final(self).children@[j]).shaped((h - 1) as nat, false),
            final(self).model() == filled(old(self).model(), i as int),
    {
        let ghost cs = self.children@;
        proof {
            if i > 0 {
                assert(models(cs)[i - 1] == cs[i - 1].model());
            }
            if i + 1 < cs.len() {
                assert(models(cs)[i + 1] == cs[i + 1].model());
            }
        }
        if i > 0 && self.children[i - 1].keys.len() > MIN_KEYS {
            self.borrow_from_left(i, Ghost(h));
            proof {
                assert forall|j: int| 0 <= j < self.children@.len() implies (
                #[trigger] self.children@[j]).shaped((h - 1) as nat, false) by {
                    if j != i - 1 && j != i {
                        assert(self.children@[j] == cs[j]);
                    }
                }
            }
            return;
        }
        if i < self.keys.len() && self.children[i + 1].keys.len() > MIN_KEYS {
            self.borrow_from_right(i, Ghost(h));
            proof {
                assert forall|j: int| 0 <= j < self.children@.len() implies (
                #[trigger] self.children@[j]).shaped((h - 1) as nat, false) by {
                    if j != i && j != i + 1 {
                        assert(self.children@[j] == cs[j]);
                    }
                }
            }
            return;
        }
        let m = if i > 0 { i } else { i + 1 };
        proof {
            lemma_shaped_under_iff(cs[m - 1], (h - 1) as nat);
            lemma_shaped_under_iff(cs[m as int], (h - 1) as nat);
        }
        self.merge(m, Ghost(h));
        proof {
            assert forall|j: int| 0 <= j < self.children@.len() implies (
            #[trigger] self.children@[j]).shaped((h - 1) as nat, false) by {
                if j < m - 1 {
                    assert(self.children@[j] == cs[j]);
                } else if j >= m {
                    assert(self.children@[j] == cs[j + 1]);
                }
            }
        }
    }

    /// The largest key under child `i`: found by going down the rightmost children to a leaf.
    fn predecessor(&self, i: usize, Ghost(h): Ghost<nat>) -> (r: usize)
        requires
            h > 1,
            i < self.children@.len(),
            self.children@[i as int].shaped((h - 1) as nat, false),
        ensures
            self.children@[i as int].flat().len() > 0,
            r == self.children@[i as int].flat().last(),
            r == max_key(self.children@[i as int].model()),
    {
        let mut cur = &self.children[i];
        let ghost mut g: nat = (h - 1) as nat;
        proof {
            lemma_flat_nonempty(*cur, g);
        }
        while cur.children.len() > 0
            invariant
                cur.shaped(g, false),
                cur.flat().len() > 0,
                cur.flat().last() == self.children@[i as int].flat().last(),
                max_key(cur.model()) == max_key(self.children@[i as int].model()),
            decreases g,
        {
            let k = cur.children.len() - 1;
            proof {
                assert(cur.model().children.last() == cur.children@[k as int].model());
                lemma_flat_ends(cur.keys@, cur.children@);
                assert(cur.children@[k as int].shaped((g - 1) as nat, false));
                lemma_flat_nonempty(cur.children@[k as int], (g - 1) as nat);
            }
            cur = &cur.children[k];
            proof {
                g = (g - 1) as nat;
            }
        }
        cur.keys[cur.keys.len() - 1]
    }

    /// The smallest key under child `i + 1`: found by going down the leftmost children to a
    /// leaf.
    fn successor(&self, i: usize, Ghost(h): Ghost<nat>) -> (r: usize)
        requires
            h > 1,
            i + 1 < self.children@.len(),
            self.children@[i + 1].shaped((h - 1) as nat, false),
        ensures
            self.children@[i + 1].flat().len() > 0,
            r == self.children@[i + 1].flat()[0],
            r == min_key(self.children@[i + 1].model()),
    {
        let n = self.children.len();
        assert(i + 1 < n);
        let mut cur = &self.children[i + 1];
        let ghost mut g: nat = (h - 1) as nat;
        proof {
            lemma_flat_nonempty(*cur, g);
        }
        while cur.children.len() > 0
            invariant
                cur.shaped(g, false),
                cur.flat().len() > 0,
                cur.flat()[0] == self.children@[i + 1].flat()[0],
                min_key(cur.model()) == min_key(self.children@[i + 1].model()),
            decreases g,
        {
            proof {
                assert(cur.model().children[0] == cur.children@[0].model());
                lemma_flat_ends(cur.keys@, cur.children@);
                assert(cur.children@[0].shaped((g - 1) as nat, false));
                lemma_flat_nonempty(cur.children@[0], (g - 1) as nat);
            }
            cur = &cur.children[0];
            proof {
                g = (g - 1) as nat;
            }
        }
        cur.keys[0]
    }

    /// Removes key `i` of this internal node. It is replaced by its predecessor where child `i`
    /// has keys to spare, else by its successor where child `i + 1` has; that key is then
    /// removed from the child it came from. Where neither child has keys to spare, the
    /// predecessor takes its place all the same, and child `i`, if it runs short, is merged
    /// with child `i + 1`.
    fn delete_internal_node(&mut self, i: usize, Ghost(h): Ghost<nat>, Ghost(root): Ghost<bool>)
        requires
            h > 1,
            old(self).shaped(h, root),
            sorted(old(self).flat()),
            i < old(self).keys@.len(),
        ensures
            sorted(final(self).flat()),
            final(self).flat().to_set() == old(self).flat().to_set().remove(old(self).keys@[i as int]),
            final(self).shaped_under(h, if root { 0 } else { (MIN_KEYS - 1) as nat }),
            final(self).keys@.len() + 1 >= old(self).keys@.len(),
            final(self).model() == removed_at(old(self).model(), i as int),
        decreases h, 0int,
    {
        let ghost ks = self.keys@;
        let ghost cs = self.children@;
        let ghost key = ks[i as int];
        proof {
            assert(models(cs)[i as int] == cs[i as int].model());
            assert(models(cs)[i + 1] == cs[i + 1].model());
            lemma_decompose(ks, cs, i as int);
            lemma_decompose(ks, cs, i + 1);
            lemma_update_key(ks, cs, i as int, 0);
            assert(cs[i as int].shaped((h - 1) as nat, false));
            assert(cs[i + 1].shaped((h - 1) as nat, false));
        }
        if self.children[i].keys.len() > MIN_KEYS || self.children[i + 1].keys.len() <= MIN_KEYS {
            let pred = self.predecessor(i, Ghost(h));
            let ghost head = head_of(ks, cs, i as int);
            let ghost rest = tail_of(ks, cs, i as int).drop_first();
            proof {
                lemma_sorted_middle(head, cs[i as int].flat(), tail_of(ks, cs, i as int));
            }
            let mut child = self.children.remove(i);
            child.delete_below(pred, Ghost((h - 1) as nat), Ghost(false));
            self.children.insert(i, child);
            self.keys.set(i, pred);
            proof {
                let ks2 = ks.update(i as int, pred);
                lemma_update_key(ks, cs, i as int, pred);
                lemma_update_child(ks2, cs, i as int, child);
                assert(self.children@ =~= cs.update(i as int, child));
                assert(self.flat() == head + child.flat() + (seq![pred] + rest));
                lemma_swap_pred(head, cs[i as int].flat(), key, rest, child.flat(), pred);
                assert(models(self.children@) =~= models(cs).update(i as int, child.model()));
                assert(self.model() =~= Tree {
                    keys: ks.update(i as int, pred),
                    children: models(cs).update(i as int, child.model()),
                });
                assert forall|j: int| 0 <= j < self.children@.len() && j != i implies (
                #[trigger] self.children@[j]).shaped((h - 1) as nat, false) by {
                    assert(self.children@[j] == cs[j]);
                }
            }
            if self.children[i].keys.len() < MIN_KEYS {
                proof {
                    lemma_shaped_under_iff(cs[i + 1], (h - 1) as nat);
                    lemma_shaped_under_iff(self.children@[i + 1], (h - 1) as nat);
                }
                self.merge(i + 1, Ghost(h));
                proof {
                    assert forall|j: int| 0 <= j < self.children@.len() implies (
                    #[trigger] self.children@[j]).shaped((h - 1) as nat, false) by {
                        if j > i {
                            assert(self.children@[j] == cs[j + 1]);
                        } else if j < i {
                            assert(self.children@[j] == cs[j]);
                        }
                    }
                }
            } else {
                proof {
                    lemma_shaped_under_iff(self.children@[i as int], (h - 1) as nat);
                }
            }
        } else {
            let succ = self.successor(i, Ghost(h));
            let ghost front = head_of(ks, cs, i + 1).drop_last();
            let ghost back = tail_of(ks, cs, i + 1);
            proof {
                lemma_sorted_middle(head_of(ks, cs, i + 1), cs[i + 1].flat(), back);
                assert(head_of(ks, cs, i + 1) == front.push(key));
            }
            let mut child = self.children.remove(i + 1);
            child.delete_below(succ, Ghost((h - 1) as nat), Ghost(false));
            self.children.insert(i + 1, child);
            self.keys.set(i, succ);
            proof {
                let ks2 = ks.update(i as int, succ);
                lemma_update_key(ks, cs, i as int, succ);
                lemma_update_child(ks2, cs, i + 1, child);
                assert(self.children@ =~= cs.update(i + 1, child));
                assert(self.flat() == front.push(succ) + child.flat() + back);
                lemma_swap_succ(front, key, cs[i + 1].flat(), back, child.flat(), succ);
                assert(models(self.children@) =~= models(cs).update(i + 1, child.model()));
                assert(self.model() =~= Tree {
                    keys: ks.update(i as int, succ),
                    children: models(cs).update(i + 1, child.model()),
                });
                lemma_shaped_under_iff(child, (h - 1) as nat);
                assert forall|j: int| 0 <= j < self.children@.len() implies (
                #[trigger] self.children@[j]).shaped((h - 1) as nat, false) by {
                    if j != i + 1 {
                        assert(self.children@[j] == cs[j]);
                    }
                }
            }
        }
    }

    /// Removes `key` from the subtree under this node, if it is there. This node may end up
    /// with one key fewer than a node other than the root may hold; its parent mends that.
    fn delete_below(&mut self, key: usize, Ghost(h): Ghost<nat>, Ghost(root): Ghost<bool>)
        requires
            old(self).shaped(h, root),
            sorted(old(self).flat()),
        ensures
            sorted(final(self).flat()),
            final(self).flat().to_set() == old(self).flat().to_set().remove(key),
            final(self).shaped_under(h, if root { 0 } else { (MIN_KEYS - 1) as nat }),
            final(self).keys@.len() + 1 >= old(self).keys@.len(),
            final(self).model() == removed(old(self).model(), key),
        decreases h, 1int,
    {
        let ghost ks = self.keys@;
        let ghost cs = self.children@;
        let i = self.find_pos(key);
        if i < self.keys.len() && self.keys[i] == key {
            if self.children.len() == 0 {
                proof {
                    lemma_sorted_remove(ks, i as int);
                }
                self.keys.remove(i);
                proof {
                    assert(self.model() =~= Tree { keys: ks.remove(i as int), children: models(cs) });
                }
            } else {
                self.delete_internal_node(i, Ghost(h), Ghost(root));
            }
        } else if self.children.len() > 0 {
            let ghost head = head_of(ks, cs, i as int);
            let ghost tail = tail_of(ks, cs, i as int);
            proof {
                lemma_decompose(ks, cs, i as int);
                lemma_head_last(ks, cs, i as int);
                lemma_sorted_middle(head, cs[i as int].flat(), tail);
                assert(cs[i as int].shaped((h - 1) as nat, false));
                lemma_flat_nonempty(cs[i as int], (h - 1) as nat);
                assert(models(cs)[i as int] == cs[i as int].model());
            }
            let mut child = self.children.remove(i);
            child.delete_below(key, Ghost((h - 1) as nat), Ghost(false));
            self.children.insert(i, child);
            proof {
                assert(self.children@ =~= cs.update(i as int, child));
                lemma_update_child(ks, cs, i as int, child);
                lemma_remove_in_middle(head, cs[i as int].flat(), tail, child.flat(), key);
                assert(models(self.children@) =~= models(cs).update(i as int, child.model()));
                assert(self.model() =~= Tree {
                    keys: ks,
                    children: models(cs).update(i as int, child.model()),
                });
                lemma_shaped_under_iff(child, (h - 1) as nat);
                assert forall|j: int| 0 <= j < self.children@.len() && j != i implies (
                #[trigger] self.children@[j]).shaped((h - 1) as nat, false) by {
                    assert(self.children@[j] == cs[j]);
                }
            }
            if self.children[i].keys.len() < MIN_KEYS {
                self.fill_child(i, Ghost(h));
            }
        } else {
            proof {
                if ks.contains(key) {
                    let k = choose|k: int| 0 <= k < ks.len() && ks[k] == key;
                    assert(k >= i);
                    assert(ks[i as int] <= ks[k]);
                }
                assert(ks.to_set() =~= ks.to_set().remove(key));
            }
        }
    }

    /// Removes `key` from the tree whose root is this node; a key that is not there is ignored.
    /// Where the root is left with no key and one child, that child becomes the root and the
    /// tree loses one level: the only way its height shrinks.
    pub fn delete(&mut self, key: usize)
        requires
            old(self).wf(),
        ensures
            final(self).wf(),
            final(self)@ == old(self)@.remove(key),
            final(self).spec_height() == old(self).spec_height() || final(self).spec_height() + 1
                == old(self).spec_height(),
            final(self).spec_height() + 1 == old(self).spec_height() ==> old(self).keys@.len()
                == 1,
            final(self).model() == deleted(old(self).model(), key),
    {
        let ghost h = self.spec_height();
        self.delete_below(key, Ghost(h), Ghost(true));
        if self.keys.len() == 0 && self.children.len() > 0 {
            let ghost pre = *self;
            let child = self.children.remove(0);
            proof {
                assert(pre.children@ =~= seq![child]);
                assert(child.shaped((h - 1) as nat, false));
                lemma_flat_ends(pre.keys@, pre.children@);
                assert(tail_of(pre.keys@, pre.children@, 0) =~= Seq::<usize>::empty());
                assert(pre.flat() =~= child.flat());
                lemma_shaped_relax(child, (h - 1) as nat);
                lemma_shaped_height(child, (h - 1) as nat, true);
                assert(pre.model().children[0] == child.model());
            }
            *self = child;
        } else {
            proof {
                lemma_shaped_under_iff(*self, h);
                lemma_shaped_height(*self, h, true);
            }
        }
    }
}

} // verus!
