use vstd::prelude::*;

use crate::node::{
    flat_of, head_of, lemma_decompose, lemma_flat_join, lemma_head_prefix, lemma_shaped_height,
    lemma_tail_splice, lemma_update_child, sorted, tail_of, Node, MAX_KEYS, MIN_KEYS, ORDER,
};
use crate::model::{full_path, insert_below, inserted, models, promoted, split_of, Tree};
use crate::ordered::{lemma_add_in_middle, lemma_sorted_insert, lemma_sorted_middle};
use crate::search::{lemma_head_last, lemma_key_in_flat};

verus! {

/// The keys that an insertion below a node leaves: those of the node, and where it split,
/// the promoted key and those of the new right sibling.
pub(crate) open spec fn outcome(n: Node, r: Option<(usize, Node)>) -> Seq<usize> {
    match r {
        None => n.flat(),
        Some((p, right)) => n.flat() + seq![p] + right.flat(),
    }
}

impl Node {
    /// Splits a node that has overflowed to `ORDER` keys: the node keeps the keys below the
    /// middle one, the middle key is handed back for the parent, and a new right sibling takes
    /// the keys above it (with the children between them, where the node is internal).
    fn split_node(&mut self, Ghost(h): Ghost<nat>) -> (r: (usize, Node))
        requires
            old(self).keys@.len() == ORDER,
            h >= 1,
            (h == 1) == (old(self).children@.len() == 0),
            h > 1 ==> old(self).children@.len() == ORDER + 1,
            forall|j: int|
                0 <= j < old(self).children@.len() ==> (#[trigger] old(self).children@[j]).shaped(
                    (h - 1) as nat,
                    false,
                ),
        ensures
            final(self).shaped(h, false),
            r.1.shaped(h, false),
            old(self).flat() == final(self).flat() + seq![r.0] + r.1.flat(),
            final(self).keys@ == old(self).keys@.subrange(0, (ORDER / 2) as int),
            r.0 == old(self).keys@[(ORDER / 2) as int],
            r.1.keys@ == old(self).keys@.subrange((ORDER / 2 + 1) as int, ORDER as int),
            split_of(old(self).model()) == (final(self).model(), r.0, r.1.model()),
    {
        let mid: usize = ORDER / 2;
        let ghost old_keys = self.keys@;
        let ghost old_children = self.children@;
        let right_keys = self.keys.split_off(mid + 1);
        let p = self.keys.remove(mid);
        let right_children = if self.children.len() == 0 {
            Vec::new()
        } else {
            self.children.split_off(mid + 1)
        };
        let right = Node { keys: right_keys, children: right_children };
        proof {
            assert(old_keys =~= self.keys@ + seq![p] + right.keys@);
            assert(old_children =~= self.children@ + right.children@);
            lemma_flat_join(self.keys@, self.children@, p, right.keys@, right.children@);
            assert forall|j: int| 0 <= j < right.children@.len() implies (
            #[trigger] right.children@[j]).shaped((h - 1) as nat, false) by {
                assert(right.children@[j] == old_children[j + mid + 1]);
            }
            assert forall|j: int| 0 <= j < self.children@.len() implies (
            #[trigger] self.children@[j]).shaped((h - 1) as nat, false) by {
                assert(self.children@[j] == old_children[j]);
            }
            let t = Tree { keys: old_keys, children: models(old_children) };
            let (l, q, r) = split_of(t);
            assert(models(self.children@) =~= l.children);
            assert(models(right.children@) =~= r.children);
            assert(self.model() =~= l);
            assert(right.model() =~= r);
        }
        (p, right)
    }

    /// Takes in the result of a split of child `i`: `key` goes in front of key `i`, and
    /// `right` right after child `i`.
    fn insert_child(&mut self, i: usize, key: usize, right: Node)
        requires
            i < old(self).children@.len(),
            old(self).children@.len() == old(self).keys@.len() + 1,
        ensures
            final(self).keys@ == old(self).keys@.insert(i as int, key),
            final(self).children@ == old(self).children@.insert(i + 1, right),
    {
        let n = self.children.len();
        assert(i + 1 <= n);
        self.keys.insert(i, key);
        self.children.insert(i + 1, right);
    }

    /// Inserts `key` below this node. Where the node overflows it splits, and the key to
    /// promote and the new right sibling come back for the parent to take in.
    #[verifier::rlimit(100)]
    fn insert_down_to_leaf(&mut self, key: usize, Ghost(h): Ghost<nat>, Ghost(root): Ghost<bool>) -> (r: Option<(usize, Node)>)
        requires
            old(self).shaped(h, root),
            sorted(old(self).flat()),
        ensures
            sorted(outcome(*final(self), r)),
            outcome(*final(self), r).to_set() == old(self).flat().to_set().insert(key),
            r is None ==> final(self).shaped(h, root),
            r matches Some((_, right)) ==> final(self).shaped(h, false) && right.shaped(h, false),
            r is Some ==> old(self).keys@.len() == MAX_KEYS,
            r is Some <==> full_path(old(self).model(), key),
            r matches Some((_, right)) ==> final(self).keys@.len() == MIN_KEYS && right.keys@.len()
                == MIN_KEYS,
            insert_below(old(self).model(), key) == (final(self).model(), promoted(r)),
        decreases h,
    {
        let i = self.find_pos(key);
        if i < self.keys.len() && self.keys[i] == key {
            proof {
                lemma_key_in_flat(*self, i as int);
                assert(self.flat().to_set() =~= self.flat().to_set().insert(key));
            }
            return None;
        }
        let ghost ks = self.keys@;
        let ghost cs = self.children@;
        if self.children.len() == 0 {
            proof {
                lemma_sorted_insert(ks, i as int, key);
            }
            self.keys.insert(i, key);
            proof {
                assert(self.model() =~= Tree { keys: ks.insert(i as int, key), children: models(cs) });
            }
        } else {
            let ghost head = head_of(ks, cs, i as int);
            let ghost tail = tail_of(ks, cs, i as int);
            proof {
                lemma_decompose(ks, cs, i as int);
                lemma_head_last(ks, cs, i as int);
                lemma_sorted_middle(head, cs[i as int].flat(), tail);
                assert(cs[i as int].shaped((h - 1) as nat, false));
            }
            let mut child = self.children.remove(i);
            let r = child.insert_down_to_leaf(key, Ghost((h - 1) as nat), Ghost(false));
            let ghost out = outcome(child, r);
            proof {
                lemma_add_in_middle(head, cs[i as int].flat(), tail, out, key);
            }
            match r {
                None => {
                    self.children.insert(i, child);
                    proof {
                        assert(self.children@ =~= cs.update(i as int, child));
                        lemma_keep_child(ks, cs, i as int, child, h);
                        assert(models(self.children@) =~= models(cs).update(i as int, child.model()));
                    }
                },
                Some((p, right)) => {
                    self.children.insert(i, child);
                    self.insert_child(i, p, right);
                    proof {
                        assert(self.children@ =~= cs.update(i as int, child).insert(i + 1, right));
                        assert(self.keys@ =~= ks.insert(i as int, p));
                        lemma_splice_child(ks, cs, i as int, child, p, right, h);
                        assert(models(self.children@) =~= models(cs).update(i as int, child.model()).insert(
                            i + 1,
                            right.model(),
                        ));
                    }
                },
            }
        }
        if self.keys.len() == ORDER {
            let (p, right) = self.split_node(Ghost(h));
            Some((p, right))
        } else {
            None
        }
    }

    /// Inserts `key` into the tree whose root is this node; a key already present is left as
    /// it is. Where the root splits, a new root takes the promoted key and the two halves,
    /// and the tree grows by one level: the only way its height grows.
    pub fn insert(&mut self, key: usize)
        requires
            old(self).wf(),
        ensures
            final(self).wf(),
            final(self)@ == old(self)@.insert(key),
            final(self).spec_height() == old(self).spec_height() || final(self).spec_height()
                == old(self).spec_height() + 1,
            final(self).spec_height() == old(self).spec_height() + 1 ==> old(self).keys@.len() == MAX_KEYS
                && final(self).keys@.len() == 1 && final(self).children@.len() == 2
                && final(self).children@[0].keys@.len() == MIN_KEYS
                && final(self).children@[1].keys@.len() == MIN_KEYS,
            final(self).model() == inserted(old(self).model(), key),
            final(self).spec_height() == old(self).spec_height() + 1 <==> full_path(
                old(self).model(),
                key,
            ),
    {
        let ghost h = self.spec_height();
        let r = self.insert_down_to_leaf(key, Ghost(h), Ghost(true));
        match r {
            None => {
                proof {
                    lemma_shaped_height(*self, h, true);
                }
            },
            Some((p, right)) => {
                let mut left = Node::new();
                std::mem::swap(self, &mut left);
                self.keys.push(p);
                self.children.push(left);
                self.children.push(right);
                proof {
                    assert(self.keys@ =~= Seq::<usize>::empty() + seq![p] + Seq::<usize>::empty());
                    assert(self.children@ =~= seq![left] + seq![right]);
                    lemma_flat_join(Seq::empty(), seq![left], p, Seq::empty(), seq![right]);
                    assert(flat_of(Seq::empty(), seq![left]) =~= left.flat()) by {
                        reveal_with_fuel(Seq::flatten, 2);
                    }
                    assert(flat_of(Seq::empty(), seq![right]) =~= right.flat()) by {
                        reveal_with_fuel(Seq::flatten, 2);
                    }
                    assert(self.children@[0] == left);
                    assert(self.children@[1] == right);
                    assert(self.shaped(h + 1, true));
                    lemma_shaped_height(*self, h + 1, true);
                    assert(models(self.children@) =~= seq![left.model(), right.model()]);
                }
            },
        }
    }
}

/// Child `i` replaced by `c`, of the same height.
proof fn lemma_keep_child(ks: Seq<usize>, cs: Seq<Node>, i: int, c: Node, h: nat)
    requires
        cs.len() == ks.len() + 1,
        0 <= i < cs.len(),
        h > 1,
        c.shaped((h - 1) as nat, false),
        forall|j: int| 0 <= j < cs.len() ==> (#[trigger] cs[j]).shaped((h - 1) as nat, false),
    ensures
        flat_of(ks, cs.update(i, c)) == head_of(ks, cs, i) + c.flat() + tail_of(ks, cs, i),
        forall|j: int|
            0 <= j < cs.len() ==> (#[trigger] cs.update(i, c)[j]).shaped((h - 1) as nat, false),
{
    lemma_update_child(ks, cs, i, c);
}

/// Child `i` replaced by the two halves `c` and `right` of a split, with `p` between them.
#[verifier::rlimit(40)]
proof fn lemma_splice_child(
    ks: Seq<usize>,
    cs: Seq<Node>,
    i: int,
    c: Node,
    p: usize,
    right: Node,
    h: nat,
)
    requires
        cs.len() == ks.len() + 1,
        0 <= i < cs.len(),
        h > 1,
        c.shaped((h - 1) as nat, false),
        right.shaped((h - 1) as nat, false),
        forall|j: int| 0 <= j < cs.len() ==> (#[trigger] cs[j]).shaped((h - 1) as nat, false),
    ensures
        flat_of(ks.insert(i, p), cs.update(i, c).insert(i + 1, right)) == head_of(ks, cs, i) + (
        c.flat() + seq![p] + right.flat()) + tail_of(ks, cs, i),
        forall|j: int|
            0 <= j < cs.len() + 1 ==> (#[trigger] cs.update(i, c).insert(i + 1, right)[j]).shaped(
                (h - 1) as nat,
                false,
            ),
{
    let cs2 = cs.update(i, c).insert(i + 1, right);
    let ks2 = ks.insert(i, p);
    lemma_decompose(ks2, cs2, i);
    assert(ks2.subrange(0, i) =~= ks.subrange(0, i));
    assert(cs2.subrange(0, i) =~= cs.subrange(0, i));
    lemma_head_prefix(ks, cs, ks2, cs2, i);
    lemma_tail_splice(ks, cs, i, c, p, right);
    assert(flat_of(ks2, cs2) =~= head_of(ks, cs, i) + (c.flat() + seq![p] + right.flat())
        + tail_of(ks, cs, i));
    assert forall|j: int| 0 <= j < cs2.len() implies (#[trigger] cs2[j]).shaped(
        (h - 1) as nat,
        false,
    ) by {
        if j < i {
            assert(cs2[j] == cs[j]);
        } else if j > i + 1 {
            assert(cs2[j] == cs[j - 1]);
        }
    }
}

} // verus!
