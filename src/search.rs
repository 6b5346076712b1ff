use vstd::prelude::*;

use crate::node::{head_of, lemma_decompose, lemma_shaped_height, pieces_of, tail_of, Node};
use crate::model::{lemma_pos_of, pos_of};
use crate::ordered::{lemma_sorted_locate, lemma_sorted_middle};

verus! {

impl Node {
    /// `m` is this node or a node of one of its subtrees.
    pub open spec fn has_node(self, m: Node) -> bool
        decreases self,
    {
        self == m || exists|j: int|
            0 <= j < self.children@.len() && (#[trigger] self.children@[j]).has_node(m)
    }

    /// The position of the first key of this node that is not below `key`.
    pub(crate) fn find_pos(&self, key: usize) -> (i: usize)
        ensures
            i <= self.keys@.len(),
            forall|j: int| 0 <= j < i ==> self.keys@[j] < key,
            i < self.keys@.len() ==> key <= self.keys@[i as int],
            i == pos_of(self.keys@, key),
    {
        let mut i: usize = 0;
        while i < self.keys.len() && key > self.keys[i]
            invariant
                i <= self.keys@.len(),
                forall|j: int| 0 <= j < i ==> self.keys@[j] < key,
            decreases self.keys@.len() - i,
        {
            i += 1;
        }
        proof {
            lemma_pos_of(self.keys@, key, i as int);
        }
        i
    }

    /// Looks `key` up: the node that holds it, or `None` where the tree does not hold it.
    pub fn find(&self, key: usize) -> (r: Option<&Node>)
        requires
            self.wf(),
        ensures
            r.is_some() == self@.contains(key),
            r matches Some(m) ==> m.keys@.contains(key) && self.has_node(*m),
        decreases self,
    {
        let i = self.find_pos(key);
        if i < self.keys.len() && key == self.keys[i] {
            proof {
                lemma_key_in_flat(*self, i as int);
            }
            return Some(self);
        }
        if self.children.len() == 0 {
            proof {
                if self.flat().contains(key) {
                    let k = choose|k: int| 0 <= k < self.keys@.len() && self.keys@[k] == key;
                    assert(k >= i);
                    assert(self.keys@[i as int] <= self.keys@[k]);
                }
            }
            return None;
        }
        proof {
            lemma_child_wf(*self, i as int);
            let ks = self.keys@;
            let cs = self.children@;
            lemma_decompose(ks, cs, i as int);
            lemma_head_last(ks, cs, i as int);
            lemma_sorted_locate(head_of(ks, cs, i as int), cs[i as int].flat(), tail_of(ks, cs, i as int), key);
        }
        let r = self.children[i].find(key);
        proof {
            if let Some(m) = r {
                assert(self.children@[i as int].has_node(*m));
            }
        }
        r
    }
}

/// Each key of a node is among the keys of its subtree.
pub(crate) proof fn lemma_key_in_flat(n: Node, i: int)
    requires
        n.wf() || n.children@.len() == 0 || n.children@.len() == n.keys@.len() + 1,
        0 <= i < n.keys@.len(),
    ensures
        n.flat().contains(n.keys@[i]),
{
    if n.children@.len() == 0 {
        assert(n.flat()[i] == n.keys@[i]);
    } else {
        lemma_wf_internal(n);
        lemma_decompose(n.keys@, n.children@, i);
        let h = head_of(n.keys@, n.children@, i);
        let c = n.children@[i].flat();
        assert(n.flat()[(h.len() + c.len()) as int] == n.keys@[i]);
    }
}

/// An internal node of a valid tree has one child more than keys.
pub(crate) proof fn lemma_wf_internal(n: Node)
    requires
        n.wf() || n.children@.len() == 0 || n.children@.len() == n.keys@.len() + 1,
    ensures
        n.children@.len() == 0 || n.children@.len() == n.keys@.len() + 1,
{
}

/// The keys before child `i` end with the key that separates it from child `i - 1`.
pub(crate) proof fn lemma_head_last(ks: Seq<usize>, cs: Seq<Node>, i: int)
    requires
        cs.len() == ks.len() + 1,
        0 <= i < cs.len(),
    ensures
        i > 0 ==> head_of(ks, cs, i).len() > 0 && head_of(ks, cs, i).last() == ks[i - 1],
        i < ks.len() ==> tail_of(ks, cs, i).len() > 0 && tail_of(ks, cs, i)[0] == ks[i],
{
    if i > 0 {
        let p = pieces_of(ks, cs);
        assert(p.subrange(0, i) =~= p.subrange(0, i - 1).push(p[i - 1]));
        p.subrange(0, i - 1).lemma_flatten_push(p[i - 1]);
    }
}

/// A child of a valid tree is itself a valid tree.
pub(crate) proof fn lemma_child_wf(n: Node, i: int)
    requires
        n.wf(),
        n.children@.len() > 0,
        0 <= i < n.children@.len(),
    ensures
        n.children@[i].wf(),
        n.children@[i].shaped((n.spec_height() - 1) as nat, false),
{
    let h = n.spec_height();
    let c = n.children@[i];
    assert(c.shaped((h - 1) as nat, false));
    lemma_shaped_height(c, (h - 1) as nat, false);
    lemma_decompose(n.keys@, n.children@, i);
    lemma_sorted_middle(head_of(n.keys@, n.children@, i), c.flat(), tail_of(n.keys@, n.children@, i));
}

} // verus!
