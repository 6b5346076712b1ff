use vstd::prelude::*;

use crate::model::{height_of, lemma_height_model};
use crate::node::{lemma_flat_ends, sorted, Node};

verus! {

impl Node {
    /// Every leaf lies at the same depth: each child is itself balanced, and all children have
    /// the height of the first one.
    pub open spec fn balanced(self) -> bool
        decreases self,
    {
        forall|j: int|
            0 <= j < self.children@.len() ==> (#[trigger] self.children@[j]).balanced()
                && self.children@[j].spec_height() == self.children@[0].spec_height()
    }

    /// The leaf reached by always going down the last child.
    pub open spec fn rightmost(self) -> Node
        decreases self,
    {
        if self.children@.len() == 0 {
            self
        } else {
            self.children@[self.children@.len() - 1].rightmost()
        }
    }

    /// Whether this node is a leaf.
    pub fn is_leaf(&self) -> (r: bool)
        ensures
            r == self.leaf(),
    {
        self.children.len() == 0
    }

    /// Whether this node has any child.
    pub fn have_child(&self) -> (r: bool)
        ensures
            r == !self.leaf(),
    {
        self.children.len() > 0
    }

    /// The number of levels of the tree, a leaf counting as one.
    pub fn height(&self) -> (r: usize)
        requires
            self.wf(),
        ensures
            r == self.spec_height(),
            r == height_of(self.model()),
    {
        proof {
            lemma_height_model(*self);
            lemma_height_bound(*self);
        }
        let mut cur = self;
        let mut r: usize = 1;
        while cur.children.len() > 0
            invariant
                r + cur.spec_height() == self.spec_height() + 1,
                self.spec_height() <= usize::MAX,
            decreases cur.spec_height(),
        {
            proof {
                lemma_height_positive(cur.children@[0]);
            }
            cur = &cur.children[0];
            r = r + 1;
        }
        r
    }

    /// Whether this node and `other` have the same height.
    pub fn same_height(&self, other: &Node) -> (r: bool)
        ensures
            r == (self.spec_height() == other.spec_height()),
        decreases self,
    {
        if self.children.len() > 0 {
            proof {
                lemma_height_positive(self.children@[0]);
            }
        }
        if other.children.len() > 0 {
            proof {
                lemma_height_positive(other.children@[0]);
            }
        }
        if self.children.len() == 0 || other.children.len() == 0 {
            self.children.len() == 0 && other.children.len() == 0
        } else {
            self.children[0].same_height(&other.children[0])
        }
    }

    /// Whether all leaves of the tree lie at the same depth.
    pub fn is_balanced(&self) -> (r: bool)
        ensures
            r == self.balanced(),
        decreases self,
    {
        let n = self.children.len();
        let mut j: usize = 0;
        while j < n
            invariant
                n == self.children@.len(),
                j <= n,
                forall|k: int|
                    0 <= k < j ==> (#[trigger] self.children@[k]).balanced()
                        && self.children@[k].spec_height() == self.children@[0].spec_height(),
            decreases n - j,
        {
            if !self.children[j].is_balanced() || !self.children[j].same_height(&self.children[0]) {
                return false;
            }
            j += 1;
        }
        true
    }

    /// The rightmost leaf of the tree.
    pub fn get_rightmost_node(&self) -> (r: &Node)
        ensures
            r == self.rightmost(),
            r.leaf(),
        decreases self,
    {
        if self.children.len() == 0 {
            return self;
        }
        self.children[self.children.len() - 1].get_rightmost_node()
    }
}

/// Every tree has at least one level.
pub(crate) proof fn lemma_height_positive(n: Node)
    ensures
        n.spec_height() >= 1,
{
}

/// In a sorted sequence each element is at least its position.
pub(crate) proof fn lemma_sorted_at_least_index(s: Seq<usize>, i: int)
    requires
        sorted(s),
        0 <= i < s.len(),
    ensures
        s[i] >= i,
    decreases i,
{
    if i > 0 {
        lemma_sorted_at_least_index(s, i - 1);
    }
}

/// A subtree of `g` levels, other than the root, holds more than `g` keys.
pub(crate) proof fn lemma_flat_grows(n: Node, g: nat)
    requires
        n.shaped(g, false),
    ensures
        n.flat().len() >= g + 1,
    decreases g,
{
    if g > 1 {
        lemma_flat_ends(n.keys@, n.children@);
        assert(n.children@[0].shaped((g - 1) as nat, false));
        lemma_flat_grows(n.children@[0], (g - 1) as nat);
    }
}

/// A valid tree has fewer levels than a `usize` can count: each level below the root adds a key,
/// and the keys are distinct values of `usize`.
pub(crate) proof fn lemma_height_bound(n: Node)
    requires
        n.wf(),
    ensures
        n.spec_height() <= usize::MAX,
{
    let h = n.spec_height();
    if h > 1 {
        lemma_flat_ends(n.keys@, n.children@);
        assert(n.children@[0].shaped((h - 1) as nat, false));
        lemma_flat_grows(n.children@[0], (h - 1) as nat);
        let f = n.flat();
        lemma_sorted_at_least_index(f, f.len() - 1);
    }
}

/// The shape invariant keeps every leaf at the same depth.
pub(crate) proof fn lemma_shaped_balanced(n: Node, g: nat, root: bool)
    requires
        n.shaped(g, root),
    ensures
        n.balanced(),
    decreases n,
{
    assert forall|j: int| 0 <= j < n.children@.len() implies (#[trigger] n.children@[j]).balanced()
        && n.children@[j].spec_height() == n.children@[0].spec_height() by {
        assert(n.children@[j].shaped((g - 1) as nat, false));
        assert(n.children@[0].shaped((g - 1) as nat, false));
        lemma_shaped_balanced(n.children@[j], (g - 1) as nat, false);
        crate::node::lemma_shaped_height(n.children@[j], (g - 1) as nat, false);
        crate::node::lemma_shaped_height(n.children@[0], (g - 1) as nat, false);
    }
}

} // verus!
