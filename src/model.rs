use vstd::prelude::*;

use crate::node::{Node, MAX_KEYS, MIN_KEYS, ORDER};

verus! {

/// The mathematical form of a tree: the keys of the root, and the subtrees under it.
#[verifier::ext_equal]
pub ghost struct Tree {
    pub keys: Seq<usize>,
    pub children: Seq<Tree>,
}

/// The forms of a sequence of nodes.
pub open spec fn models(cs: Seq<Node>) -> Seq<Tree>
    decreases cs, 0int,
{
    Seq::new(
        cs.len(),
        |j: int|
            if 0 <= j < cs.len() {
                cs[j].model()
            } else {
                Tree { keys: Seq::empty(), children: Seq::empty() }
            },
    )
}

impl Node {
    /// The form of the tree under this node.
    pub open spec fn model(self) -> Tree
        decreases self, 1int,
    {
        Tree { keys: self.keys@, children: models(self.children@) }
    }
}

/// The number of leading keys below `key`: where a search for `key` stops in a node.
pub open spec fn pos_of(ks: Seq<usize>, key: usize) -> int
    decreases ks.len(),
{
    if ks.len() > 0 && ks[0] < key {
        1 + pos_of(ks.drop_first(), key)
    } else {
        0
    }
}

/// `pos_of` is the first position whose key is not below `key`.
pub(crate) proof fn lemma_pos_of(ks: Seq<usize>, key: usize, i: int)
    requires
        0 <= i <= ks.len(),
        forall|j: int| 0 <= j < i ==> ks[j] < key,
        i < ks.len() ==> key <= ks[i],
    ensures
        pos_of(ks, key) == i,
    decreases i,
{
    if i > 0 {
        assert forall|j: int| 0 <= j < i - 1 implies ks.drop_first()[j] < key by {
            assert(ks.drop_first()[j] == ks[j + 1]);
        }
        lemma_pos_of(ks.drop_first(), key, i - 1);
    }
}

/// A node that has overflowed, cut around its middle key: the left half, the middle key and
/// the right half.
pub open spec fn split_of(t: Tree) -> (Tree, usize, Tree) {
    let m = (ORDER / 2) as int;
    let leaf = t.children.len() == 0;
    (
        Tree {
            keys: t.keys.subrange(0, m),
            children: if leaf { t.children } else { t.children.subrange(0, m + 1) },
        },
        t.keys[m],
        Tree {
            keys: t.keys.subrange(m + 1, t.keys.len() as int),
            children: if leaf {
                t.children
            } else {
                t.children.subrange(m + 1, t.children.len() as int)
            },
        },
    )
}

/// Insertion of `key` below the node `t`: its new form, and where it split, the promoted key
/// and the new right sibling.
pub open spec fn insert_below(t: Tree, key: usize) -> (Tree, Option<(usize, Tree)>)
    decreases t,
{
    let i = pos_of(t.keys, key);
    if i < t.keys.len() && t.keys[i] == key {
        (t, None)
    } else {
        let t1 = if t.children.len() == 0 {
            Tree { keys: t.keys.insert(i, key), children: t.children }
        } else if 0 <= i < t.children.len() {
            let (c, r) = insert_below(t.children[i], key);
            match r {
                None => Tree { keys: t.keys, children: t.children.update(i, c) },
                Some((p, right)) => Tree {
                    keys: t.keys.insert(i, p),
                    children: t.children.update(i, c).insert(i + 1, right),
                },
            }
        } else {
            t
        };
        if t1.keys.len() == ORDER {
            let (l, p, r) = split_of(t1);
            (l, Some((p, r)))
        } else {
            (t1, None)
        }
    }
}

/// The tree after inserting `key`: where the root splits, a new root holds the promoted key
/// over the two halves.
pub open spec fn inserted(t: Tree, key: usize) -> Tree {
    let (l, r) = insert_below(t, key);
    match r {
        None => l,
        Some((p, right)) => Tree { keys: seq![p], children: seq![l, right] },
    }
}

/// The form of what a split hands back to the parent.
pub open spec fn promoted(r: Option<(usize, Node)>) -> Option<(usize, Tree)> {
    match r {
        None => None,
        Some((p, right)) => Some((p, right.model())),
    }
}

/// Child `i` takes the separating key in front of its keys, and its left sibling's last key
/// takes the separator's place (the sibling's last child moving along, where they are internal).
pub open spec fn borrowed_left(t: Tree, i: int) -> Tree {
    let l = t.children[i - 1];
    let c = t.children[i];
    let inner = l.children.len() > 0;
    let l2 = Tree {
        keys: l.keys.drop_last(),
        children: if inner { l.children.drop_last() } else { l.children },
    };
    let c2 = Tree {
        keys: seq![t.keys[i - 1]] + c.keys,
        children: if inner { seq![l.children.last()] + c.children } else { c.children },
    };
    Tree {
        keys: t.keys.update(i - 1, l.keys.last()),
        children: t.children.update(i - 1, l2).update(i, c2),
    }
}

/// Child `i` takes the separating key after its keys, and its right sibling's first key takes
/// the separator's place (the sibling's first child moving along, where they are internal).
pub open spec fn borrowed_right(t: Tree, i: int) -> Tree {
    let c = t.children[i];
    let r = t.children[i + 1];
    let inner = r.children.len() > 0;
    let c2 = Tree {
        keys: c.keys.push(t.keys[i]),
        children: if inner { c.children.push(r.children[0]) } else { c.children },
    };
    let r2 = Tree {
        keys: r.keys.drop_first(),
        children: if inner { r.children.drop_first() } else { r.children },
    };
    Tree {
        keys: t.keys.update(i, r.keys[0]),
        children: t.children.update(i, c2).update(i + 1, r2),
    }
}

/// Children `i - 1` and `i` become one, with the key that separated them between their keys.
pub open spec fn merged(t: Tree, i: int) -> Tree {
    let l = t.children[i - 1];
    let r = t.children[i];
    let m = Tree { keys: l.keys + seq![t.keys[i - 1]] + r.keys, children: l.children + r.children };
    Tree { keys: t.keys.remove(i - 1), children: t.children.remove(i).update(i - 1, m) }
}

/// Child `i`, one key short, mended: borrowing from the left sibling where it has keys to
/// spare, else from the right one, else merging with the left sibling, or the right one where
/// there is no left one.
pub open spec fn filled(t: Tree, i: int) -> Tree {
    if i > 0 && t.children[i - 1].keys.len() > MIN_KEYS {
        borrowed_left(t, i)
    } else if i < t.keys.len() && t.children[i + 1].keys.len() > MIN_KEYS {
        borrowed_right(t, i)
    } else if i > 0 {
        merged(t, i)
    } else {
        merged(t, i + 1)
    }
}

/// The largest key of a tree: the last key of its rightmost leaf.
pub open spec fn max_key(t: Tree) -> usize
    decreases t,
{
    if t.children.len() == 0 {
        t.keys.last()
    } else {
        max_key(t.children.last())
    }
}

/// The smallest key of a tree: the first key of its leftmost leaf.
pub open spec fn min_key(t: Tree) -> usize
    decreases t,
{
    if t.children.len() == 0 {
        t.keys[0]
    } else {
        min_key(t.children[0])
    }
}

/// Key `i` of the internal node `t` removed: replaced by its predecessor, or by its successor
/// where child `i` has no key to spare and child `i + 1` has, and that key removed below; where
/// the predecessor was taken and child `i` runs short, it merges with child `i + 1`.
pub open spec fn removed_at(t: Tree, i: int) -> Tree
    decreases t, 0int,
{
    if 0 <= i && i + 1 < t.children.len() {
        if t.children[i].keys.len() > MIN_KEYS || t.children[i + 1].keys.len() <= MIN_KEYS {
            let pred = max_key(t.children[i]);
            let c = removed(t.children[i], pred);
            let t1 = Tree { keys: t.keys.update(i, pred), children: t.children.update(i, c) };
            if c.keys.len() < MIN_KEYS {
                merged(t1, i + 1)
            } else {
                t1
            }
        } else {
            let succ = min_key(t.children[i + 1]);
            let c = removed(t.children[i + 1], succ);
            Tree { keys: t.keys.update(i, succ), children: t.children.update(i + 1, c) }
        }
    } else {
        t
    }
}

/// `key` removed from the subtree `t`, the node `t` itself possibly left one key short.
pub open spec fn removed(t: Tree, key: usize) -> Tree
    decreases t, 1int,
{
    let i = pos_of(t.keys, key);
    if i < t.keys.len() && t.keys[i] == key {
        if t.children.len() == 0 {
            Tree { keys: t.keys.remove(i), children: t.children }
        } else {
            removed_at(t, i)
        }
    } else if t.children.len() > 0 && 0 <= i < t.children.len() {
        let c = removed(t.children[i], key);
        let t1 = Tree { keys: t.keys, children: t.children.update(i, c) };
        if c.keys.len() < MIN_KEYS {
            filled(t1, i)
        } else {
            t1
        }
    } else {
        t
    }
}

/// The tree after deleting `key`: a root left with no key hands over to its only child.
pub open spec fn deleted(t: Tree, key: usize) -> Tree {
    let t1 = removed(t, key);
    if t1.keys.len() == 0 && t1.children.len() > 0 {
        t1.children[0]
    } else {
        t1
    }
}

/// Every node on the search path of `key` is full and none holds `key`: exactly the case where
/// inserting `key` splits every node on that path, the root included.
pub open spec fn full_path(t: Tree, key: usize) -> bool
    decreases t,
{
    let i = pos_of(t.keys, key);
    &&& !(i < t.keys.len() && t.keys[i] == key)
    &&& t.keys.len() == MAX_KEYS
    &&& (t.children.len() == 0 || (0 <= i < t.children.len() && full_path(t.children[i], key)))
}

/// The number of levels of a tree, counted down the leftmost path.
pub open spec fn height_of(t: Tree) -> nat
    decreases t,
{
    if t.children.len() == 0 {
        1
    } else {
        1 + height_of(t.children[0])
    }
}

/// A node has the height of its mathematical form.
pub(crate) proof fn lemma_height_model(n: Node)
    ensures
        n.spec_height() == height_of(n.model()),
    decreases n,
{
    if n.children@.len() > 0 {
        assert(n.model().children[0] == n.children@[0].model());
        lemma_height_model(n.children@[0]);
    }
}

} // verus!
