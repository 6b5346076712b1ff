use vstd::prelude::*;
use vstd::seq_lib::lemma_flatten_concat;

verus! {

/// The branching factor: the most children an internal node may have.
pub const ORDER: usize = 5;

/// The most keys a node may hold once an operation has returned.
pub const MAX_KEYS: usize = ORDER - 1;

/// The fewest keys a node other than the root may hold: half the order, rounded up, less one.
pub const MIN_KEYS: usize = (ORDER + 1) / 2 - 1;

/// A node of the tree. The tree is handled through its root node.
///
/// A leaf has no children; an internal node with `n` keys has `n + 1` children.
#[derive(Debug)]
pub struct Node {
    pub keys: Vec<usize>,
    pub children: Vec<Node>,
}

/// Strictly ascending.
pub open spec fn sorted(s: Seq<usize>) -> bool {
    forall|i: int, j: int| 0 <= i < j < s.len() ==> s[i] < s[j]
}

/// The keys under child `j` of a node with keys `ks` and children `cs`, followed by the key
/// that separates that child from the next one, if there is one.
pub open spec fn piece_of(ks: Seq<usize>, cs: Seq<Node>, j: int) -> Seq<usize>
    decreases cs, 0int,
{
    if 0 <= j < cs.len() {
        let sub = cs[j].flat();
        if j < ks.len() {
            sub.push(ks[j])
        } else {
            sub
        }
    } else {
        Seq::empty()
    }
}

/// The pieces of all children of a node, in order.
pub open spec fn pieces_of(ks: Seq<usize>, cs: Seq<Node>) -> Seq<Seq<usize>>
    decreases cs, 1int,
{
    Seq::new(cs.len(), |j: int| piece_of(ks, cs, j))
}

/// All keys of a node with keys `ks` and children `cs`, in order.
pub open spec fn flat_of(ks: Seq<usize>, cs: Seq<Node>) -> Seq<usize>
    decreases cs, 2int,
{
    if cs.len() == 0 {
        ks
    } else {
        pieces_of(ks, cs).flatten()
    }
}

/// What follows child `i` within the keys of its parent.
pub open spec fn tail_of(ks: Seq<usize>, cs: Seq<Node>, i: int) -> Seq<usize> {
    if i < ks.len() {
        seq![ks[i]] + pieces_of(ks, cs).subrange(i + 1, cs.len() as int).flatten()
    } else {
        Seq::empty()
    }
}

/// What precedes child `i` within the keys of its parent.
pub open spec fn head_of(ks: Seq<usize>, cs: Seq<Node>, i: int) -> Seq<usize> {
    pieces_of(ks, cs).subrange(0, i).flatten()
}

impl Node {
    /// All keys of the subtree, in order.
    pub open spec fn flat(self) -> Seq<usize>
        decreases self, 3int,
    {
        flat_of(self.keys@, self.children@)
    }

    /// The node has no children.
    pub open spec fn leaf(self) -> bool {
        self.children@.len() == 0
    }

    /// The number of levels, counted down the leftmost path (a leaf is one level).
    pub open spec fn spec_height(self) -> nat
        decreases self,
    {
        if self.children@.len() == 0 {
            1
        } else {
            1 + self.children@[0].spec_height()
        }
    }

    /// The subtree has `h` levels with every leaf on the last one, each node holds at most
    /// `MAX_KEYS` keys, each node but a root at least `MIN_KEYS`, and each internal node one
    /// child more than keys. A root that is internal holds at least one key.
    pub open spec fn shaped(self, h: nat, root: bool) -> bool
        decreases self,
    {
        &&& self.keys@.len() <= MAX_KEYS
        &&& if h <= 1 {
            &&& h == 1
            &&& self.children@.len() == 0
            &&& (root || self.keys@.len() >= MIN_KEYS)
        } else {
            &&& self.children@.len() == self.keys@.len() + 1
            &&& self.keys@.len() >= (if root { 1 } else { MIN_KEYS })
            &&& forall|j: int|
                0 <= j < self.children@.len() ==> (#[trigger] self.children@[j]).shaped(
                    (h - 1) as nat,
                    false,
                )
        }
    }

    /// The children are well shaped subtrees of `h - 1` levels, this node holds between `lo`
    /// and `MAX_KEYS` keys.
    pub open spec fn shaped_under(self, h: nat, lo: nat) -> bool {
        &&& self.keys@.len() <= MAX_KEYS
        &&& self.keys@.len() >= lo
        &&& h >= 1
        &&& (h == 1) == (self.children@.len() == 0)
        &&& h > 1 ==> self.children@.len() == self.keys@.len() + 1
        &&& forall|j: int|
            0 <= j < self.children@.len() ==> (#[trigger] self.children@[j]).shaped(
                (h - 1) as nat,
                false,
            )
    }

    /// The tree invariant of a root: the shape above, and keys in strictly ascending order.
    pub open spec fn wf(self) -> bool {
        &&& self.shaped(self.spec_height(), true)
        &&& sorted(self.flat())
    }
}

impl View for Node {
    type V = Set<usize>;

    /// The set of keys in the tree.
    open spec fn view(&self) -> Set<usize> {
        self.flat().to_set()
    }
}

/// A well shaped subtree of `h` levels has height `h`.
pub(crate) proof fn lemma_shaped_height(n: Node, h: nat, root: bool)
    requires
        n.shaped(h, root),
    ensures
        n.spec_height() == h,
    decreases n,
{
    if h > 1 {
        assert(n.children@[0].shaped((h - 1) as nat, false));
        lemma_shaped_height(n.children@[0], (h - 1) as nat, false);
    }
}

/// What holds of a node other than the root holds of a root too.
pub(crate) proof fn lemma_shaped_relax(n: Node, h: nat)
    requires
        n.shaped(h, false),
    ensures
        n.shaped(h, true),
{
}

/// The keys of a node split around child `i`.
pub(crate) proof fn lemma_decompose(ks: Seq<usize>, cs: Seq<Node>, i: int)
    requires
        cs.len() == ks.len() + 1,
        0 <= i < cs.len(),
    ensures
        flat_of(ks, cs) == head_of(ks, cs, i) + cs[i].flat() + tail_of(ks, cs, i),
{
    let p = pieces_of(ks, cs);
    let a = p.subrange(0, i);
    let b = p.subrange(i, i + 1);
    let c = p.subrange(i + 1, cs.len() as int);
    assert(p =~= a + b + c);
    lemma_flatten_concat(a + b, c);
    lemma_flatten_concat(a, b);
    b.lemma_flatten_one_element();
    if i < ks.len() {
        assert(b.first() =~= cs[i].flat() + seq![ks[i]]);
        assert(flat_of(ks, cs) =~= a.flatten() + cs[i].flat() + (seq![ks[i]] + c.flatten()));
    } else {
        assert(c =~= Seq::<Seq<usize>>::empty());
        assert(flat_of(ks, cs) =~= a.flatten() + cs[i].flat() + Seq::<usize>::empty());
    }
}

} // verus!

verus! {

/// The keys of two nodes glued around a separating key: both leaves, or both internal.
pub(crate) proof fn lemma_flat_join(
    ks1: Seq<usize>,
    cs1: Seq<Node>,
    k: usize,
    ks2: Seq<usize>,
    cs2: Seq<Node>,
)
    requires
        (cs1.len() == 0 && cs2.len() == 0) || (cs1.len() == ks1.len() + 1 && cs2.len() == ks2.len()
            + 1),
    ensures
        flat_of(ks1 + seq![k] + ks2, cs1 + cs2) == flat_of(ks1, cs1) + seq![k] + flat_of(ks2, cs2),
{
    let ks = ks1 + seq![k] + ks2;
    let cs = cs1 + cs2;
    if cs1.len() == 0 {
        assert(cs =~= Seq::<Node>::empty());
    } else {
        let p = pieces_of(ks, cs);
        let p1 = pieces_of(ks1, cs1);
        let p2 = pieces_of(ks2, cs2);
        let n1 = cs1.len() as int;
        let last = cs1[n1 - 1].flat();
        assert(p1 =~= p1.drop_last().push(last));
        p1.drop_last().lemma_flatten_push(last);
        assert(p =~= p1.drop_last().push(last + seq![k]) + p2) by {
            assert forall|j: int| 0 <= j < p.len() implies p[j] == (p1.drop_last().push(
                last + seq![k],
            ) + p2)[j] by {
                if j < n1 - 1 {
                    assert(ks[j] == ks1[j]);
                } else if j == n1 - 1 {
                    assert(ks[j] == k);
                    assert(cs1[n1 - 1].flat().push(k) =~= last + seq![k]);
                } else {
                    assert(cs[j] == cs2[j - n1]);
                    assert(j < ks.len() ==> ks[j] == ks2[j - n1]);
                }
            }
        }
        lemma_flatten_concat(p1.drop_last().push(last + seq![k]), p2);
        p1.drop_last().lemma_flatten_push(last + seq![k]);
        assert(flat_of(ks, cs) =~= flat_of(ks1, cs1) + seq![k] + flat_of(ks2, cs2));
    }
}

/// Child `i` and what precedes it keep their keys when only later parts of the node change.
pub(crate) proof fn lemma_head_prefix(
    ks: Seq<usize>,
    cs: Seq<Node>,
    ks2: Seq<usize>,
    cs2: Seq<Node>,
    i: int,
)
    requires
        0 <= i <= ks.len(),
        i <= ks2.len(),
        i <= cs.len(),
        i <= cs2.len(),
        ks.subrange(0, i) == ks2.subrange(0, i),
        cs.subrange(0, i) == cs2.subrange(0, i),
    ensures
        head_of(ks, cs, i) == head_of(ks2, cs2, i),
{
    assert forall|j: int| 0 <= j < i implies ks[j] == ks2[j] by {
        assert(ks.subrange(0, i)[j] == ks[j]);
        assert(ks2.subrange(0, i)[j] == ks2[j]);
        assert(ks.subrange(0, i)[j] == ks2.subrange(0, i)[j]);
    }
    assert forall|j: int| 0 <= j < i implies cs[j] == cs2[j] by {
        assert(cs.subrange(0, i)[j] == cs[j]);
        assert(cs2.subrange(0, i)[j] == cs2[j]);
        assert(cs.subrange(0, i)[j] == cs2.subrange(0, i)[j]);
    }
    assert(pieces_of(ks, cs).subrange(0, i) =~= pieces_of(ks2, cs2).subrange(0, i));
}

/// Splicing a key `p` and a new child `r` right after child `i`.
pub(crate) proof fn lemma_tail_splice(ks: Seq<usize>, cs: Seq<Node>, i: int, c: Node, p: usize, r: Node)
    requires
        cs.len() == ks.len() + 1,
        0 <= i < cs.len(),
    ensures
        tail_of(ks.insert(i, p), cs.update(i, c).insert(i + 1, r), i) == seq![p] + r.flat()
            + tail_of(ks, cs, i),
{
    let ks2 = ks.insert(i, p);
    let cs2 = cs.update(i, c).insert(i + 1, r);
    let q = pieces_of(ks2, cs2).subrange(i + 1, cs2.len() as int);
    let rest = pieces_of(ks, cs).subrange(i + 1, cs.len() as int);
    let first = piece_of(ks2, cs2, i + 1);
    assert(q =~= seq![first] + rest) by {
        assert forall|j: int| 0 <= j < q.len() implies q[j] == (seq![first] + rest)[j] by {
            if j > 0 {
                assert(cs2[i + 1 + j] == cs[i + j]);
                assert(i + 1 + j < ks2.len() ==> ks2[i + 1 + j] == ks[i + j]);
            }
        }
    }
    lemma_flatten_concat(seq![first], rest);
    seq![first].lemma_flatten_one_element();
    if i < ks.len() {
        assert(ks2[i + 1] == ks[i]);
        assert(first =~= r.flat() + seq![ks[i]]);
        assert(tail_of(ks2, cs2, i) =~= seq![p] + r.flat() + tail_of(ks, cs, i));
    } else {
        assert(rest =~= Seq::<Seq<usize>>::empty());
        assert(first =~= r.flat());
        assert(tail_of(ks2, cs2, i) =~= seq![p] + r.flat() + tail_of(ks, cs, i));
    }
}

/// Replacing child `i` leaves what precedes and what follows it in place.
pub(crate) proof fn lemma_update_child(ks: Seq<usize>, cs: Seq<Node>, i: int, c: Node)
    requires
        cs.len() == ks.len() + 1,
        0 <= i < cs.len(),
    ensures
        flat_of(ks, cs.update(i, c)) == head_of(ks, cs, i) + c.flat() + tail_of(ks, cs, i),
        tail_of(ks, cs.update(i, c), i) == tail_of(ks, cs, i),
        head_of(ks, cs.update(i, c), i) == head_of(ks, cs, i),
{
    let cs2 = cs.update(i, c);
    lemma_decompose(ks, cs2, i);
    assert(cs2.subrange(0, i) =~= cs.subrange(0, i));
    lemma_head_prefix(ks, cs, ks, cs2, i);
    assert(pieces_of(ks, cs2).subrange(i + 1, cs.len() as int) =~= pieces_of(ks, cs).subrange(
        i + 1,
        cs.len() as int,
    ));
}

} // verus!

verus! {

impl Node {
    /// A tree that holds no key: a single empty leaf.
    pub fn new() -> (r: Node)
        ensures
            r.wf(),
            r@ == Set::<usize>::empty(),
            r.keys@.len() == 0,
            r.leaf(),
            r.spec_height() == 1,
    {
        let r = Node { keys: Vec::new(), children: Vec::new() };
        proof {
            assert(r@ =~= Set::<usize>::empty());
        }
        r
    }

    /// The same empty tree, on the heap.
    pub fn new_boxed() -> (r: Box<Node>)
        ensures
            r.wf(),
            r@ == Set::<usize>::empty(),
            r.keys@.len() == 0,
            r.leaf(),
            r.spec_height() == 1,
    {
        Box::new(Node::new())
    }
}

/// A flattening cut in three at positions `a` and `b`.
pub(crate) proof fn lemma_flatten3(p: Seq<Seq<usize>>, a: int, b: int)
    requires
        0 <= a <= b <= p.len(),
    ensures
        p.flatten() == p.subrange(0, a).flatten() + p.subrange(a, b).flatten() + p.subrange(
            b,
            p.len() as int,
        ).flatten(),
{
    let x = p.subrange(0, a);
    let y = p.subrange(a, b);
    let z = p.subrange(b, p.len() as int);
    assert(p =~= x + y + z);
    lemma_flatten_concat(x + y, z);
    lemma_flatten_concat(x, y);
}

/// Children `j` and `j + 1` and the key between them replaced by `a`, `x` and `b` that hold
/// the same keys in the same order.
pub(crate) proof fn lemma_replace_pair(ks: Seq<usize>, cs: Seq<Node>, j: int, a: Node, x: usize, b: Node)
    requires
        cs.len() == ks.len() + 1,
        0 <= j,
        j + 1 < cs.len(),
        a.flat() + seq![x] + b.flat() == cs[j].flat() + seq![ks[j]] + cs[j + 1].flat(),
    ensures
        flat_of(ks.update(j, x), cs.update(j, a).update(j + 1, b)) == flat_of(ks, cs),
{
    let ks2 = ks.update(j, x);
    let cs2 = cs.update(j, a).update(j + 1, b);
    let p = pieces_of(ks, cs);
    let p2 = pieces_of(ks2, cs2);
    lemma_flatten3(p, j, j + 2);
    lemma_flatten3(p2, j, j + 2);
    assert(p2.subrange(0, j) =~= p.subrange(0, j));
    assert(p2.subrange(j + 2, p2.len() as int) =~= p.subrange(j + 2, p.len() as int));
    reveal_with_fuel(Seq::flatten, 3);
    assert(p.subrange(j, j + 2).flatten() =~= p[j] + p[j + 1]);
    assert(p2.subrange(j, j + 2).flatten() =~= p2[j] + p2[j + 1]);
    if j + 1 < ks.len() {
        assert(p2[j] + p2[j + 1] =~= a.flat() + seq![x] + b.flat() + seq![ks[j + 1]]);
        assert(p[j] + p[j + 1] =~= cs[j].flat() + seq![ks[j]] + cs[j + 1].flat() + seq![ks[j + 1]]);
    } else {
        assert(p2[j] + p2[j + 1] =~= a.flat() + seq![x] + b.flat());
        assert(p[j] + p[j + 1] =~= cs[j].flat() + seq![ks[j]] + cs[j + 1].flat());
    }
    assert(flat_of(ks2, cs2) =~= flat_of(ks, cs));
}

/// Children `j` and `j + 1` and the key between them replaced by one node `m` that holds the
/// same keys in the same order.
pub(crate) proof fn lemma_merge_pair(ks: Seq<usize>, cs: Seq<Node>, j: int, m: Node)
    requires
        cs.len() == ks.len() + 1,
        0 <= j,
        j + 1 < cs.len(),
        m.flat() == cs[j].flat() + seq![ks[j]] + cs[j + 1].flat(),
    ensures
        flat_of(ks.remove(j), cs.remove(j + 1).update(j, m)) == flat_of(ks, cs),
{
    let ks2 = ks.remove(j);
    let cs2 = cs.remove(j + 1).update(j, m);
    let p = pieces_of(ks, cs);
    let p2 = pieces_of(ks2, cs2);
    lemma_flatten3(p, j, j + 2);
    lemma_flatten3(p2, j, j + 1);
    assert(p2.subrange(0, j) =~= p.subrange(0, j));
    assert(p2.subrange(j + 1, p2.len() as int) =~= p.subrange(j + 2, p.len() as int)) by {
        assert forall|t: int| 0 <= t < p2.len() - j - 1 implies #[trigger] p2.subrange(
            j + 1,
            p2.len() as int,
        )[t] == p.subrange(j + 2, p.len() as int)[t] by {
            assert(cs2[j + 1 + t] == cs[j + 2 + t]);
            assert(j + 1 + t < ks2.len() ==> ks2[j + 1 + t] == ks[j + 2 + t]);
        }
    }
    reveal_with_fuel(Seq::flatten, 3);
    assert(p.subrange(j, j + 2).flatten() =~= p[j] + p[j + 1]);
    assert(p2.subrange(j, j + 1).flatten() =~= p2[j]);
    if j + 1 < ks.len() {
        assert(ks2[j] == ks[j + 1]);
        assert(p2[j] =~= m.flat() + seq![ks[j + 1]]);
        assert(p[j] + p[j + 1] =~= cs[j].flat() + seq![ks[j]] + cs[j + 1].flat() + seq![ks[j + 1]]);
    } else {
        assert(p2[j] =~= m.flat());
        assert(p[j] + p[j + 1] =~= cs[j].flat() + seq![ks[j]] + cs[j + 1].flat());
    }
    assert(flat_of(ks2, cs2) =~= flat_of(ks, cs));
}

/// Key `i` of a node replaced by `y`.
pub(crate) proof fn lemma_update_key(ks: Seq<usize>, cs: Seq<Node>, i: int, y: usize)
    requires
        cs.len() == ks.len() + 1,
        0 <= i < ks.len(),
    ensures
        head_of(ks.update(i, y), cs, i) == head_of(ks, cs, i),
        tail_of(ks, cs, i) == seq![ks[i]] + tail_of(ks, cs, i).drop_first(),
        tail_of(ks.update(i, y), cs, i) == seq![y] + tail_of(ks, cs, i).drop_first(),
        head_of(ks, cs, i + 1) == head_of(ks, cs, i + 1).drop_last().push(ks[i]),
        head_of(ks.update(i, y), cs, i + 1) == head_of(ks, cs, i + 1).drop_last().push(y),
        tail_of(ks.update(i, y), cs, i + 1) == tail_of(ks, cs, i + 1),
{
    let ks2 = ks.update(i, y);
    let p = pieces_of(ks, cs);
    let p2 = pieces_of(ks2, cs);
    assert(p2.subrange(0, i) =~= p.subrange(0, i));
    assert(p2.subrange(i + 1, cs.len() as int) =~= p.subrange(i + 1, cs.len() as int));
    assert(p2.subrange(i + 2, cs.len() as int) =~= p.subrange(i + 2, cs.len() as int));
    assert(tail_of(ks, cs, i).drop_first() =~= p.subrange(i + 1, cs.len() as int).flatten());
    assert(tail_of(ks, cs, i) =~= seq![ks[i]] + tail_of(ks, cs, i).drop_first());
    assert(tail_of(ks2, cs, i) =~= seq![y] + tail_of(ks, cs, i).drop_first());
    assert(p.subrange(0, i + 1) =~= p.subrange(0, i).push(p[i]));
    assert(p2.subrange(0, i + 1) =~= p.subrange(0, i).push(p2[i]));
    p.subrange(0, i).lemma_flatten_push(p[i]);
    p.subrange(0, i).lemma_flatten_push(p2[i]);
    let f = cs[i].flat();
    assert(p[i] == f.push(ks[i]));
    assert(p2[i] == f.push(y));
    assert(head_of(ks, cs, i + 1) =~= (p.subrange(0, i).flatten() + f).push(ks[i]));
    assert(head_of(ks2, cs, i + 1) =~= (p.subrange(0, i).flatten() + f).push(y));
    assert(head_of(ks, cs, i + 1).drop_last() =~= p.subrange(0, i).flatten() + f);
}

/// The keys of an internal node begin with those of its first child and end with those of its
/// last one.
pub(crate) proof fn lemma_flat_ends(ks: Seq<usize>, cs: Seq<Node>)
    requires
        cs.len() == ks.len() + 1,
    ensures
        flat_of(ks, cs) == cs[0].flat() + tail_of(ks, cs, 0),
        flat_of(ks, cs) == head_of(ks, cs, ks.len() as int) + cs[ks.len() as int].flat(),
{
    lemma_decompose(ks, cs, 0);
    assert(head_of(ks, cs, 0) =~= Seq::<usize>::empty());
    lemma_decompose(ks, cs, ks.len() as int);
    assert(tail_of(ks, cs, ks.len() as int) =~= Seq::<usize>::empty());
    assert(flat_of(ks, cs) =~= cs[0].flat() + tail_of(ks, cs, 0));
    assert(flat_of(ks, cs) =~= head_of(ks, cs, ks.len() as int) + cs[ks.len() as int].flat());
}

} // verus!
