use vstd::prelude::*;

use crate::model::Tree;
use crate::node::Node;
use crate::shape::lemma_height_bound;

verus! {

/// The decimal digit for `d`, where `d < 10`.
pub open spec fn digit_char(d: int) -> char {
    if d == 0 {
        '0'
    } else if d == 1 {
        '1'
    } else if d == 2 {
        '2'
    } else if d == 3 {
        '3'
    } else if d == 4 {
        '4'
    } else if d == 5 {
        '5'
    } else if d == 6 {
        '6'
    } else if d == 7 {
        '7'
    } else if d == 8 {
        '8'
    } else {
        '9'
    }
}

/// `n` written in decimal.
pub open spec fn decimal(n: nat) -> Seq<char>
    decreases n,
{
    if n < 10 {
        seq![digit_char(n as int)]
    } else {
        decimal(n / 10).push(digit_char((n % 10) as int))
    }
}

/// `level` spaces.
pub open spec fn spaces(level: nat) -> Seq<char>
    decreases level,
{
    if level == 0 {
        Seq::empty()
    } else {
        spaces((level - 1) as nat).push(' ')
    }
}

/// The keys written in decimal, separated by a comma and a space.
pub open spec fn keys_text(ks: Seq<usize>) -> Seq<char>
    decreases ks.len(),
{
    if ks.len() == 0 {
        Seq::empty()
    } else if ks.len() == 1 {
        decimal(ks[0] as nat)
    } else {
        keys_text(ks.drop_last()) + seq![',', ' '] + decimal(ks.last() as nat)
    }
}

/// A leaf: its keys in brackets, then a comma. The first leaf of the whole text starts on a
/// line of its own.
pub open spec fn leaf_text(ks: Seq<usize>, level: nat, first: bool) -> Seq<char> {
    (if first {
        seq!['\n']
    } else {
        Seq::empty()
    }) + spaces(level) + seq!['['] + keys_text(ks) + seq![']', ',', '\n']
}

impl Node {
    /// The rendering of the subtree at nesting depth `level`, indented by one space per level.
    /// `first` holds while no leaf has been written yet (the nodes down the leftmost path);
    /// `last` holds for the nodes down the rightmost path. A node closes with a bare brace where
    /// it is the root or its last child is the rightmost leaf of the tree; any other node closes
    /// with a brace, a comma and a line break.
    pub open spec fn text(self, level: nat, first: bool, last: bool) -> Seq<char>
        decreases self, 1int, 0int,
    {
        if self.children@.len() == 0 {
            leaf_text(self.keys@, level, first)
        } else {
            let n = self.keys@.len();
            let open = if first {
                seq!['{']
            } else {
                spaces(level) + seq!['{', '\n']
            };
            let close = if (last && n < self.children@.len() && self.children@[n as int].leaf())
                || level == 0 {
                seq!['}']
            } else {
                seq!['}', ',', '\n']
            };
            let tail = if n < self.children@.len() {
                self.children@[n as int].text(level + 1, first && n == 0, last)
            } else {
                Seq::empty()
            };
            open + self.children_text(n as int, level, first) + tail + spaces(level) + close
        }
    }

    /// The first `j` children of an internal node, each followed by the key after it.
    pub open spec fn children_text(self, j: int, level: nat, first: bool) -> Seq<char>
        decreases self, 0int, j,
    {
        if 0 < j && j <= self.children@.len() && j <= self.keys@.len() {
            self.children_text(j - 1, level, first) + self.children@[j - 1].text(
                level + 1,
                first && j - 1 == 0,
                false,
            ) + spaces(level) + decimal(self.keys@[j - 1] as nat) + seq![',', '\n']
        } else {
            Seq::empty()
        }
    }
}

/// The rendering of a tree in its mathematical form; `Node::text` is this on the form of a node.
pub open spec fn tree_text(t: Tree, level: nat, first: bool, last: bool) -> Seq<char>
    decreases t, 1int, 0int,
{
    if t.children.len() == 0 {
        leaf_text(t.keys, level, first)
    } else {
        let n = t.keys.len();
        let open = if first {
            seq!['{']
        } else {
            spaces(level) + seq!['{', '\n']
        };
        let tail = if n < t.children.len() {
            tree_text(t.children[n as int], level + 1, first && n == 0, last)
        } else {
            Seq::empty()
        };
        let close = if (last && n < t.children.len() && t.children[n as int].children.len() == 0)
            || level == 0 {
            seq!['}']
        } else {
            seq!['}', ',', '\n']
        };
        open + tree_children_text(t, n as int, level, first) + tail + spaces(level) + close
    }
}

/// The first `j` children of an internal node in mathematical form, each followed by the key
/// after it.
pub open spec fn tree_children_text(t: Tree, j: int, level: nat, first: bool) -> Seq<char>
    decreases t, 0int, j,
{
    if 0 < j && j <= t.children.len() && j <= t.keys.len() {
        tree_children_text(t, j - 1, level, first) + tree_text(
            t.children[j - 1],
            level + 1,
            first && j - 1 == 0,
            false,
        ) + spaces(level) + decimal(t.keys[j - 1] as nat) + seq![',', '\n']
    } else {
        Seq::empty()
    }
}

/// A node renders as its mathematical form does.
pub(crate) proof fn lemma_text_model(n: Node, level: nat, first: bool, last: bool)
    ensures
        n.text(level, first, last) == tree_text(n.model(), level, first, last),
    decreases n, 1int, 0int,
{
    let k = n.keys@.len();
    lemma_children_text_model(n, k as int, level, first);
    if n.children@.len() > 0 && k < n.children@.len() {
        assert(n.model().children[k as int] == n.children@[k as int].model());
        lemma_text_model(n.children@[k as int], level + 1, first && k == 0, last);
    }
}

/// The first `j` children of a node render as those of its mathematical form do.
pub(crate) proof fn lemma_children_text_model(n: Node, j: int, level: nat, first: bool)
    ensures
        n.children_text(j, level, first) == tree_children_text(n.model(), j, level, first),
    decreases n, 0int, j,
{
    if 0 < j && j <= n.children@.len() && j <= n.keys@.len() {
        lemma_children_text_model(n, j - 1, level, first);
        assert(n.model().children[j - 1] == n.children@[j - 1].model());
        lemma_text_model(n.children@[j - 1], level + 1, first && j - 1 == 0, false);
    }
}

/// The rendering of an internal node, piece by piece.
pub(crate) proof fn lemma_text_internal(n: Node, level: nat, first: bool, last: bool)
    requires
        n.children@.len() == n.keys@.len() + 1,
    ensures
        n.text(level, first, last) == (if first {
            seq!['{']
        } else {
            spaces(level) + seq!['{', '\n']
        }) + n.children_text(n.keys@.len() as int, level, first) + n.children@[n.keys@.len() as int].text(
            level + 1,
            first && n.keys@.len() == 0,
            last,
        ) + spaces(level) + (if (last && n.children@[n.keys@.len() as int].leaf()) || level == 0 {
            seq!['}']
        } else {
            seq!['}', ',', '\n']
        }),
{
}

/// Writes the decimal digit for `d`.
fn push_digit(out: &mut String, d: usize)
    requires
        d < 10,
    ensures
        final(out)@ == old(out)@.push(digit_char(d as int)),
{
    let s = if d == 0 {
        "0"
    } else if d == 1 {
        "1"
    } else if d == 2 {
        "2"
    } else if d == 3 {
        "3"
    } else if d == 4 {
        "4"
    } else if d == 5 {
        "5"
    } else if d == 6 {
        "6"
    } else if d == 7 {
        "7"
    } else if d == 8 {
        "8"
    } else {
        "9"
    };
    proof {
        reveal_strlit("0");
        reveal_strlit("1");
        reveal_strlit("2");
        reveal_strlit("3");
        reveal_strlit("4");
        reveal_strlit("5");
        reveal_strlit("6");
        reveal_strlit("7");
        reveal_strlit("8");
        reveal_strlit("9");
    }
    out.append(s);
    proof {
        assert(final(out)@ =~= old(out)@.push(digit_char(d as int)));
    }
}

/// Writes `n` in decimal.
fn push_decimal(out: &mut String, n: usize)
    ensures
        final(out)@ == old(out)@ + decimal(n as nat),
    decreases n,
{
    let ghost start = out@;
    if n >= 10 {
        push_decimal(out, n / 10);
    }
    push_digit(out, n % 10);
    proof {
        if n >= 10 {
            assert(out@ =~= start + decimal(n as nat));
        } else {
            assert(out@ =~= start + decimal(n as nat));
        }
    }
}

/// Writes `level` spaces.
fn push_spaces(out: &mut String, level: usize)
    ensures
        final(out)@ == old(out)@ + spaces(level as nat),
{
    let ghost start = out@;
    let mut i: usize = 0;
    proof {
        reveal_strlit(" ");
        assert(out@ =~= start + spaces(0));
    }
    while i < level
        invariant
            i <= level,
            out@ == start + spaces(i as nat),
        decreases level - i,
    {
        proof {
            reveal_strlit(" ");
        }
        out.append(" ");
        i += 1;
        proof {
            assert(out@ =~= start + spaces(i as nat));
        }
    }
}

/// Writes what opens an internal node: a bare brace while no leaf has been written, else an
/// indented brace on a line of its own.
fn push_open(out: &mut String, level: usize, first: bool)
    ensures
        final(out)@ == old(out)@ + (if first {
            seq!['{']
        } else {
            spaces(level as nat) + seq!['{', '\n']
        }),
{
    let ghost start = out@;
    proof {
        reveal_strlit("{");
        reveal_strlit("{\n");
    }
    if first {
        out.append("{");
    } else {
        push_spaces(out, level);
        out.append("{\n");
    }
    proof {
        assert(out@ =~= start + (if first {
            seq!['{']
        } else {
            spaces(level as nat) + seq!['{', '\n']
        }));
    }
}

/// Writes what closes an internal node: a bare brace, or a brace, a comma and a line break.
fn push_close(out: &mut String, bare: bool)
    ensures
        final(out)@ == old(out)@ + (if bare {
            seq!['}']
        } else {
            seq!['}', ',', '\n']
        }),
{
    proof {
        reveal_strlit("}");
        reveal_strlit("},\n");
    }
    if bare {
        out.append("}");
    } else {
        out.append("},\n");
    }
}

impl Node {
    /// Writes the rendering of this node as a leaf (see `leaf_text`).
    fn fmt_leaf(&self, out: &mut String, level: usize, first: bool)
        ensures
            final(out)@ == old(out)@ + leaf_text(self.keys@, level as nat, first),
    {
        let ghost start = out@;
        proof {
            reveal_strlit("\n");
            reveal_strlit("[");
            reveal_strlit("],\n");
        }
        if first {
            out.append("\n");
        }
        push_spaces(out, level);
        out.append("[");
        let ghost lead = out@;
        let mut i: usize = 0;
        proof {
            assert(self.keys@.subrange(0, 0) =~= Seq::<usize>::empty());
            assert(out@ =~= lead + keys_text(self.keys@.subrange(0, 0)));
        }
        while i < self.keys.len()
            invariant
                i <= self.keys@.len(),
                out@ == lead + keys_text(self.keys@.subrange(0, i as int)),
            decreases self.keys@.len() - i,
        {
            let ghost before = out@;
            proof {
                reveal_strlit(", ");
            }
            if i > 0 {
                out.append(", ");
            }
            push_decimal(out, self.keys[i]);
            proof {
                let ks = self.keys@.subrange(0, i + 1);
                assert(ks.drop_last() =~= self.keys@.subrange(0, i as int));
                assert(ks.last() == self.keys@[i as int]);
                if i > 0 {
                    assert(out@ =~= before + seq![',', ' '] + decimal(self.keys@[i as int] as nat));
                } else {
                    assert(out@ =~= before + decimal(self.keys@[i as int] as nat));
                }
                assert(out@ =~= lead + keys_text(ks));
            }
            i += 1;
        }
        out.append("],\n");
        proof {
            assert(self.keys@.subrange(0, self.keys@.len() as int) =~= self.keys@);
            assert(out@ =~= start + leaf_text(self.keys@, level as nat, first));
        }
    }

    /// Writes the first children of an internal node with the keys after them (see
    /// `children_text`), up to the last child, which is left out.
    fn fmt_children(
        &self,
        out: &mut String,
        level: usize,
        first: bool,
        Ghost(g): Ghost<nat>,
        Ghost(root): Ghost<bool>,
    )
        requires
            self.shaped(g, root),
            g > 1,
            level + g <= usize::MAX,
        ensures
            final(out)@ == old(out)@ + self.children_text(self.keys@.len() as int, level as nat, first),
        decreases g, 0int,
    {
        let n = self.keys.len();
        let ghost lead = out@;
        let mut j: usize = 0;
        while j < n
            invariant
                self.shaped(g, root),
                level + g <= usize::MAX,
                g > 1,
                n == self.keys@.len(),
                self.children@.len() == n + 1,
                j <= n,
                out@ == lead + self.children_text(j as int, level as nat, first),
            decreases n - j,
        {
            let ghost before = out@;
            proof {
                reveal_strlit(",\n");
            }
            assert(self.children@[j as int].shaped((g - 1) as nat, false));
            self.children[j].fmt_internal(out, level + 1, first && j == 0, false, Ghost((g - 1) as nat), Ghost(false));
            push_spaces(out, level);
            push_decimal(out, self.keys[j]);
            out.append(",\n");
            proof {
                assert(out@ =~= before + self.children@[j as int].text(
                    (level + 1) as nat,
                    first && j == 0,
                    false,
                ) + spaces(level as nat) + decimal(self.keys@[j as int] as nat) + seq![',', '\n']);
                assert(out@ =~= lead + self.children_text(j + 1, level as nat, first));
            }
            j += 1;
        }
    }

    /// Writes the rendering of this subtree (see `text`).
    #[verifier::rlimit(50)]
    fn fmt_internal(
        &self,
        out: &mut String,
        level: usize,
        first: bool,
        last: bool,
        Ghost(g): Ghost<nat>,
        Ghost(root): Ghost<bool>,
    )
        requires
            self.shaped(g, root),
            level + g <= usize::MAX,
        ensures
            final(out)@ == old(out)@ + self.text(level as nat, first, last),
        decreases g, 1int,
    {
        let ghost start = out@;
        if self.children.len() == 0 {
            self.fmt_leaf(out, level, first);
            return;
        }
        push_open(out, level, first);
        let n = self.keys.len();
        self.fmt_children(out, level, first, Ghost(g), Ghost(root));
        assert(self.children@[n as int].shaped((g - 1) as nat, false));
        self.children[n].fmt_internal(out, level + 1, first && n == 0, last, Ghost((g - 1) as nat), Ghost(false));
        push_spaces(out, level);
        push_close(out, (last && self.children[n].children.len() == 0) || level == 0);
        proof {
            lemma_text_internal(*self, level as nat, first, last);
            assert(out@ =~= start + self.text(level as nat, first, last));
        }
    }

    /// The nested-bracket rendering of the tree, used to observe its shape.
    pub fn render(&self) -> (r: String)
        requires
            self.wf(),
        ensures
            r@ == self.text(0, true, true),
            r@ == tree_text(self.model(), 0, true, true),
    {
        proof {
            lemma_height_bound(*self);
        }
        let mut out = String::new();
        self.fmt_internal(&mut out, 0, true, true, Ghost(self.spec_height()), Ghost(true));
        proof {
            assert(out@ =~= self.text(0, true, true));
            lemma_text_model(*self, 0, true, true);
        }
        out
    }
}

} // verus!
