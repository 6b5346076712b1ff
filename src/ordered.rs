use vstd::prelude::*;

use crate::node::sorted;

verus! {

/// A sorted sequence cut in three: the middle is sorted and lies strictly between the
/// neighbouring elements.
pub(crate) proof fn lemma_sorted_middle(a: Seq<usize>, b: Seq<usize>, c: Seq<usize>)
    requires
        sorted(a + b + c),
    ensures
        sorted(b),
        sorted(a),
        sorted(c),
        forall|j: int| 0 <= j < b.len() && a.len() > 0 ==> a.last() < #[trigger] b[j],
        forall|j: int| 0 <= j < b.len() && c.len() > 0 ==> #[trigger] b[j] < c[0],
        forall|j: int| 0 <= j < a.len() && b.len() > 0 ==> #[trigger] a[j] < b[0],
        forall|j: int| 0 <= j < c.len() && b.len() > 0 ==> b.last() < #[trigger] c[j],
{
    let s = a + b + c;
    assert forall|i: int, j: int| 0 <= i < j < b.len() implies b[i] < b[j] by {
        assert(s[a.len() + i] == b[i] && s[a.len() + j] == b[j]);
    }
    assert forall|i: int, j: int| 0 <= i < j < a.len() implies a[i] < a[j] by {
        assert(s[i] == a[i] && s[j] == a[j]);
    }
    assert forall|i: int, j: int| 0 <= i < j < c.len() implies c[i] < c[j] by {
        assert(s[a.len() + b.len() + i] == c[i] && s[a.len() + b.len() + j] == c[j]);
    }
    assert forall|j: int| 0 <= j < b.len() && a.len() > 0 implies a.last() < #[trigger] b[j] by {
        assert(s[a.len() - 1] == a.last() && s[a.len() + j] == b[j]);
    }
    assert forall|j: int| 0 <= j < b.len() && c.len() > 0 implies #[trigger] b[j] < c[0] by {
        assert(s[(a.len() + b.len()) as int] == c[0] && s[a.len() + j] == b[j]);
    }
    assert forall|j: int| 0 <= j < a.len() && b.len() > 0 implies #[trigger] a[j] < b[0] by {
        assert(s[a.len() as int] == b[0] && s[j] == a[j]);
    }
    assert forall|j: int| 0 <= j < c.len() && b.len() > 0 implies b.last() < #[trigger] c[j] by {
        assert(s[a.len() + b.len() - 1] == b.last() && s[a.len() + b.len() + j] == c[j]);
    }
}

/// In a sorted sequence cut in three, a value strictly between the neighbours of the middle
/// occurs in the whole exactly when it occurs in the middle.
pub(crate) proof fn lemma_sorted_locate(a: Seq<usize>, b: Seq<usize>, c: Seq<usize>, x: usize)
    requires
        sorted(a + b + c),
        a.len() > 0 ==> a.last() < x,
        c.len() > 0 ==> x < c[0],
    ensures
        (a + b + c).contains(x) <==> b.contains(x),
{
    let s = a + b + c;
    lemma_sorted_middle(a, b, c);
    if s.contains(x) {
        let k = choose|k: int| 0 <= k < s.len() && s[k] == x;
        if k < a.len() {
            assert(s[k] <= s[a.len() - 1]);
            assert(s[a.len() - 1] == a.last());
        } else if k >= a.len() + b.len() {
            assert(s[(a.len() + b.len()) as int] <= s[k]);
            assert(s[(a.len() + b.len()) as int] == c[0]);
        } else {
            assert(b[k - a.len()] == x);
        }
    }
    if b.contains(x) {
        let k = choose|k: int| 0 <= k < b.len() && b[k] == x;
        assert(s[a.len() + k] == x);
    }
}

/// Gluing sorted sequences whose boundaries are in order gives a sorted sequence.
pub(crate) proof fn lemma_sorted_concat(a: Seq<usize>, b: Seq<usize>)
    requires
        sorted(a),
        sorted(b),
        a.len() > 0 && b.len() > 0 ==> a.last() < b[0],
    ensures
        sorted(a + b),
{
    let s = a + b;
    assert forall|i: int, j: int| 0 <= i < j < s.len() implies s[i] < s[j] by {
        if j < a.len() {
        } else if i >= a.len() {
            assert(s[i] == b[i - a.len()] && s[j] == b[j - a.len()]);
        } else {
            assert(a[i] <= a.last());
            assert(b[0] <= b[j - a.len()]);
        }
    }
}

/// Replacing the middle of a sorted sequence by a sorted sequence that lies within the same
/// bounds keeps the whole sorted.
pub(crate) proof fn lemma_sorted_replace(a: Seq<usize>, b: Seq<usize>, c: Seq<usize>, b2: Seq<usize>)
    requires
        sorted(a + b + c),
        b.len() > 0,
        sorted(b2),
        forall|j: int| 0 <= j < b2.len() && a.len() > 0 ==> a.last() < #[trigger] b2[j],
        forall|j: int| 0 <= j < b2.len() && c.len() > 0 ==> #[trigger] b2[j] < c[0],
    ensures
        sorted(a + b2 + c),
{
    lemma_sorted_middle(a, b, c);
    lemma_sorted_concat(a, b2);
    if a.len() > 0 && c.len() > 0 {
        assert(a.last() < b[0]);
    }
    if b2.len() > 0 {
        assert((a + b2).last() == b2.last());
    } else {
        assert(a + b2 =~= a);
    }
    lemma_sorted_concat(a + b2, c);
}

/// Inserting a value at the place where it keeps the order.
pub(crate) proof fn lemma_sorted_insert(s: Seq<usize>, i: int, x: usize)
    requires
        sorted(s),
        0 <= i <= s.len(),
        forall|j: int| 0 <= j < i ==> s[j] < x,
        i < s.len() ==> x < s[i],
    ensures
        sorted(s.insert(i, x)),
        s.insert(i, x).to_set() == s.to_set().insert(x),
{
    let t = s.insert(i, x);
    assert forall|a: int, b: int| 0 <= a < b < t.len() implies t[a] < t[b] by {
        if b < i {
        } else if a > i {
            assert(t[a] == s[a - 1] && t[b] == s[b - 1]);
        } else if a == i {
            assert(t[b] == s[b - 1]);
            assert(s[i] <= s[b - 1]);
        } else if b == i {
        } else {
            assert(t[b] == s[b - 1]);
            assert(s[a] < x);
        }
    }
    assert forall|y: usize| t.contains(y) <==> s.to_set().insert(x).contains(y) by {
        if t.contains(y) {
            let k = choose|k: int| 0 <= k < t.len() && t[k] == y;
            if k < i {
                assert(s[k] == y);
            } else if k > i {
                assert(s[k - 1] == y);
            }
        }
        if s.contains(y) {
            let k = choose|k: int| 0 <= k < s.len() && s[k] == y;
            if k < i {
                assert(t[k] == y);
            } else {
                assert(t[k + 1] == y);
            }
        }
        if y == x {
            assert(t[i] == x);
        }
    }
    assert(t.to_set() =~= s.to_set().insert(x));
}

/// The values of two glued sequences.
pub(crate) proof fn lemma_concat_to_set(a: Seq<usize>, b: Seq<usize>)
    ensures
        (a + b).to_set() == a.to_set().union(b.to_set()),
{
    let s = a + b;
    assert forall|y: usize| s.contains(y) <==> a.contains(y) || b.contains(y) by {
        if s.contains(y) {
            let k = choose|k: int| 0 <= k < s.len() && s[k] == y;
            if k < a.len() {
                assert(a[k] == y);
            } else {
                assert(b[k - a.len()] == y);
            }
        }
        if a.contains(y) {
            let k = choose|k: int| 0 <= k < a.len() && a[k] == y;
            assert(s[k] == y);
        }
        if b.contains(y) {
            let k = choose|k: int| 0 <= k < b.len() && b[k] == y;
            assert(s[a.len() + k] == y);
        }
    }
    assert(s.to_set() =~= a.to_set().union(b.to_set()));
}

/// The values of three glued sequences.
pub(crate) proof fn lemma_concat3_to_set(a: Seq<usize>, b: Seq<usize>, c: Seq<usize>)
    ensures
        (a + b + c).to_set() == a.to_set().union(b.to_set()).union(c.to_set()),
{
    lemma_concat_to_set(a, b);
    lemma_concat_to_set(a + b, c);
}

/// A value added to the middle of a sorted sequence, between its neighbours there.
pub(crate) proof fn lemma_add_in_middle(
    a: Seq<usize>,
    b: Seq<usize>,
    c: Seq<usize>,
    b2: Seq<usize>,
    x: usize,
)
    requires
        sorted(a + b + c),
        b.len() > 0,
        sorted(b2),
        b2.to_set() == b.to_set().insert(x),
        a.len() > 0 ==> a.last() < x,
        c.len() > 0 ==> x < c[0],
    ensures
        sorted(a + b2 + c),
        (a + b2 + c).to_set() == (a + b + c).to_set().insert(x),
{
    lemma_sorted_middle(a, b, c);
    lemma_concat3_to_set(a, b, c);
    lemma_concat3_to_set(a, b2, c);
    assert forall|j: int| 0 <= j < b2.len() implies (a.len() > 0 ==> a.last() < #[trigger] b2[j])
        && (c.len() > 0 ==> b2[j] < c[0]) by {
        assert(b2.to_set().contains(b2[j]));
        if b2[j] != x {
            assert(b.to_set().contains(b2[j]));
            let k = choose|k: int| 0 <= k < b.len() && b[k] == b2[j];
            assert(b[k] == b2[j]);
        }
    }
    lemma_sorted_replace(a, b, c, b2);
    assert((a + b2 + c).to_set() =~= (a + b + c).to_set().insert(x));
}

/// Removing one element of a sorted sequence.
pub(crate) proof fn lemma_sorted_remove(s: Seq<usize>, i: int)
    requires
        sorted(s),
        0 <= i < s.len(),
    ensures
        sorted(s.remove(i)),
        s.remove(i).to_set() == s.to_set().remove(s[i]),
{
    let t = s.remove(i);
    assert forall|a: int, b: int| 0 <= a < b < t.len() implies t[a] < t[b] by {
        if b < i {
        } else if a >= i {
            assert(t[a] == s[a + 1] && t[b] == s[b + 1]);
        } else {
            assert(t[b] == s[b + 1]);
        }
    }
    assert forall|y: usize| t.contains(y) <==> s.to_set().remove(s[i]).contains(y) by {
        if t.contains(y) {
            let k = choose|k: int| 0 <= k < t.len() && t[k] == y;
            if k < i {
                assert(s[k] == y);
            } else {
                assert(s[k + 1] == y);
            }
        }
        if s.contains(y) && y != s[i] {
            let k = choose|k: int| 0 <= k < s.len() && s[k] == y;
            if k < i {
                assert(t[k] == y);
            } else {
                assert(t[k - 1] == y);
            }
        }
    }
    assert(t.to_set() =~= s.to_set().remove(s[i]));
}

/// A value taken from the middle of a sorted sequence, where it lies between the
/// neighbours of the middle.
pub(crate) proof fn lemma_remove_in_middle(
    a: Seq<usize>,
    b: Seq<usize>,
    c: Seq<usize>,
    b2: Seq<usize>,
    x: usize,
)
    requires
        sorted(a + b + c),
        b.len() > 0,
        sorted(b2),
        b2.to_set() == b.to_set().remove(x),
        a.len() > 0 ==> a.last() < x,
        c.len() > 0 ==> x < c[0],
    ensures
        sorted(a + b2 + c),
        (a + b2 + c).to_set() == (a + b + c).to_set().remove(x),
{
    lemma_sorted_middle(a, b, c);
    lemma_concat3_to_set(a, b, c);
    lemma_concat3_to_set(a, b2, c);
    assert forall|j: int| 0 <= j < b2.len() implies (a.len() > 0 ==> a.last() < #[trigger] b2[j])
        && (c.len() > 0 ==> b2[j] < c[0]) by {
        assert(b2.to_set().contains(b2[j]));
        assert(b.to_set().contains(b2[j]));
        let k = choose|k: int| 0 <= k < b.len() && b[k] == b2[j];
        assert(b[k] == b2[j]);
    }
    lemma_sorted_replace(a, b, c, b2);
    assert forall|j: int| 0 <= j < a.len() implies a[j] != x by {
        assert(a[j] <= a.last());
    }
    assert forall|j: int| 0 <= j < c.len() implies c[j] != x by {
        assert(c[0] <= c[j]);
    }
    assert((a + b2 + c).to_set() =~= (a + b + c).to_set().remove(x));
}

/// A separator `k` replaced by the largest value `y` of the part before it, which leaves that
/// part: the separator is gone and all stays sorted.
pub(crate) proof fn lemma_swap_pred(
    a: Seq<usize>,
    c: Seq<usize>,
    k: usize,
    r: Seq<usize>,
    c2: Seq<usize>,
    y: usize,
)
    requires
        sorted(a + c + (seq![k] + r)),
        c.len() > 0,
        y == c.last(),
        sorted(c2),
        c2.to_set() == c.to_set().remove(y),
    ensures
        sorted(a + c2 + (seq![y] + r)),
        (a + c2 + (seq![y] + r)).to_set() == (a + c + (seq![k] + r)).to_set().remove(k),
{
    let whole = a + c + (seq![k] + r);
    assert(whole =~= a + (c + seq![k]) + r);
    lemma_sorted_middle(a, c + seq![k], r);
    lemma_sorted_middle(a, c, seq![k] + r);
    let m = c2 + seq![y];
    lemma_concat_to_set(c2, seq![y]);
    assert(sorted(m)) by {
        assert forall|j: int| 0 <= j < c2.len() implies #[trigger] c2[j] < y by {
            assert(c2.to_set().contains(c2[j]));
            let q = choose|q: int| 0 <= q < c.len() && c[q] == c2[j];
            assert(c[q] <= c[c.len() - 1]);
        }
        lemma_sorted_concat(c2, seq![y]);
    }
    assert(m.to_set() =~= c.to_set()) by {
        assert(c[c.len() - 1] == y);
        assert(c.contains(y));
        lemma_singleton_to_set(y);
    }
    lemma_concat_to_set(c, seq![k]);
    assert forall|j: int| 0 <= j < c.len() implies #[trigger] c[j] < k by {
        assert((c + seq![k])[j] == c[j]);
        assert((c + seq![k])[c.len() as int] == k);
    }
    assert forall|j: int| 0 <= j < m.len() implies (a.len() > 0 ==> a.last() < #[trigger] m[j])
        && (r.len() > 0 ==> m[j] < r[0]) by {
        assert(m.to_set().contains(m[j]));
        let q = choose|q: int| 0 <= q < c.len() && c[q] == m[j];
        assert((c + seq![k])[q] == c[q]);
        assert((c + seq![k])[c.len() as int] == k);
    }
    lemma_sorted_replace(a, c + seq![k], r, m);
    assert(a + c2 + (seq![y] + r) =~= a + m + r);
    lemma_concat3_to_set(a, m, r);
    lemma_concat3_to_set(a, c + seq![k], r);
    assert forall|j: int| 0 <= j < a.len() implies a[j] != k by {
        assert(a[j] < (c + seq![k])[c.len() as int]);
    }
    assert forall|j: int| 0 <= j < r.len() implies r[j] != k by {
        assert((c + seq![k]).last() < r[j]);
    }
    assert forall|j: int| 0 <= j < c.len() implies c[j] != k by {
        assert(c[j] < k);
    }
    assert((a + m + r).to_set() =~= (a + (c + seq![k]) + r).to_set().remove(k));
}

/// A separator `k` replaced by the smallest value `y` of the part after it, which leaves that
/// part: the separator is gone and all stays sorted.
pub(crate) proof fn lemma_swap_succ(
    a: Seq<usize>,
    k: usize,
    d: Seq<usize>,
    t: Seq<usize>,
    d2: Seq<usize>,
    y: usize,
)
    requires
        sorted(a.push(k) + d + t),
        d.len() > 0,
        y == d[0],
        sorted(d2),
        d2.to_set() == d.to_set().remove(y),
    ensures
        sorted(a.push(y) + d2 + t),
        (a.push(y) + d2 + t).to_set() == (a.push(k) + d + t).to_set().remove(k),
{
    let kd = seq![k] + d;
    assert(a.push(k) + d + t =~= a + kd + t);
    lemma_sorted_middle(a, kd, t);
    let m = seq![y] + d2;
    lemma_concat_to_set(seq![y], d2);
    lemma_concat_to_set(seq![k], d);
    assert forall|j: int| 0 <= j < d.len() implies k < #[trigger] d[j] by {
        assert(kd[0] == k && kd[j + 1] == d[j]);
    }
    assert(sorted(m)) by {
        assert forall|j: int| 0 <= j < d2.len() implies y < #[trigger] d2[j] by {
            assert(d2.to_set().contains(d2[j]));
            let q = choose|q: int| 0 <= q < d.len() && d[q] == d2[j];
            assert(kd[1] == d[0] && kd[q + 1] == d[q]);
        }
        lemma_sorted_concat(seq![y], d2);
    }
    assert(m.to_set() =~= d.to_set()) by {
        assert(d[0] == y);
        assert(d.contains(y));
        lemma_singleton_to_set(y);
    }
    assert forall|j: int| 0 <= j < m.len() implies (a.len() > 0 ==> a.last() < #[trigger] m[j])
        && (t.len() > 0 ==> m[j] < t[0]) by {
        assert(m.to_set().contains(m[j]));
        let q = choose|q: int| 0 <= q < d.len() && d[q] == m[j];
        assert(kd[q + 1] == d[q]);
    }
    lemma_sorted_replace(a, kd, t, m);
    assert(a.push(y) + d2 + t =~= a + m + t);
    lemma_concat3_to_set(a, m, t);
    lemma_concat3_to_set(a, kd, t);
    assert forall|j: int| 0 <= j < a.len() implies a[j] != k by {
        assert(a[j] < kd[0]);
    }
    assert forall|j: int| 0 <= j < t.len() implies t[j] != k by {
        assert(kd[0] < t[j]);
    }
    assert((a + m + t).to_set() =~= (a + kd + t).to_set().remove(k));
}

/// The values of a one-element sequence.
pub(crate) proof fn lemma_singleton_to_set(y: usize)
    ensures
        seq![y].to_set() == Set::<usize>::empty().insert(y),
{
    assert forall|z: usize| seq![y].contains(z) <==> z == y by {
        if z == y {
            assert(seq![y][0] == y);
        }
    }
    assert(seq![y].to_set() =~= Set::<usize>::empty().insert(y));
}

} // verus!
