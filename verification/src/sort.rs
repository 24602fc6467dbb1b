//! A stable merge sort over any total preorder.

use vstd::prelude::*;

verus! {

/// A total preorder on `T`, with the comparison that decides it.
pub trait Preorder<T> {
    /// Whether `a` may stand before `b`.
    spec fn le(&self, a: T, b: T) -> bool;

    /// Any two values can be put in order.
    proof fn total(&self, a: T, b: T)
        ensures
            self.le(a, b) || self.le(b, a),
    ;

    /// The order is transitive.
    proof fn transitive(&self, a: T, b: T, c: T)
        requires
            self.le(a, b),
            self.le(b, c),
        ensures
            self.le(a, c),
    ;

    /// Decides the order.
    fn test(&self, a: &T, b: &T) -> (r: bool)
        ensures
            r == self.le(*a, *b),
    ;
}

/// Whether the order does not tell `a` and `b` apart.
pub open spec fn same<T, C: Preorder<T>>(c: &C, a: T, b: T) -> bool {
    c.le(a, b) && c.le(b, a)
}

/// The values of `s` that the order does not tell apart from `x`, in their order in `s`.
pub open spec fn peers<T, C: Preorder<T>>(c: &C, s: Seq<T>, x: T) -> Seq<T> {
    s.filter(|y: T| same(c, x, y))
}

/// Whether `s` is in order.
pub open spec fn in_order<T, C: Preorder<T>>(c: &C, s: Seq<T>) -> bool {
    forall|i: int, j: int| 0 <= i < j < s.len() ==> c.le(#[trigger] s[i], #[trigger] s[j])
}

/// Whether `r` holds the values of `s` in order, and values that the order does not tell apart
/// as they followed one another in `s`.
pub open spec fn sorted_from<T, C: Preorder<T>>(c: &C, r: Seq<T>, s: Seq<T>) -> bool {
    &&& in_order(c, r)
    &&& r.to_multiset() == s.to_multiset()
    &&& forall|x: T| #[trigger] peers(c, r, x) == peers(c, s, x)
}

/// The invariant of one merge: what was taken off both ends, and what is left of them.
spec fn merging<T, C: Preorder<T>>(
    c: &C,
    left: Seq<T>,
    right: Seq<T>,
    out: Seq<T>,
    all: Seq<T>,
) -> bool {
    &&& in_order(c, left)
    &&& in_order(c, right)
    &&& in_order(c, out)
    &&& forall|i: int, j: int|
        0 <= i < left.len() && 0 <= j < out.len() ==> c.le(#[trigger] left[i], #[trigger] out[j])
    &&& forall|i: int, j: int|
        0 <= i < right.len() && 0 <= j < out.len() ==> c.le(
            #[trigger] right[i],
            #[trigger] out[j],
        )
    &&& (left + right + out).to_multiset() == all.to_multiset()
    &&& forall|x: T| #[trigger] peers(c, left + right + out, x) == peers(c, all, x)
}

proof fn lemma_peers_add<T, C: Preorder<T>>(c: &C, a: Seq<T>, b: Seq<T>, x: T)
    ensures
        peers(c, a + b, x) == peers(c, a, x) + peers(c, b, x),
{
    Seq::filter_distributes_over_add(a, b, |y: T| same(c, x, y));
}

/// Values none of which is a peer of `x`.
proof fn lemma_no_peers<T, C: Preorder<T>>(c: &C, s: Seq<T>, x: T)
    requires
        forall|i: int| 0 <= i < s.len() ==> !same(c, x, #[trigger] s[i]),
    ensures
        peers(c, s, x) == Seq::<T>::empty(),
    decreases s.len(),
{
    reveal(Seq::filter);
    if s.len() > 0 {
        let t = s.drop_last();
        assert forall|i: int| 0 <= i < t.len() implies !same(c, x, #[trigger] t[i]) by {
            assert(t[i] == s[i]);
        }
        lemma_no_peers(c, t, x);
        assert(!same(c, x, s[s.len() - 1]));
    }
}

/// Taking the last value of `right` keeps the merge going.
proof fn lemma_take_right<T, C: Preorder<T>>(
    c: &C,
    left: Seq<T>,
    right: Seq<T>,
    out: Seq<T>,
    all: Seq<T>,
)
    requires
        merging(c, left, right, out, all),
        right.len() > 0,
        left.len() > 0 ==> c.le(left.last(), right.last()),
    ensures
        merging(c, left, right.drop_last(), seq![right.last()] + out, all),
{
    let y = right.last();
    let out1 = seq![y] + out;
    assert(left + right.drop_last() + out1 =~= left + right + out);
    assert forall|i: int, j: int| 0 <= i < left.len() && 0 <= j < out1.len() implies c.le(
        #[trigger] left[i],
        #[trigger] out1[j],
    ) by {
        if j == 0 {
            if i < left.len() - 1 {
                c.transitive(left[i], left.last(), y);
            }
        } else {
            assert(out1[j] == out[j - 1]);
        }
    }
    assert forall|i: int, j: int| 0 <= i < right.len() - 1 && 0 <= j < out1.len() implies c.le(
        #[trigger] right.drop_last()[i],
        #[trigger] out1[j],
    ) by {
        assert(right.drop_last()[i] == right[i]);
        if j > 0 {
            assert(out1[j] == out[j - 1]);
        }
    }
    assert forall|i: int, j: int| 0 <= i < j < out1.len() implies c.le(
        #[trigger] out1[i],
        #[trigger] out1[j],
    ) by {
        assert(out1[j] == out[j - 1]);
        if i > 0 {
            assert(out1[i] == out[i - 1]);
        } else {
            assert(out1[i] == right[right.len() - 1]);
        }
    }
}

/// Taking the last value of `left`, when it belongs strictly after all of `right`.
proof fn lemma_take_left<T, C: Preorder<T>>(
    c: &C,
    left: Seq<T>,
    right: Seq<T>,
    out: Seq<T>,
    all: Seq<T>,
)
    requires
        merging(c, left, right, out, all),
        left.len() > 0,
        right.len() > 0 ==> !c.le(left.last(), right.last()),
    ensures
        merging(c, left.drop_last(), right, seq![left.last()] + out, all),
{
    let y = left.last();
    let out1 = seq![y] + out;
    let rest = left.drop_last();
    assert forall|i: int| 0 <= i < right.len() implies c.le(#[trigger] right[i], y) && !c.le(
        y,
        right[i],
    ) by {
        c.total(y, right.last());
        if i < right.len() - 1 {
            assert(c.le(right[i], right[right.len() - 1]));
            c.transitive(right[i], right.last(), y);
            if c.le(y, right[i]) {
                c.transitive(y, right[i], right.last());
            }
        }
    }
    assert forall|i: int, j: int| 0 <= i < right.len() && 0 <= j < out1.len() implies c.le(
        #[trigger] right[i],
        #[trigger] out1[j],
    ) by {
        if j > 0 {
            assert(out1[j] == out[j - 1]);
        }
    }
    assert forall|i: int, j: int| 0 <= i < rest.len() && 0 <= j < out1.len() implies c.le(
        #[trigger] rest[i],
        #[trigger] out1[j],
    ) by {
        assert(rest[i] == left[i]);
        if j > 0 {
            assert(out1[j] == out[j - 1]);
        }
    }
    assert forall|i: int, j: int| 0 <= i < j < out1.len() implies c.le(
        #[trigger] out1[i],
        #[trigger] out1[j],
    ) by {
        assert(out1[j] == out[j - 1]);
        if i > 0 {
            assert(out1[i] == out[i - 1]);
        } else {
            assert(out1[i] == left[left.len() - 1]);
        }
    }
    let before = left + right + out;
    let after = rest + right + out1;
    assert(left =~= rest + seq![y]);
    assert(before =~= rest + (seq![y] + right) + out);
    assert(after =~= rest + (right + seq![y]) + out);
    assert(after.to_multiset() == before.to_multiset()) by {
        broadcast use vstd::seq_lib::group_to_multiset_ensures;

        vstd::seq_lib::lemma_multiset_commutative(rest + (seq![y] + right), out);
        vstd::seq_lib::lemma_multiset_commutative(rest + (right + seq![y]), out);
        vstd::seq_lib::lemma_multiset_commutative(rest, seq![y] + right);
        vstd::seq_lib::lemma_multiset_commutative(rest, right + seq![y]);
        vstd::seq_lib::lemma_multiset_commutative(seq![y], right);
        vstd::seq_lib::lemma_multiset_commutative(right, seq![y]);
    }
    assert forall|x: T| #[trigger] peers(c, after, x) == peers(c, all, x) by {
        lemma_peers_add(c, rest + (seq![y] + right), out, x);
        lemma_peers_add(c, rest + (right + seq![y]), out, x);
        lemma_peers_add(c, rest, seq![y] + right, x);
        lemma_peers_add(c, rest, right + seq![y], x);
        lemma_peers_add(c, seq![y], right, x);
        lemma_peers_add(c, right, seq![y], x);
        if same(c, x, y) {
            assert forall|i: int| 0 <= i < right.len() implies !same(c, x, #[trigger] right[i]) by {
                if same(c, x, right[i]) {
                    c.transitive(y, x, right[i]);
                }
            }
            lemma_no_peers(c, right, x);
        } else {
            lemma_no_peers(c, seq![y], x);
        }
        assert(peers(c, seq![y] + right, x) =~= peers(c, right + seq![y], x));
        assert(peers(c, before, x) == peers(c, all, x));
    }
}

/// Merges two sorted vectors; where values are peers, those of `left` come first.
fn merge<T, C: Preorder<T>>(c: &C, left: Vec<T>, right: Vec<T>) -> (r: Vec<T>)
    requires
        in_order(c, left@),
        in_order(c, right@),
    ensures
        sorted_from(c, r@, left@ + right@),
{
    let mut left: Vec<T> = left;
    let mut right: Vec<T> = right;
    let ghost all = left@ + right@;
    let mut back: Vec<T> = Vec::new();
    assert(left@ + right@ + back@.reverse() =~= all);
    while left.len() > 0 || right.len() > 0
        invariant
            merging(c, left@, right@, back@.reverse(), all),
        decreases left.len() + right.len(),
    {
        let take_right = if left.len() == 0 {
            true
        } else if right.len() == 0 {
            false
        } else {
            c.test(&left[left.len() - 1], &right[right.len() - 1])
        };
        let ghost done = back@.reverse();
        if take_right {
            proof {
                lemma_take_right(c, left@, right@, done, all);
                assert(back@.push(right@.last()).reverse() =~= seq![right@.last()] + done);
            }
            if let Some(y) = right.pop() {
                back.push(y);
            }
        } else {
            proof {
                lemma_take_left(c, left@, right@, done, all);
                assert(back@.push(left@.last()).reverse() =~= seq![left@.last()] + done);
            }
            if let Some(y) = left.pop() {
                back.push(y);
            }
        }
    }
    let ghost whole = back@.reverse();
    assert(left@ + right@ + whole =~= whole);
    let mut out: Vec<T> = Vec::new();
    while back.len() > 0
        invariant
            out@ + back@.reverse() == whole,
        decreases back.len(),
    {
        let ghost b = back@;
        if let Some(y) = back.pop() {
            out.push(y);
        }
        assert(b.reverse() =~= seq![b.last()] + b.drop_last().reverse());
    }
    assert(out@ =~= whole);
    out
}

/// Sorts `v`; values that the order does not tell apart keep their order.
pub fn merge_sort<T, C: Preorder<T>>(c: &C, v: Vec<T>) -> (r: Vec<T>)
    ensures
        sorted_from(c, r@, v@),
    decreases v.len(),
{
    if v.len() <= 1 {
        return v;
    }
    let mut left: Vec<T> = v;
    let mid: usize = left.len() / 2;
    let right = left.split_off(mid);
    assert(left@ + right@ =~= v@);
    let ghost l0 = left@;
    let ghost r0 = right@;
    let left = merge_sort(c, left);
    let right = merge_sort(c, right);
    let out = merge(c, left, right);
    proof {
        broadcast use vstd::seq_lib::group_to_multiset_ensures;

        vstd::seq_lib::lemma_multiset_commutative(left@, right@);
        vstd::seq_lib::lemma_multiset_commutative(l0, r0);
        assert forall|x: T| #[trigger] peers(c, out@, x) == peers(c, v@, x) by {
            lemma_peers_add(c, left@, right@, x);
            lemma_peers_add(c, l0, r0, x);
            assert(peers(c, left@, x) == peers(c, l0, x));
            assert(peers(c, right@, x) == peers(c, r0, x));
            assert(peers(c, out@, x) == peers(c, left@ + right@, x));
        }
    }
    out
}

proof fn lemma_last_peer<T, C: Preorder<T>>(c: &C, s: Seq<T>, x: T)
    requires
        s.len() > 0,
    ensures
        same(c, x, s.last()) ==> peers(c, s, x) == peers(c, s.drop_last(), x).push(s.last()),
        !same(c, x, s.last()) ==> peers(c, s, x) == peers(c, s.drop_last(), x),
{
    reveal(Seq::filter);
}

/// The last of values in order may stand behind any of its peers among other values in order.
proof fn lemma_last_covers<T, C: Preorder<T>>(c: &C, a: Seq<T>, b: Seq<T>)
    requires
        a.len() > 0,
        in_order(c, b),
        forall|x: T| #[trigger] peers(c, a, x) == peers(c, b, x),
    ensures
        b.len() > 0,
        c.le(a.last(), b.last()),
{
    let x = a.last();
    c.total(x, x);
    lemma_last_peer(c, a, x);
    let p = peers(c, b, x);
    assert(peers(c, a, x) == p);
    assert(p.len() > 0);
    if forall|i: int| 0 <= i < b.len() ==> !same(c, x, #[trigger] b[i]) {
        lemma_no_peers(c, b, x);
    }
    let i = choose|i: int| 0 <= i < b.len() && same(c, x, #[trigger] b[i]);
    if i < b.len() - 1 {
        c.transitive(x, b[i], b[b.len() - 1]);
    }
}

/// A stable sort has one outcome only.
pub proof fn law_stable_sort_has_one_outcome<T, C: Preorder<T>>(c: &C, a: Seq<T>, b: Seq<T>)
    requires
        in_order(c, a),
        in_order(c, b),
        forall|x: T| #[trigger] peers(c, a, x) == peers(c, b, x),
    ensures
        a == b,
    decreases a.len(),
{
    if a.len() == 0 {
        if b.len() > 0 {
            lemma_last_covers(c, b, a);
        }
        assert(a =~= b);
    } else {
        let x = a.last();
        lemma_last_covers(c, a, b);
        lemma_last_covers(c, b, a);
        let y = b.last();
        lemma_last_peer(c, a, x);
        lemma_last_peer(c, b, x);
        c.total(x, x);
        assert(peers(c, a, x).last() == x);
        assert(peers(c, b, x).last() == y);
        let a0 = a.drop_last();
        let b0 = b.drop_last();
        assert forall|z: T| #[trigger] peers(c, a0, z) == peers(c, b0, z) by {
            lemma_last_peer(c, a, z);
            lemma_last_peer(c, b, z);
            assert(peers(c, a, z) == peers(c, b, z));
            if same(c, z, x) {
                assert(peers(c, a0, z) =~= peers(c, a, z).drop_last());
                assert(peers(c, b0, z) =~= peers(c, b, z).drop_last());
            }
        }
        law_stable_sort_has_one_outcome(c, a0, b0);
        assert(a =~= a0.push(x));
        assert(b =~= b0.push(y));
    }
}

} // verus!
