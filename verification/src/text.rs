//! Strings as sequences of characters: order, search, trimming, lines, joining.

use vstd::prelude::*;
use vstd::string::*;
use vstd::utf8::{encode_utf8, encode_utf8_decode_utf8};

use crate::sort::Preorder;

verus! {

// ---------------------------------------------------------------------------------------------
// Order
// ---------------------------------------------------------------------------------------------

/// The lexicographic order: a proper prefix comes first, else the first difference decides.
pub open spec fn lex_le(a: Seq<int>, b: Seq<int>) -> bool
    decreases a.len(),
{
    if a.len() == 0 {
        true
    } else if b.len() == 0 {
        false
    } else if a[0] != b[0] {
        a[0] < b[0]
    } else {
        lex_le(a.drop_first(), b.drop_first())
    }
}

pub proof fn lemma_lex_reflexive(a: Seq<int>)
    ensures
        lex_le(a, a),
    decreases a.len(),
{
    if a.len() > 0 {
        lemma_lex_reflexive(a.drop_first());
    }
}

pub proof fn lemma_lex_total(a: Seq<int>, b: Seq<int>)
    ensures
        lex_le(a, b) || lex_le(b, a),
    decreases a.len(),
{
    if a.len() > 0 && b.len() > 0 {
        lemma_lex_total(a.drop_first(), b.drop_first());
    }
}

pub proof fn lemma_lex_transitive(a: Seq<int>, b: Seq<int>, c: Seq<int>)
    requires
        lex_le(a, b),
        lex_le(b, c),
    ensures
        lex_le(a, c),
    decreases a.len(),
{
    if a.len() > 0 && b.len() > 0 && c.len() > 0 && a[0] == b[0] && b[0] == c[0] {
        lemma_lex_transitive(a.drop_first(), b.drop_first(), c.drop_first());
    }
}

pub proof fn lemma_lex_antisymmetric(a: Seq<int>, b: Seq<int>)
    requires
        lex_le(a, b),
        lex_le(b, a),
    ensures
        a == b,
    decreases a.len(),
{
    if a.len() > 0 && b.len() > 0 {
        lemma_lex_antisymmetric(a.drop_first(), b.drop_first());
        assert(a =~= seq![a[0]] + a.drop_first());
        assert(b =~= seq![b[0]] + b.drop_first());
    } else {
        assert(a =~= b);
    }
}

/// What a text is compared by: the values of its bytes in UTF-8.
pub open spec fn text_key(s: Seq<char>) -> Seq<int> {
    encode_utf8(s).map_values(|b: u8| b as int)
}

/// The order of texts, by the values of their bytes in UTF-8.
pub open spec fn text_le(a: Seq<char>, b: Seq<char>) -> bool {
    lex_le(text_key(a), text_key(b))
}

/// The strict part of the order of texts.
pub open spec fn text_lt(a: Seq<char>, b: Seq<char>) -> bool {
    text_le(a, b) && a != b
}

/// Different texts have different encodings.
pub proof fn lemma_encoding_tells_apart(a: Seq<char>, b: Seq<char>)
    requires
        encode_utf8(a) == encode_utf8(b),
    ensures
        a == b,
{
    encode_utf8_decode_utf8(a);
    encode_utf8_decode_utf8(b);
}

/// The order of texts tells different texts apart.
pub proof fn lemma_text_antisymmetric(a: Seq<char>, b: Seq<char>)
    requires
        text_le(a, b),
        text_le(b, a),
    ensures
        a == b,
{
    lemma_lex_antisymmetric(text_key(a), text_key(b));
    assert forall|i: int| 0 <= i < encode_utf8(a).len() implies encode_utf8(a)[i] == encode_utf8(
        b,
    )[i] by {
        assert(text_key(a)[i] == encode_utf8(a)[i] as int);
        assert(text_key(b)[i] == encode_utf8(b)[i] as int);
    }
    assert(text_key(a).len() == text_key(b).len());
    assert(encode_utf8(a) =~= encode_utf8(b));
    lemma_encoding_tells_apart(a, b);
}

/// Compares two texts.
pub fn text_at_most(a: &str, b: &str) -> (r: bool)
    ensures
        r == text_le(a@, b@),
{
    let x = a.as_bytes();
    let y = b.as_bytes();
    let ghost kx = text_key(a@);
    let ghost ky = text_key(b@);
    let mut i: usize = 0;
    assert(kx.skip(0) =~= kx);
    assert(ky.skip(0) =~= ky);
    while i < x.len() && i < y.len()
        invariant
            i <= x@.len(),
            i <= y@.len(),
            x@ == encode_utf8(a@),
            y@ == encode_utf8(b@),
            kx == text_key(a@),
            ky == text_key(b@),
            text_le(a@, b@) == lex_le(kx.skip(i as int), ky.skip(i as int)),
        decreases x.len() - i,
    {
        assert(kx.skip(i as int)[0] == x@[i as int] as int);
        assert(ky.skip(i as int)[0] == y@[i as int] as int);
        if x[i] != y[i] {
            return x[i] < y[i];
        }
        assert(kx.skip(i as int).drop_first() =~= kx.skip(i + 1));
        assert(ky.skip(i as int).drop_first() =~= ky.skip(i + 1));
        i = i + 1;
    }
    i == x.len()
}

/// Whether two texts are the same.
pub fn same_text(a: &str, b: &str) -> (r: bool)
    ensures
        r == (a@ == b@),
{
    let x = a.as_bytes();
    let y = b.as_bytes();
    if x.len() != y.len() {
        return false;
    }
    let mut i: usize = 0;
    while i < x.len()
        invariant
            i <= x@.len(),
            x@.len() == y@.len(),
            x@ == encode_utf8(a@),
            y@ == encode_utf8(b@),
            forall|j: int| 0 <= j < i ==> x@[j] == y@[j],
        decreases x.len() - i,
    {
        if x[i] != y[i] {
            return false;
        }
        i = i + 1;
    }
    proof {
        assert(x@ =~= y@);
        lemma_encoding_tells_apart(a@, b@);
    }
    true
}

/// The order of texts, for sorting strings.
pub struct ByText;

impl Preorder<String> for ByText {
    open spec fn le(&self, a: String, b: String) -> bool {
        text_le(a@, b@)
    }

    proof fn total(&self, a: String, b: String) {
        lemma_lex_total(text_key(a@), text_key(b@));
    }

    proof fn transitive(&self, a: String, b: String, c: String) {
        lemma_lex_transitive(text_key(a@), text_key(b@), text_key(c@));
    }

    fn test(&self, a: &String, b: &String) -> (r: bool) {
        text_at_most(a.as_str(), b.as_str())
    }
}

// ---------------------------------------------------------------------------------------------
// Characters
// ---------------------------------------------------------------------------------------------

/// `String::push` puts the character at the end of the string.
pub assume_specification[ String::push ](s: &mut String, c: char)
    ensures
        final(s)@ == old(s)@.push(c),
;

/// The characters of a string.
pub fn chars_of(s: &str) -> (r: Vec<char>)
    ensures
        r@ == s@,
{
    let mut r: Vec<char> = Vec::new();
    for c in it: s.chars()
        invariant
            it.seq() == s@,
            r@ == s@.take(it.index() as int),
    {
        r.push(c);
    }
    assert(s@.take(s@.len() as int) =~= s@);
    r
}

/// The string of the characters from `from` up to `to`.
pub fn string_of(chars: &Vec<char>, from: usize, to: usize) -> (r: String)
    requires
        from <= to <= chars@.len(),
    ensures
        r@ == chars@.subrange(from as int, to as int),
{
    let mut r = String::new();
    let mut i: usize = from;
    while i < to
        invariant
            from <= i <= to <= chars@.len(),
            r@ == chars@.subrange(from as int, i as int),
        decreases to - i,
    {
        r.push(chars[i]);
        i = i + 1;
    }
    r
}

// ---------------------------------------------------------------------------------------------
// Lists of strings
// ---------------------------------------------------------------------------------------------

/// The texts of a list of strings.
pub open spec fn texts(v: Seq<String>) -> Seq<Seq<char>> {
    v.map_values(|s: String| s@)
}

/// Whether texts come in strictly ascending order.
pub open spec fn ascending(r: Seq<Seq<char>>) -> bool {
    forall|i: int, j: int| 0 <= i < j < r.len() ==> text_lt(#[trigger] r[i], #[trigger] r[j])
}

/// Whether `r` lists the texts of `s` in ascending order, each of them once.
pub open spec fn distinct_sorted(r: Seq<Seq<char>>, s: Seq<Seq<char>>) -> bool {
    ascending(r) && r.to_set() == s.to_set()
}

/// The texts of `s` in ascending order, each of them once.
pub open spec fn sorted_set(s: Seq<Seq<char>>) -> Seq<Seq<char>> {
    choose|r: Seq<Seq<char>>| distinct_sorted(r, s)
}

proof fn lemma_text_lt_transitive(a: Seq<char>, b: Seq<char>, c: Seq<char>)
    requires
        text_lt(a, b),
        text_le(b, c),
    ensures
        text_lt(a, c),
{
    lemma_lex_transitive(text_key(a), text_key(b), text_key(c));
    if a == c {
        lemma_text_antisymmetric(a, b);
    }
}

/// There is one way only to list a set of texts in ascending order.
pub proof fn lemma_ascending_unique(a: Seq<Seq<char>>, b: Seq<Seq<char>>)
    requires
        ascending(a),
        ascending(b),
        a.to_set() == b.to_set(),
    ensures
        a == b,
    decreases a.len(),
{
    if a.len() == 0 {
        if b.len() > 0 {
            assert(b.to_set().contains(b[0]));
            assert(a.contains(b[0]));
        }
        assert(a =~= b);
    } else {
        assert(a.to_set().contains(a.last()));
        assert(b.contains(a.last()));
        let i = choose|i: int| 0 <= i < b.len() && b[i] == a.last();
        assert(b.to_set().contains(b.last()));
        assert(a.contains(b.last()));
        let j = choose|j: int| 0 <= j < a.len() && a[j] == b.last();
        if a.last() != b.last() {
            assert(text_lt(b[i], b[b.len() - 1]));
            assert(text_lt(a[j], a[a.len() - 1]));
            lemma_text_antisymmetric(a.last(), b.last());
        }
        let x = a.drop_last();
        let y = b.drop_last();
        assert forall|t: Seq<char>| x.to_set().contains(t) implies y.to_set().contains(t) by {
            let k = choose|k: int| 0 <= k < x.len() && x[k] == t;
            assert(text_lt(a[k], a[a.len() - 1]));
            assert(a.to_set().contains(a[k]));
            assert(b.contains(t));
            let m = choose|m: int| 0 <= m < b.len() && b[m] == t;
            assert(y[m] == t);
        }
        assert forall|t: Seq<char>| y.to_set().contains(t) implies x.to_set().contains(t) by {
            let k = choose|k: int| 0 <= k < y.len() && y[k] == t;
            assert(text_lt(b[k], b[b.len() - 1]));
            assert(b.to_set().contains(b[k]));
            assert(a.contains(t));
            let m = choose|m: int| 0 <= m < a.len() && a[m] == t;
            assert(x[m] == t);
        }
        assert(x.to_set() =~= y.to_set());
        lemma_ascending_unique(x, y);
        assert(a =~= x.push(a.last()));
        assert(b =~= y.push(b.last()));
    }
}

/// A list in ascending order of the texts of `s` is the sorted set of `s`.
pub proof fn lemma_sorted_set_is(r: Seq<Seq<char>>, s: Seq<Seq<char>>)
    requires
        distinct_sorted(r, s),
    ensures
        r == sorted_set(s),
{
    lemma_ascending_unique(r, sorted_set(s));
}

/// Lists of the same texts, in whatever order and however often, have one sorted set.
pub proof fn lemma_sorted_set_of_set(s: Seq<Seq<char>>, t: Seq<Seq<char>>)
    requires
        s.to_set() == t.to_set(),
    ensures
        sorted_set(s) == sorted_set(t),
{
    lemma_sorted_set_exists(s);
    lemma_sorted_set_is(sorted_set(s), t);
}

/// The place at which `x` belongs in the ascending list `r`, or holds already.
proof fn lemma_place(r: Seq<Seq<char>>, x: Seq<char>) -> (k: int)
    requires
        ascending(r),
    ensures
        0 <= k <= r.len(),
        forall|i: int| 0 <= i < k ==> text_lt(#[trigger] r[i], x),
        forall|i: int| k <= i < r.len() ==> text_le(x, #[trigger] r[i]),
    decreases r.len(),
{
    if r.len() == 0 {
        0
    } else {
        lemma_lex_total(text_key(x), text_key(r.last()));
        if text_le(x, r.last()) {
            let t = r.drop_last();
            assert forall|i: int, j: int| 0 <= i < j < t.len() implies text_lt(
                #[trigger] t[i],
                #[trigger] t[j],
            ) by {
                assert(t[i] == r[i] && t[j] == r[j]);
            }
            let k = lemma_place(t, x);
            assert forall|i: int| 0 <= i < k implies text_lt(#[trigger] r[i], x) by {
                assert(r[i] == t[i]);
            }
            assert forall|i: int| k <= i < r.len() implies text_le(x, #[trigger] r[i]) by {
                if i < t.len() {
                    assert(r[i] == t[i]);
                }
            }
            k
        } else {
            assert forall|i: int| 0 <= i < r.len() implies text_lt(#[trigger] r[i], x) by {
                lemma_lex_reflexive(text_key(x));
                if i < r.len() - 1 {
                    lemma_text_lt_transitive(r[i], r[r.len() - 1], x);
                }
            }
            r.len() as int
        }
    }
}

/// Every list of texts has a sorted set.
pub proof fn lemma_sorted_set_exists(s: Seq<Seq<char>>)
    ensures
        distinct_sorted(sorted_set(s), s),
    decreases s.len(),
{
    let r = if s.len() == 0 {
        let r = Seq::<Seq<char>>::empty();
        assert(r.to_set() =~= s.to_set());
        r
    } else {
        let t = s.drop_last();
        let x = s.last();
        lemma_sorted_set_exists(t);
        let r0 = sorted_set(t);
        let k = lemma_place(r0, x);
        assert(s =~= t.push(x));
        assert forall|y: Seq<char>| s.to_set().contains(y) <==> (t.to_set().contains(y) || y
            == x) by {
            if s.to_set().contains(y) {
                let i = choose|i: int| 0 <= i < s.len() && s[i] == y;
                if i < t.len() {
                    assert(t[i] == y);
                }
            }
            if t.to_set().contains(y) {
                let i = choose|i: int| 0 <= i < t.len() && t[i] == y;
                assert(s[i] == y);
            }
            if y == x {
                assert(s[s.len() - 1] == x);
            }
        }
        if k < r0.len() && r0[k] == x {
            assert(r0.to_set().contains(x));
            assert(r0.to_set() =~= s.to_set());
            r0
        } else {
            let r = r0.insert(k, x);
            assert forall|i: int, j: int| 0 <= i < j < r.len() implies text_lt(
                #[trigger] r[i],
                #[trigger] r[j],
            ) by {
                if i == k {
                    assert(r[j] == r0[j - 1]);
                    assert(text_le(x, r0[j - 1]));
                    if r0[j - 1] == x {
                        assert(text_lt(r0[k], r0[j - 1]));
                        lemma_text_antisymmetric(r0[k], x);
                    }
                } else if j == k {
                    assert(r[i] == r0[i]);
                } else {
                    let i0 = if i < k {
                        i
                    } else {
                        i - 1
                    };
                    let j0 = if j < k {
                        j
                    } else {
                        j - 1
                    };
                    assert(r[i] == r0[i0] && r[j] == r0[j0]);
                }
            }
            assert forall|y: Seq<char>| r.to_set().contains(y) <==> (r0.to_set().contains(y) || y
                == x) by {
                if r.to_set().contains(y) {
                    let i = choose|i: int| 0 <= i < r.len() && r[i] == y;
                    if i < k {
                        assert(r0[i] == y);
                    } else if i > k {
                        assert(r0[i - 1] == y);
                    }
                }
                if r0.to_set().contains(y) {
                    let i = choose|i: int| 0 <= i < r0.len() && r0[i] == y;
                    if i < k {
                        assert(r[i] == y);
                    } else {
                        assert(r[i + 1] == y);
                    }
                }
                if y == x {
                    assert(r[k] == x);
                }
            }
            assert(r.to_set() =~= s.to_set());
            r
        }
    };
    assert(distinct_sorted(r, s));
}

/// Sorts strings and drops repetitions.
pub fn sort_and_dedup(v: Vec<String>) -> (r: Vec<String>)
    ensures
        texts(r@) == sorted_set(texts(v@)),
{
    let sorted = crate::sort::merge_sort(&ByText, v);
    let mut r: Vec<String> = Vec::new();
    let mut i: usize = 0;
    while i < sorted.len()
        invariant
            i <= sorted@.len(),
            crate::sort::in_order(&ByText, sorted@),
            ascending(texts(r@)),
            i > 0 ==> r@.len() > 0 && r@.last()@ == sorted@[i - 1]@,
            i == 0 ==> r@.len() == 0,
            forall|t: Seq<char>|
                texts(r@).contains(t) <==> texts(sorted@.take(i as int)).contains(t),
        decreases sorted.len() - i,
    {
        let ghost before = texts(r@);
        let ghost seen = texts(sorted@.take(i as int));
        let ghost now = texts(sorted@.take(i + 1));
        let ghost x = sorted@[i as int]@;
        assert(now =~= seen.push(x));
        let fresh = i == 0 || !same_text(sorted[i - 1].as_str(), sorted[i].as_str());
        if fresh {
            r.push(sorted[i].clone());
            proof {
                assert(texts(r@) =~= before.push(x));
                if i > 0 {
                    assert(ByText.le(sorted@[i - 1], sorted@[i as int]));
                }
                let last = before.len() - 1;
                assert forall|a: int, b: int| 0 <= a < b < texts(r@).len() implies text_lt(
                    #[trigger] texts(r@)[a],
                    #[trigger] texts(r@)[b],
                ) by {
                    assert(texts(r@)[a] == before[a]);
                    if b < before.len() {
                        assert(texts(r@)[b] == before[b]);
                    } else {
                        assert(before[last] == sorted@[i - 1]@);
                        if a < last {
                            assert(text_lt(before[a], before[last]));
                            lemma_text_lt_transitive(before[a], before[last], x);
                        }
                    }
                }
            }
        } else {
            proof {
                assert(before[before.len() - 1] == x);
            }
        }
        proof {
            assert forall|t: Seq<char>| texts(r@).contains(t) <==> now.contains(t) by {
                if now.contains(t) {
                    let k = choose|k: int| 0 <= k < now.len() && now[k] == t;
                    if k < seen.len() {
                        assert(seen[k] == t);
                        assert(before.contains(t));
                        let m = choose|m: int| 0 <= m < before.len() && before[m] == t;
                        assert(texts(r@)[m] == t);
                    } else {
                        assert(texts(r@)[texts(r@).len() - 1] == t);
                    }
                }
                if texts(r@).contains(t) {
                    let k = choose|k: int| 0 <= k < texts(r@).len() && texts(r@)[k] == t;
                    if k < before.len() {
                        assert(before[k] == t);
                        assert(before.contains(t));
                        assert(seen.contains(t));
                        let m = choose|m: int| 0 <= m < seen.len() && seen[m] == t;
                        assert(now[m] == t);
                    } else {
                        assert(now[now.len() - 1] == t);
                    }
                }
            }
        }
        i = i + 1;
    }
    proof {
        assert(sorted@.take(sorted@.len() as int) =~= sorted@);
        lemma_texts_of_permutation(sorted@, v@);
        assert(texts(r@).to_set() =~= texts(v@).to_set());
        lemma_sorted_set_is(texts(r@), texts(v@));
    }
    r
}

/// Reordering strings keeps the set of their texts.
pub proof fn lemma_texts_of_permutation(a: Seq<String>, b: Seq<String>)
    requires
        a.to_multiset() == b.to_multiset(),
    ensures
        texts(a).to_set() == texts(b).to_set(),
{
    broadcast use vstd::seq_lib::group_to_multiset_ensures;

    assert forall|t: Seq<char>| texts(a).to_set().contains(t) implies texts(b).to_set().contains(
        t,
    ) by {
        let k = choose|k: int| 0 <= k < texts(a).len() && texts(a)[k] == t;
        assert(a.contains(a[k]));
        assert(a.to_multiset().count(a[k]) > 0);
        assert(b.contains(a[k]));
        let m = choose|m: int| 0 <= m < b.len() && b[m] == a[k];
        assert(texts(b)[m] == t);
    }
    assert forall|t: Seq<char>| texts(b).to_set().contains(t) implies texts(a).to_set().contains(
        t,
    ) by {
        let k = choose|k: int| 0 <= k < texts(b).len() && texts(b)[k] == t;
        assert(b.contains(b[k]));
        assert(b.to_multiset().count(b[k]) > 0);
        assert(a.contains(b[k]));
        let m = choose|m: int| 0 <= m < a.len() && a[m] == b[k];
        assert(texts(a)[m] == t);
    }
    assert(texts(a).to_set() =~= texts(b).to_set());
}

/// Copies a list of strings.
pub fn copy_strings(v: &Vec<String>) -> (r: Vec<String>)
    ensures
        r@ == v@,
{
    let mut r: Vec<String> = Vec::new();
    let mut i: usize = 0;
    while i < v.len()
        invariant
            i <= v@.len(),
            r@ == v@.take(i as int),
        decreases v.len() - i,
    {
        r.push(v[i].clone());
        i = i + 1;
    }
    assert(v@.take(v@.len() as int) =~= v@);
    r
}

// ---------------------------------------------------------------------------------------------
// Search
// ---------------------------------------------------------------------------------------------

/// Whether the text `p` stands in `s` at place `i`.
pub open spec fn occurs_at(s: Seq<char>, p: Seq<char>, i: int) -> bool {
    &&& 0 <= i
    &&& i + p.len() <= s.len()
    &&& s.subrange(i, i + p.len()) == p
}

/// Whether the text `p` stands anywhere in `s`.
pub open spec fn occurs(s: Seq<char>, p: Seq<char>) -> bool {
    exists|i: int| occurs_at(s, p, i)
}

/// Whether `p` stands in `s` at `i`, decided character by character.
fn stands_at(s: &Vec<char>, p: &Vec<char>, i: usize) -> (r: bool)
    requires
        i <= s@.len(),
    ensures
        r == occurs_at(s@, p@, i as int),
{
    let n: usize = s.len();
    if p.len() > n - i {
        return false;
    }
    let mut k: usize = 0;
    while k < p.len()
        invariant
            k <= p@.len(),
            n == s@.len(),
            i + p@.len() <= n,
            forall|j: int| 0 <= j < k ==> s@[i + j] == p@[j],
        decreases p.len() - k,
    {
        if s[i + k] != p[k] {
            assert(s@.subrange(i as int, i + p@.len())[k as int] == s@[i + k]);
            return false;
        }
        k = k + 1;
    }
    assert(s@.subrange(i as int, i + p@.len()) =~= p@);
    true
}

/// The first place at which `p` stands in `s`.
pub fn find(s: &Vec<char>, p: &str) -> (r: Option<usize>)
    ensures
        match r {
            Some(i) => occurs_at(s@, p@, i as int) && forall|j: int|
                0 <= j < i ==> !occurs_at(s@, p@, j),
            None => !occurs(s@, p@),
        },
{
    let q = chars_of(p);
    let mut i: usize = 0;
    while i < s.len()
        invariant
            i <= s@.len(),
            q@ == p@,
            forall|j: int| 0 <= j < i ==> !occurs_at(s@, p@, j),
        decreases s.len() - i,
    {
        if stands_at(s, &q, i) {
            return Some(i);
        }
        i = i + 1;
    }
    if stands_at(s, &q, i) {
        return Some(i);
    }
    None
}

/// Whether the text `p` stands anywhere in `s`.
pub fn contains(s: &str, p: &str) -> (r: bool)
    ensures
        r == occurs(s@, p@),
{
    find(&chars_of(s), p).is_some()
}

/// Whether `s` starts with `p`.
pub fn starts_with(s: &str, p: &str) -> (r: bool)
    ensures
        r == p@.is_prefix_of(s@),
{
    let s = chars_of(s);
    let p = chars_of(p);
    let r = stands_at(&s, &p, 0);
    assert(r ==> p@ =~= s@.subrange(0, p@.len() as int));
    r
}

/// Whether `s` ends with `p`.
pub fn ends_with(s: &str, p: &str) -> (r: bool)
    ensures
        r == p@.is_suffix_of(s@),
{
    let s = chars_of(s);
    let p = chars_of(p);
    if p.len() > s.len() {
        return false;
    }
    let r = stands_at(&s, &p, s.len() - p.len());
    assert(r ==> p@ =~= s@.subrange(s@.len() - p@.len(), s@.len() as int));
    r
}

// ---------------------------------------------------------------------------------------------
// White space and lines
// ---------------------------------------------------------------------------------------------

/// The characters with the Unicode property `White_Space`.
pub open spec fn white(c: char) -> bool {
    let u = c as u32;
    ||| 0x09 <= u <= 0x0d
    ||| u == 0x20
    ||| u == 0x85
    ||| u == 0xa0
    ||| u == 0x1680
    ||| 0x2000 <= u <= 0x200a
    ||| u == 0x2028
    ||| u == 0x2029
    ||| u == 0x202f
    ||| u == 0x205f
    ||| u == 0x3000
}

fn is_white(c: char) -> (r: bool)
    ensures
        r == white(c),
{
    let u: u32 = c as u32;
    (0x09 <= u && u <= 0x0d) || u == 0x20 || u == 0x85 || u == 0xa0 || u == 0x1680 || (0x2000 <= u
        && u <= 0x200a) || u == 0x2028 || u == 0x2029 || u == 0x202f || u == 0x205f || u == 0x3000
}

/// `s` without the white space that it starts with.
pub open spec fn trimmed_front(s: Seq<char>) -> Seq<char>
    decreases s.len(),
{
    if s.len() > 0 && white(s[0]) {
        trimmed_front(s.drop_first())
    } else {
        s
    }
}

/// `s` without the white space that it ends with.
pub open spec fn trimmed_back(s: Seq<char>) -> Seq<char>
    decreases s.len(),
{
    if s.len() > 0 && white(s.last()) {
        trimmed_back(s.drop_last())
    } else {
        s
    }
}

/// `s` without the white space at both of its ends.
pub open spec fn trimmed(s: Seq<char>) -> Seq<char> {
    trimmed_back(trimmed_front(s))
}

/// The characters that count as white space.
pub proof fn law_white_space(c: char)
    ensures
        white(c) <==> seq![
            0x9int,
            0xa,
            0xb,
            0xc,
            0xd,
            0x20,
            0x85,
            0xa0,
            0x1680,
            0x2000,
            0x2001,
            0x2002,
            0x2003,
            0x2004,
            0x2005,
            0x2006,
            0x2007,
            0x2008,
            0x2009,
            0x200a,
            0x2028,
            0x2029,
            0x202f,
            0x205f,
            0x3000,
        ].contains(c as int),
{
    let all = seq![
        0x9int,
        0xa,
        0xb,
        0xc,
        0xd,
        0x20,
        0x85,
        0xa0,
        0x1680,
        0x2000,
        0x2001,
        0x2002,
        0x2003,
        0x2004,
        0x2005,
        0x2006,
        0x2007,
        0x2008,
        0x2009,
        0x200a,
        0x2028,
        0x2029,
        0x202f,
        0x205f,
        0x3000,
    ];
    let u = c as int;
    assert(all[0] == 0x9 && all[1] == 0xa && all[2] == 0xb && all[3] == 0xc && all[4] == 0xd);
    assert(all[5] == 0x20 && all[6] == 0x85 && all[7] == 0xa0 && all[8] == 0x1680);
    assert(all[9] == 0x2000 && all[10] == 0x2001 && all[11] == 0x2002 && all[12] == 0x2003);
    assert(all[13] == 0x2004 && all[14] == 0x2005 && all[15] == 0x2006 && all[16] == 0x2007);
    assert(all[17] == 0x2008 && all[18] == 0x2009 && all[19] == 0x200a && all[20] == 0x2028);
    assert(all[21] == 0x2029 && all[22] == 0x202f && all[23] == 0x205f && all[24] == 0x3000);
    if all.contains(u) {
        let i = choose|i: int| 0 <= i < all.len() && all[i] == u;
        assert(0 <= i < 25);
    }
}

proof fn lemma_trimmed_front(a: Seq<char>, s: Seq<char>)
    requires
        forall|i: int| 0 <= i < a.len() ==> white(#[trigger] a[i]),
        s.len() == 0 || !white(s[0]),
    ensures
        trimmed_front(a + s) == s,
    decreases a.len(),
{
    if a.len() > 0 {
        assert((a + s)[0] == a[0]);
        assert((a + s).drop_first() =~= a.drop_first() + s);
        assert forall|i: int| 0 <= i < a.drop_first().len() implies white(
            #[trigger] a.drop_first()[i],
        ) by {
            assert(a.drop_first()[i] == a[i + 1]);
        }
        lemma_trimmed_front(a.drop_first(), s);
    } else {
        assert(a + s =~= s);
    }
}

proof fn lemma_trimmed_back(s: Seq<char>, b: Seq<char>)
    requires
        forall|i: int| 0 <= i < b.len() ==> white(#[trigger] b[i]),
        s.len() == 0 || !white(s.last()),
    ensures
        trimmed_back(s + b) == s,
    decreases b.len(),
{
    if b.len() > 0 {
        assert((s + b).last() == b[b.len() - 1]);
        assert((s + b).drop_last() =~= s + b.drop_last());
        assert forall|i: int| 0 <= i < b.drop_last().len() implies white(
            #[trigger] b.drop_last()[i],
        ) by {
            assert(b.drop_last()[i] == b[i]);
        }
        lemma_trimmed_back(s, b.drop_last());
    } else {
        assert(s + b =~= s);
    }
}

proof fn lemma_all_white(a: Seq<char>)
    requires
        forall|i: int| 0 <= i < a.len() ==> white(#[trigger] a[i]),
    ensures
        trimmed(a) == Seq::<char>::empty(),
{
    let none = Seq::<char>::empty();
    lemma_trimmed_front(a, none);
    assert(a + none =~= a);
}

/// White space at the ends of a text is taken off, and nothing else is: what is left between them,
/// which neither starts nor ends with white space, stays.
pub proof fn law_trimming(a: Seq<char>, s: Seq<char>, b: Seq<char>)
    requires
        forall|i: int| 0 <= i < a.len() ==> white(#[trigger] a[i]),
        forall|i: int| 0 <= i < b.len() ==> white(#[trigger] b[i]),
        s.len() > 0 ==> !white(s[0]) && !white(s.last()),
    ensures
        trimmed(a + s + b) == s,
{
    if s.len() > 0 {
        assert(a + s + b =~= a + (s + b));
        assert((s + b)[0] == s[0]);
        lemma_trimmed_front(a, s + b);
        lemma_trimmed_back(s, b);
    } else {
        let w = a + s + b;
        assert(w =~= a + b);
        assert forall|i: int| 0 <= i < w.len() implies white(#[trigger] w[i]) by {
            if i < a.len() {
                assert(w[i] == a[i]);
            } else {
                assert(w[i] == b[i - a.len()]);
            }
        }
        lemma_all_white(w);
        assert(s =~= Seq::<char>::empty());
    }
}

/// Where the white space that a text starts with ends.
proof fn lemma_front_cut(s: Seq<char>) -> (k: int)
    ensures
        0 <= k <= s.len(),
        forall|i: int| 0 <= i < k ==> white(#[trigger] s[i]),
        trimmed_front(s) == s.skip(k),
        k < s.len() ==> !white(s[k]),
    decreases s.len(),
{
    if s.len() > 0 && white(s[0]) {
        let k = lemma_front_cut(s.drop_first());
        assert forall|i: int| 0 <= i < k + 1 implies white(#[trigger] s[i]) by {
            if i > 0 {
                assert(s.drop_first()[i - 1] == s[i]);
            }
        }
        assert(s.drop_first().skip(k) =~= s.skip(k + 1));
        if k + 1 < s.len() {
            assert(s.drop_first()[k] == s[k + 1]);
        }
        k + 1
    } else {
        assert(s.skip(0) =~= s);
        0
    }
}

/// Where the white space that a text ends with starts.
proof fn lemma_back_cut(s: Seq<char>) -> (k: int)
    ensures
        0 <= k <= s.len(),
        forall|i: int| k <= i < s.len() ==> white(#[trigger] s[i]),
        trimmed_back(s) == s.take(k),
        k > 0 ==> !white(s[k - 1]),
    decreases s.len(),
{
    if s.len() > 0 && white(s.last()) {
        let k = lemma_back_cut(s.drop_last());
        assert forall|i: int| k <= i < s.len() implies white(#[trigger] s[i]) by {
            if i < s.len() - 1 {
                assert(s.drop_last()[i] == s[i]);
            }
        }
        assert(s.drop_last().take(k) =~= s.take(k));
        if k > 0 {
            assert(s.drop_last()[k - 1] == s[k - 1]);
        }
        k
    } else {
        assert(s.take(s.len() as int) =~= s);
        s.len() as int
    }
}

/// Every text is what trimming leaves of it, between white space.
pub proof fn lemma_untrimmed(s: Seq<char>) -> (r: (Seq<char>, Seq<char>))
    ensures
        forall|i: int| 0 <= i < r.0.len() ==> white(#[trigger] r.0[i]),
        forall|i: int| 0 <= i < r.1.len() ==> white(#[trigger] r.1[i]),
        s == r.0 + trimmed(s) + r.1,
        trimmed(s).len() > 0 ==> !white(trimmed(s)[0]) && !white(trimmed(s).last()),
{
    let k = lemma_front_cut(s);
    let t = s.skip(k);
    let m = lemma_back_cut(t);
    let a = s.take(k);
    let b = t.skip(m);
    assert forall|i: int| 0 <= i < a.len() implies white(#[trigger] a[i]) by {
        assert(a[i] == s[i]);
    }
    assert forall|i: int| 0 <= i < b.len() implies white(#[trigger] b[i]) by {
        assert(b[i] == t[m + i]);
    }
    assert(s =~= a + trimmed(s) + b);
    if m > 0 {
        assert(trimmed(s)[0] == t[0] && t[0] == s[k]);
        assert(trimmed(s).last() == t[m - 1]);
    }
    (a, b)
}

/// Takes the white space off both ends.
pub fn trim(s: &str) -> (r: String)
    ensures
        r@ == trimmed(s@),
{
    let v = chars_of(s);
    let mut from: usize = 0;
    assert(v@.skip(0) =~= v@);
    while from < v.len() && is_white(v[from])
        invariant
            from <= v@.len(),
            v@ == s@,
            trimmed_front(v@) == trimmed_front(v@.skip(from as int)),
        decreases v.len() - from,
    {
        assert(v@.skip(from as int).drop_first() =~= v@.skip(from + 1));
        from = from + 1;
    }
    let mut to: usize = v.len();
    assert(v@.skip(from as int) =~= v@.subrange(from as int, to as int));
    while to > from && is_white(v[to - 1])
        invariant
            from <= to <= v@.len(),
            v@ == s@,
            trimmed(s@) == trimmed_back(v@.subrange(from as int, to as int)),
        decreases to - from,
    {
        assert(v@.subrange(from as int, to as int).drop_last() =~= v@.subrange(
            from as int,
            to - 1,
        ));
        to = to - 1;
    }
    string_of(&v, from, to)
}

/// The place of the first line feed in `s`, or its length.
pub open spec fn first_newline(s: Seq<char>) -> int
    decreases s.len(),
{
    if s.len() == 0 || s[0] == '\n' {
        0
    } else {
        1 + first_newline(s.drop_first())
    }
}

/// `s` without one carriage return at its end.
pub open spec fn without_return(s: Seq<char>) -> Seq<char> {
    if s.len() > 0 && s.last() == '\r' {
        s.drop_last()
    } else {
        s
    }
}

/// The lines of a text: each ends with a line feed, which may follow a carriage return, and
/// neither belongs to the line; the last line may go without.
pub open spec fn lines_of(s: Seq<char>) -> Seq<Seq<char>>
    decreases s.len(),
    via lines_of_decreases
{
    if s.len() == 0 {
        Seq::empty()
    } else {
        let i = first_newline(s);
        if i >= s.len() {
            seq![s]
        } else {
            seq![without_return(s.take(i))] + lines_of(s.skip(i + 1))
        }
    }
}

#[via_fn]
proof fn lines_of_decreases(s: Seq<char>) {
    lemma_first_newline(s);
}

pub proof fn lemma_first_newline(s: Seq<char>)
    ensures
        0 <= first_newline(s) <= s.len(),
        forall|i: int| 0 <= i < first_newline(s) ==> s[i] != '\n',
        first_newline(s) < s.len() ==> s[first_newline(s)] == '\n',
    decreases s.len(),
{
    if s.len() > 0 && s[0] != '\n' {
        lemma_first_newline(s.drop_first());
        assert forall|i: int| 0 <= i < first_newline(s) implies s[i] != '\n' by {
            if i > 0 {
                assert(s.drop_first()[i - 1] == s[i]);
            }
        }
    }
}

/// Splits a text into its lines.
pub fn lines(s: &str) -> (r: Vec<String>)
    ensures
        texts(r@) == lines_of(s@),
{
    let v = chars_of(s);
    let mut r: Vec<String> = Vec::new();
    let mut from: usize = 0;
    assert(v@.skip(0) =~= v@);
    assert(texts(r@) =~= Seq::<Seq<char>>::empty());
    assert(texts(r@) + lines_of(v@) =~= lines_of(v@));
    while from < v.len()
        invariant
            from <= v@.len(),
            v@ == s@,
            lines_of(s@) == texts(r@) + lines_of(v@.skip(from as int)),
        decreases v.len() - from,
    {
        let ghost rest = v@.skip(from as int);
        let ghost before = texts(r@);
        let mut to: usize = from;
        assert(rest.skip(0) =~= rest);
        while to < v.len() && v[to] != '\n'
            invariant
                from <= to <= v@.len(),
                rest == v@.skip(from as int),
                first_newline(rest) == to - from + first_newline(rest.skip(to - from)),
            decreases v.len() - to,
        {
            assert(rest.skip(to - from)[0] == v@[to as int]);
            assert(rest.skip(to - from).drop_first() =~= rest.skip(to + 1 - from));
            to = to + 1;
        }
        assert(to < v@.len() ==> rest.skip(to - from)[0] == v@[to as int]);
        assert(first_newline(rest) == to - from);
        if to == v.len() {
            r.push(string_of(&v, from, to));
            assert(v@.subrange(from as int, to as int) =~= rest);
            assert(texts(r@) =~= before + seq![rest]);
            assert(v@.skip(to as int) =~= Seq::<char>::empty());
            assert(texts(r@) + lines_of(v@.skip(to as int)) =~= before + seq![rest]);
            from = to;
        } else {
            let mut end: usize = to;
            if to > from && v[to - 1] == '\r' {
                end = to - 1;
            }
            let line = string_of(&v, from, end);
            let ghost whole = rest.take(to - from);
            proof {
                assert(whole =~= v@.subrange(from as int, to as int));
                if to > from {
                    assert(whole.last() == v@[to - 1]);
                }
                assert(line@ =~= without_return(whole));
                assert(rest.skip(to - from + 1) =~= v@.skip(to + 1));
            }
            r.push(line);
            assert(texts(r@) =~= before + seq![without_return(whole)]);
            assert(before + lines_of(rest) =~= texts(r@) + lines_of(v@.skip(to + 1)));
            from = to + 1;
        }
    }
    assert(v@.skip(from as int) =~= Seq::<char>::empty());
    assert(texts(r@) + lines_of(v@.skip(from as int)) =~= texts(r@));
    r
}

// ---------------------------------------------------------------------------------------------
// Joining
// ---------------------------------------------------------------------------------------------

/// The texts of `parts` one after the other, with `sep` between neighbours.
pub open spec fn joined(parts: Seq<Seq<char>>, sep: Seq<char>) -> Seq<char>
    decreases parts.len(),
{
    if parts.len() == 0 {
        Seq::empty()
    } else if parts.len() == 1 {
        parts[0]
    } else {
        joined(parts.drop_last(), sep) + sep + parts.last()
    }
}

/// Joins strings with a separator.
pub fn join(parts: &Vec<String>, sep: &str) -> (r: String)
    ensures
        r@ == joined(texts(parts@), sep@),
{
    let mut r = String::new();
    let mut i: usize = 0;
    while i < parts.len()
        invariant
            i <= parts@.len(),
            r@ == joined(texts(parts@).take(i as int), sep@),
        decreases parts.len() - i,
    {
        let ghost now = texts(parts@).take(i + 1);
        assert(now.drop_last() =~= texts(parts@).take(i as int));
        if i > 0 {
            r.append(sep);
        }
        r.append(parts[i].as_str());
        proof {
            if i == 0 {
                assert(r@ =~= parts@[0]@);
            }
        }
        i = i + 1;
    }
    assert(texts(parts@).take(parts@.len() as int) =~= texts(parts@));
    r
}

/// A string of `n` spaces.
pub open spec fn spaces(n: int) -> Seq<char> {
    Seq::new(n as nat, |i: int| ' ')
}

/// `s`, moved to the right of a field of `width` characters; a longer text is kept whole.
pub open spec fn right_aligned(s: Seq<char>, width: int) -> Seq<char> {
    if s.len() >= width {
        s
    } else {
        spaces(width - s.len()) + s
    }
}

/// Moves a text to the right of a field.
pub fn align_right(s: &str, width: usize) -> (r: String)
    ensures
        r@ == right_aligned(s@, width as int),
{
    let len: usize = s.unicode_len();
    let mut r = String::new();
    let mut i: usize = len;
    while i < width
        invariant
            len == s@.len(),
            len <= i,
            i <= width || i == len,
            r@ == spaces(i - len),
        decreases width - i,
    {
        r.push(' ');
        assert(r@ =~= spaces(i + 1 - len));
        i = i + 1;
    }
    r.append(s);
    assert(spaces(0) + s@ =~= s@);
    r
}

// ---------------------------------------------------------------------------------------------
// Quoting
// ---------------------------------------------------------------------------------------------

/// What `{:?}` writes for a text: the text in quotes, with escapes for some of its characters.
pub uninterp spec fn debug_form(s: Seq<char>) -> Seq<char>;

/// The text in quotes, as the `Debug` implementation of `str` writes it. That the result depends
/// on the text alone is all that is claimed of it.
#[verifier::external_body]
pub(crate) fn quoted(s: &str) -> (r: String)
    ensures
        r@ == debug_form(s@),
{
    format!("{:?}", s)
}

// ---------------------------------------------------------------------------------------------
// Laws
// ---------------------------------------------------------------------------------------------

pub proof fn lemma_lex_common(a: Seq<int>, b: Seq<int>, k: int)
    requires
        0 <= k <= a.len(),
        k <= b.len(),
        forall|i: int| 0 <= i < k ==> a[i] == b[i],
    ensures
        lex_le(a, b) == lex_le(a.skip(k), b.skip(k)),
    decreases k,
{
    if k > 0 {
        let x = a.drop_first();
        let y = b.drop_first();
        assert forall|i: int| 0 <= i < k - 1 implies x[i] == y[i] by {
            assert(a[i + 1] == b[i + 1]);
        }
        lemma_lex_common(x, y, k - 1);
        assert(x.skip(k - 1) =~= a.skip(k));
        assert(y.skip(k - 1) =~= b.skip(k));
    } else {
        assert(a.skip(0) =~= a);
        assert(b.skip(0) =~= b);
    }
}

/// Texts are ordered by their bytes in UTF-8: where they agree up to a byte, and that byte is less
/// in the one, it comes first; and a text comes before what goes on behind it.
pub proof fn law_texts_are_ordered_by_their_bytes(a: Seq<char>, b: Seq<char>, k: int)
    requires
        0 <= k <= encode_utf8(a).len(),
        k <= encode_utf8(b).len(),
        encode_utf8(a).take(k) == encode_utf8(b).take(k),
    ensures
        k < encode_utf8(a).len() && k < encode_utf8(b).len() && encode_utf8(a)[k] < encode_utf8(
            b,
        )[k] ==> text_le(a, b) && !text_le(b, a) && text_lt(a, b),
        k == encode_utf8(a).len() ==> text_le(a, b),
{
    let x = text_key(a);
    let y = text_key(b);
    assert forall|i: int| 0 <= i < k implies x[i] == y[i] by {
        assert(encode_utf8(a).take(k)[i] == encode_utf8(a)[i]);
        assert(encode_utf8(b).take(k)[i] == encode_utf8(b)[i]);
    }
    lemma_lex_common(x, y, k);
    lemma_lex_common(y, x, k);
    if k < x.len() {
        assert(x.skip(k)[0] == x[k] && x[k] == encode_utf8(a)[k]);
    }
    if k < y.len() {
        assert(y.skip(k)[0] == y[k] && y[k] == encode_utf8(b)[k]);
    }
    if k < x.len() && k < y.len() && x[k] < y[k] && a == b {
        assert(x == y);
    }
}

/// Sorting texts and dropping repetitions leaves the texts that were there, each of them once, in
/// ascending order.
pub proof fn law_sorted_sets(s: Seq<Seq<char>>)
    ensures
        forall|x: Seq<char>| #[trigger] sorted_set(s).contains(x) <==> s.contains(x),
        forall|i: int, j: int|
            0 <= i < j < sorted_set(s).len() ==> {
                &&& text_le(#[trigger] sorted_set(s)[i], #[trigger] sorted_set(s)[j])
                &&& sorted_set(s)[i] != sorted_set(s)[j]
            },
{
    lemma_sorted_set_exists(s);
    let r = sorted_set(s);
    assert forall|x: Seq<char>| #[trigger] r.contains(x) <==> s.contains(x) by {
        assert(r.to_set().contains(x) == s.to_set().contains(x));
    }
}

/// A text stands in another exactly where this is made of something, the text, and something else.
pub proof fn law_occurrences(a: Seq<char>, p: Seq<char>, b: Seq<char>)
    ensures
        occurs_at(a + p + b, p, a.len() as int),
        occurs(a + p + b, p),
        forall|s: Seq<char>, i: int|
            #[trigger] occurs_at(s, p, i) ==> s == s.take(i) + p + s.skip(i + p.len()),
{
    let s = a + p + b;
    assert(s.subrange(a.len() as int, a.len() as int + p.len()) =~= p);
    assert forall|s: Seq<char>, i: int| #[trigger] occurs_at(s, p, i) implies s == s.take(i) + p
        + s.skip(i + p.len()) by {
        assert(s =~= s.take(i) + s.subrange(i, i + p.len()) + s.skip(i + p.len()));
    }
}

proof fn lemma_newline_behind(a: Seq<char>, rest: Seq<char>)
    requires
        forall|i: int| 0 <= i < a.len() ==> #[trigger] a[i] != '\n',
        rest.len() > 0 ==> rest[0] == '\n',
    ensures
        first_newline(a + rest) == a.len(),
    decreases a.len(),
{
    let s = a + rest;
    if a.len() > 0 {
        assert(s[0] == a[0]);
        let b = a.drop_first();
        assert forall|i: int| 0 <= i < b.len() implies #[trigger] b[i] != '\n' by {
            assert(b[i] == a[i + 1]);
        }
        lemma_newline_behind(b, rest);
        assert(s.drop_first() =~= b + rest);
    } else {
        assert(s =~= rest);
    }
}

/// The lines of a text: what stands before a line feed is the first line, but for one carriage
/// return at its end, and the lines of what stands behind it follow; a text without a line feed is
/// one line, and the empty text has none.
pub proof fn law_lines(a: Seq<char>, rest: Seq<char>)
    requires
        forall|i: int| 0 <= i < a.len() ==> #[trigger] a[i] != '\n',
    ensures
        lines_of(Seq::empty()) == Seq::<Seq<char>>::empty(),
        a.len() > 0 ==> lines_of(a) == seq![a],
        a.len() == 0 || a.last() != '\r' ==> lines_of(a + seq!['\n'] + rest) == seq![a] + lines_of(
            rest,
        ),
        lines_of(a + seq!['\r', '\n'] + rest) == seq![a] + lines_of(rest),
{
    let none = Seq::<char>::empty();
    assert(lines_of(none) == Seq::<Seq<char>>::empty());
    lemma_newline_behind(a, none);
    assert(a + none =~= a);
    let t = seq!['\n'] + rest;
    assert(t[0] == '\n');
    let s = a + seq!['\n'] + rest;
    assert(s =~= a + t);
    lemma_newline_behind(a, t);
    assert(s.take(a.len() as int) =~= a);
    assert(s.skip(a.len() + 1int) =~= rest);
    assert(lines_of(s) == seq![without_return(a)] + lines_of(rest));
    let b = a + seq!['\r'];
    let u = a + seq!['\r', '\n'] + rest;
    assert(u =~= b + t);
    assert forall|i: int| 0 <= i < b.len() implies #[trigger] b[i] != '\n' by {
        if i < a.len() {
            assert(b[i] == a[i]);
        } else {
            assert(b[i] == '\r');
        }
    }
    lemma_newline_behind(b, t);
    assert(u.take(b.len() as int) =~= b);
    assert(u.skip(b.len() + 1int) =~= rest);
    assert(b.last() == '\r');
    assert(b.drop_last() =~= a);
    assert(lines_of(u) == seq![without_return(b)] + lines_of(rest));
}

/// Joining puts the separator between neighbours: before what is joined behind the first text.
pub proof fn law_joining(a: Seq<char>, rest: Seq<Seq<char>>, sep: Seq<char>)
    ensures
        joined(Seq::empty(), sep) == Seq::<char>::empty(),
        joined(seq![a], sep) == a,
        rest.len() > 0 ==> joined(seq![a] + rest, sep) == a + sep + joined(rest, sep),
    decreases rest.len(),
{
    let all = seq![a] + rest;
    if rest.len() == 1 {
        assert(all.drop_last() =~= seq![a]);
        assert(all.last() == rest[0]);
        assert(joined(all, sep) == joined(seq![a], sep) + sep + rest[0]);
    } else if rest.len() > 1 {
        law_joining(a, rest.drop_last(), sep);
        assert(all.drop_last() =~= seq![a] + rest.drop_last());
        assert(all.last() == rest.last());
        assert(joined(all, sep) =~= a + sep + joined(rest, sep));
    }
}

/// A text in a field of some width is moved to its right: what comes before it are spaces, as many
/// as are needed to fill the field, and a text that is too long stays whole.
pub proof fn law_right_alignment(s: Seq<char>, width: nat)
    ensures
        ({
            let r = right_aligned(s, width as int);
            &&& s.len() <= r.len()
            &&& r.len() == width || (r.len() == s.len() && s.len() > width)
            &&& r.skip(r.len() - s.len()) == s
            &&& forall|i: int| 0 <= i < r.len() - s.len() ==> #[trigger] r[i] == ' '
        }),
{
    let r = right_aligned(s, width as int);
    assert(r.skip(r.len() - s.len()) =~= s);
}

} // verus!
