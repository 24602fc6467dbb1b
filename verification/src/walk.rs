//! The walk over the tree of GC roots, and the grouping of the roots that it finds.

use vstd::prelude::*;
use vstd::string::*;
use vstd::utf8::{decode_utf8, valid_utf8};

use crate::paths::{
    decode_lossy, decode_strict, file_name, file_name_of, lossy_text, path_at_most, path_key,
    path_le,
};
use crate::sort::{in_order, merge_sort, peers, same, sorted_from, Preorder};
use crate::text::{
    chars_of, ends_with, find, join, joined, law_occurrences, law_sorted_sets,
    lemma_ascending_unique, lemma_lex_antisymmetric, lemma_lex_total, lemma_lex_transitive,
    lemma_text_antisymmetric, occurs, occurs_at, same_text,
    sort_and_dedup, sorted_set, starts_with, string_of, text_at_most, text_key, text_le, text_lt,
    texts,
};

verus! {

/// What a group of roots stands for.
#[derive(Clone, Copy, PartialEq, Eq, Structural, Debug)]
pub enum Kind {
    /// The roots of one direnv project.
    Direnv,
    /// A root of its own.
    Single,
}

impl Kind {
    /// The name of a kind.
    pub open spec fn name(self) -> Seq<char> {
        match self {
            Kind::Direnv => "direnv"@,
            Kind::Single => "single"@,
        }
    }

    pub fn as_str(self) -> (r: &'static str)
        ensures
            r@ == self.name(),
    {
        match self {
            Kind::Direnv => "direnv",
            Kind::Single => "single",
        }
    }
}

/// One logical group of GC roots (a direnv project, or a single standalone root).
pub struct Group {
    /// Grouping identity (project directory for direnv, indirect path for single).
    pub key: String,
    /// Display location.
    pub loc: String,
    pub kind: Kind,
    /// Deduplicated, sorted `/nix/store/...` paths of the group's members.
    pub members: Vec<String>,
    /// Deduplicated, sorted indirect symlink paths.
    pub links: Vec<String>,
    /// Newest member mtime (epoch seconds).
    pub newest_mtime: u64,
    /// Number of raw roots collapsed into this group.
    pub count: usize,
    /// Every member sits in a user-writable directory.
    pub writable: bool,
    /// Any member is a protected `current-*` / `booted-*` root.
    pub protected: bool,
}

impl Group {
    /// Whether the current user may remove the group.
    pub open spec fn may_delete(self) -> bool {
        self.writable && !self.protected
    }

    /// Removable by the current user: writable everywhere and not protected.
    pub fn deletable(&self) -> (r: bool)
        ensures
            r == self.may_delete(),
    {
        self.writable && !self.protected
    }

    /// Cache key: the immutable member set determines the union closure size.
    pub fn member_key(&self) -> (r: String)
        ensures
            r@ == set_key(texts(self.members@)),
    {
        join(&self.members, "\n")
    }
}

/// The cache key of a member set.
pub open spec fn set_key(members: Seq<Seq<char>>) -> Seq<char> {
    joined(members, "\n"@)
}

// ---------------------------------------------------------------------------------------------
// Names and paths
// ---------------------------------------------------------------------------------------------

/// Whether a root of this name must never be offered for deletion.
pub open spec fn protected_name(name: Seq<char>) -> bool {
    ||| name == "current"@
    ||| "current-"@.is_prefix_of(name)
    ||| "-current"@.is_suffix_of(name)
    ||| "booted-"@.is_prefix_of(name)
}

/// A protected "current" root that must never be offered for deletion.
pub fn is_protected(name: &str) -> (r: bool)
    ensures
        r == protected_name(name@),
{
    same_text(name, "current") || starts_with(name, "current-") || ends_with(name, "-current")
        || starts_with(name, "booted-")
}

/// The group key, display location and kind of the indirect path `s`, in this order.
pub open spec fn class_of(s: Seq<char>) -> (Seq<char>, Seq<char>, Kind) {
    if occurs(s, "/.direnv/"@) {
        let i = choose|i: int|
            occurs_at(s, "/.direnv/"@, i) && forall|j: int|
                0 <= j < i ==> !occurs_at(s, "/.direnv/"@, j);
        (s.take(i), s.take(i) + "/.direnv/  (direnv)"@, Kind::Direnv)
    } else {
        (s, s, Kind::Single)
    }
}

/// The group key, display location, and kind of an indirect path.
pub fn classify(indirect: &str) -> (r: (String, String, Kind))
    ensures
        (r.0@, r.1@, r.2) == class_of(indirect@),
{
    let v = chars_of(indirect);
    match find(&v, "/.direnv/") {
        Some(i) => {
            let key = string_of(&v, 0, i);
            proof {
                let s = indirect@;
                let k = choose|k: int|
                    occurs_at(s, "/.direnv/"@, k) && forall|j: int|
                        0 <= j < k ==> !occurs_at(s, "/.direnv/"@, j);
                assert(occurs_at(s, "/.direnv/"@, i as int) && forall|j: int|
                    0 <= j < i ==> !occurs_at(s, "/.direnv/"@, j));
                assert(k == i);
                assert(key@ =~= s.take(i as int));
            }
            let loc = String::from_str(key.as_str()).concat("/.direnv/  (direnv)");
            (key, loc, Kind::Direnv)
        },
        None => (String::from_str(indirect), String::from_str(indirect), Kind::Single),
    }
}

/// Where the first part of a path ends: at its first slash, or at its end.
pub open spec fn first_slash(s: Seq<char>) -> int
    decreases s.len(),
{
    if s.len() == 0 || s[0] == '/' {
        0
    } else {
        1 + first_slash(s.drop_first())
    }
}

/// The store path that the resolved path `s` belongs to; nothing for a path outside the store.
pub open spec fn store_path_of(s: Seq<char>) -> Option<Seq<char>> {
    let store = "/nix/store/"@;
    if store.is_prefix_of(s) {
        let rest = s.skip(store.len() as int);
        if first_slash(rest) == 0 {
            None
        } else {
            Some(store + rest.take(first_slash(rest)))
        }
    } else {
        None
    }
}

/// A string by its text.
pub open spec fn text_view(r: Option<String>) -> Option<Seq<char>> {
    match r {
        Some(s) => Some(s@),
        None => None,
    }
}

/// Reduces a fully resolved path to its `/nix/store/<name>` root, or `None` if it is not under
/// the store.
pub fn store_path(canonical: &str) -> (r: Option<String>)
    ensures
        text_view(r) == store_path_of(canonical@),
{
    if !starts_with(canonical, "/nix/store/") {
        return None;
    }
    let v = chars_of(canonical);
    let from: usize = "/nix/store/".unicode_len();
    let ghost rest = v@.skip(from as int);
    let mut i: usize = from;
    assert(rest.skip(0) =~= rest);
    while i < v.len() && v[i] != '/'
        invariant
            from <= i <= v@.len(),
            rest == v@.skip(from as int),
            first_slash(rest) == i - from + first_slash(rest.skip(i - from)),
        decreases v.len() - i,
    {
        assert(rest.skip(i - from)[0] == v@[i as int]);
        assert(rest.skip(i - from).drop_first() =~= rest.skip(i + 1 - from));
        i = i + 1;
    }
    assert(i < v@.len() ==> rest.skip(i - from)[0] == v@[i as int]);
    assert(first_slash(rest) == i - from);
    if i == from {
        None
    } else {
        let r = string_of(&v, 0, i);
        assert(r@ =~= "/nix/store/"@ + rest.take(i - from));
        Some(r)
    }
}

// ---------------------------------------------------------------------------------------------
// Grouping
// ---------------------------------------------------------------------------------------------

/// One root, as it counts for its group.
pub struct Entry {
    pub key: String,
    pub loc: String,
    pub kind: Kind,
    /// The store path that the root resolves to, if any.
    pub member: Option<String>,
    /// The path of the indirect symlink.
    pub link: String,
    pub mtime: u64,
    pub writable: bool,
    pub protected: bool,
}

/// One root, as it counts for its group, by its texts.
pub struct EntryView {
    pub key: Seq<char>,
    pub loc: Seq<char>,
    pub kind: Kind,
    pub member: Option<Seq<char>>,
    pub link: Seq<char>,
    pub mtime: u64,
    pub writable: bool,
    pub protected: bool,
}

impl View for Entry {
    type V = EntryView;

    open spec fn view(&self) -> EntryView {
        EntryView {
            key: self.key@,
            loc: self.loc@,
            kind: self.kind,
            member: text_view(self.member),
            link: self.link@,
            mtime: self.mtime,
            writable: self.writable,
            protected: self.protected,
        }
    }
}

/// Entries by their texts.
pub open spec fn entries_view(s: Seq<Entry>) -> Seq<EntryView> {
    s.map_values(|e: Entry| e@)
}

/// The entries of one key, in their order.
pub open spec fn with_key(s: Seq<EntryView>, key: Seq<char>) -> Seq<EntryView> {
    s.filter(|e: EntryView| e.key == key)
}

/// The store paths of entries, of those that have one.
pub open spec fn members_of(s: Seq<EntryView>) -> Seq<Seq<char>>
    decreases s.len(),
{
    if s.len() == 0 {
        Seq::empty()
    } else {
        match s.last().member {
            Some(m) => members_of(s.drop_last()).push(m),
            None => members_of(s.drop_last()),
        }
    }
}

/// The links of entries.
pub open spec fn links_of(s: Seq<EntryView>) -> Seq<Seq<char>> {
    s.map_values(|e: EntryView| e.link)
}

/// The greatest mtime among entries, zero where there are none.
pub open spec fn newest(s: Seq<EntryView>) -> u64
    decreases s.len(),
{
    if s.len() == 0 {
        0
    } else if s.last().mtime > newest(s.drop_last()) {
        s.last().mtime
    } else {
        newest(s.drop_last())
    }
}

/// Whether the group `g` sums up the entries `s`: the first of them gives its location and kind.
pub open spec fn sums_up(g: Group, s: Seq<EntryView>) -> bool {
    &&& s.len() > 0
    &&& g.loc@ == s[0].loc
    &&& g.kind == s[0].kind
    &&& texts(g.members@) == sorted_set(members_of(s))
    &&& texts(g.links@) == sorted_set(links_of(s))
    &&& g.newest_mtime == newest(s)
    &&& g.count == s.len()
    &&& g.writable == (forall|i: int| 0 <= i < s.len() ==> (#[trigger] s[i]).writable)
    &&& g.protected == (exists|i: int| 0 <= i < s.len() && (#[trigger] s[i]).protected)
}

/// Whether `groups` are the groups of the entries `s`: one for each key, in the order of the keys.
pub open spec fn grouping(groups: Seq<Group>, s: Seq<EntryView>) -> bool {
    &&& forall|i: int, j: int|
        0 <= i < j < groups.len() ==> text_lt(
            (#[trigger] groups[i]).key@,
            (#[trigger] groups[j]).key@,
        )
    &&& forall|i: int|
        0 <= i < groups.len() ==> sums_up(
            #[trigger] groups[i],
            with_key(s, groups[i].key@),
        )
    &&& forall|a: int|
        0 <= a < s.len() ==> exists|i: int|
            0 <= i < groups.len() && (#[trigger] groups[i]).key@ == (#[trigger] s[a]).key
}

/// The order of entries by their keys.
struct ByKey;

impl Preorder<Entry> for ByKey {
    closed spec fn le(&self, a: Entry, b: Entry) -> bool {
        text_le(a.key@, b.key@)
    }

    proof fn total(&self, a: Entry, b: Entry) {
        lemma_lex_total(text_key(a.key@), text_key(b.key@));
    }

    proof fn transitive(&self, a: Entry, b: Entry, c: Entry) {
        lemma_lex_transitive(text_key(a.key@), text_key(b.key@), text_key(c.key@));
    }

    fn test(&self, a: &Entry, b: &Entry) -> (r: bool) {
        text_at_most(a.key.as_str(), b.key.as_str())
    }
}

/// Filtering entries by their texts is filtering their texts.
proof fn lemma_filter_view(s: Seq<Entry>, p: spec_fn(Entry) -> bool, key: Seq<char>)
    requires
        forall|e: Entry| #[trigger] p(e) == (e.key@ == key),
    ensures
        entries_view(s.filter(p)) == with_key(entries_view(s), key),
    decreases s.len(),
{
    reveal(Seq::filter);
    if s.len() == 0 {
        assert(entries_view(s.filter(p)) =~= with_key(entries_view(s), key));
    } else {
        let t = s.drop_last();
        lemma_filter_view(t, p, key);
        assert(entries_view(s).drop_last() =~= entries_view(t));
        assert(entries_view(s).last() == s.last()@);
        assert(p(s.last()) == (s.last().key@ == key));
        assert(entries_view(s.filter(p)) =~= with_key(entries_view(s), key));
    }
}

/// Sorting entries by key keeps the entries of each key, and their order.
proof fn lemma_sorting_keeps_keys(r: Seq<Entry>, s: Seq<Entry>, key: Seq<char>)
    requires
        sorted_from(&ByKey, r, s),
    ensures
        with_key(entries_view(r), key) == with_key(entries_view(s), key),
{
    let p = |e: Entry| e.key@ == key;
    lemma_filter_view(r, p, key);
    lemma_filter_view(s, p, key);
    if exists|e: Entry| e.key@ == key {
        let x = choose|e: Entry| e.key@ == key;
        let q = |y: Entry| same(&ByKey, x, y);
        assert forall|e: Entry| #[trigger] q(e) == (e.key@ == key) by {
            if q(e) {
                lemma_text_antisymmetric(x.key@, e.key@);
            }
            if e.key@ == key {
                crate::text::lemma_lex_reflexive(text_key(key));
            }
        }
        lemma_filter_view(r, q, key);
        lemma_filter_view(s, q, key);
        assert(peers(&ByKey, r, x) == peers(&ByKey, s, x));
    } else {
        lemma_filter_none(entries_view(r), key);
        lemma_filter_none(entries_view(s), key);
        assert forall|i: int| 0 <= i < r.len() implies r[i].key@ != key by {}
    }
}

/// Where no entry has a key, there are none of it.
proof fn lemma_filter_none(s: Seq<EntryView>, key: Seq<char>)
    requires
        forall|i: int| 0 <= i < s.len() ==> (#[trigger] s[i]).key != key,
    ensures
        with_key(s, key) == Seq::<EntryView>::empty(),
    decreases s.len(),
{
    reveal(Seq::filter);
    if s.len() > 0 {
        let t = s.drop_last();
        assert forall|i: int| 0 <= i < t.len() implies (#[trigger] t[i]).key != key by {
            assert(t[i] == s[i]);
        }
        lemma_filter_none(t, key);
        assert(s[s.len() - 1].key != key);
    }
}

/// Where every entry has a key, all of them are of it.
proof fn lemma_filter_all(s: Seq<EntryView>, key: Seq<char>)
    requires
        forall|i: int| 0 <= i < s.len() ==> (#[trigger] s[i]).key == key,
    ensures
        with_key(s, key) == s,
    decreases s.len(),
{
    reveal(Seq::filter);
    if s.len() > 0 {
        let t = s.drop_last();
        assert forall|i: int| 0 <= i < t.len() implies (#[trigger] t[i]).key == key by {
            assert(t[i] == s[i]);
        }
        lemma_filter_all(t, key);
        assert(s[s.len() - 1].key == key);
        assert(t.push(s.last()) =~= s);
    } else {
        assert(with_key(s, key) =~= s);
    }
}

/// The entries of one key that stand together are all entries of it.
proof fn lemma_run(s: Seq<EntryView>, i: int, j: int, key: Seq<char>)
    requires
        0 <= i <= j <= s.len(),
        forall|a: int| 0 <= a < i ==> (#[trigger] s[a]).key != key,
        forall|a: int| i <= a < j ==> (#[trigger] s[a]).key == key,
        forall|a: int| j <= a < s.len() ==> (#[trigger] s[a]).key != key,
    ensures
        with_key(s, key) == s.subrange(i, j),
{
    let a = s.take(i);
    let b = s.subrange(i, j);
    let c = s.skip(j);
    assert(s =~= a + b + c);
    let p = |e: EntryView| e.key == key;
    Seq::filter_distributes_over_add(a + b, c, p);
    Seq::filter_distributes_over_add(a, b, p);
    assert forall|k: int| 0 <= k < a.len() implies (#[trigger] a[k]).key != key by {
        assert(a[k] == s[k]);
    }
    assert forall|k: int| 0 <= k < b.len() implies (#[trigger] b[k]).key == key by {
        assert(b[k] == s[i + k]);
    }
    assert forall|k: int| 0 <= k < c.len() implies (#[trigger] c[k]).key != key by {
        assert(c[k] == s[j + k]);
    }
    lemma_filter_none(a, key);
    lemma_filter_all(b, key);
    lemma_filter_none(c, key);
    assert(with_key(s, key) =~= b);
}

/// Sums up the entries from `i` up to `j`, which all have one key.
fn sum_up(s: &Vec<Entry>, i: usize, j: usize) -> (g: Group)
    requires
        i < j <= s@.len(),
    ensures
        g.key@ == s@[i as int].key@,
        sums_up(g, entries_view(s@).subrange(i as int, j as int)),
{
    let ghost all = entries_view(s@);
    let ghost mine = all.subrange(i as int, j as int);
    let mut members: Vec<String> = Vec::new();
    let mut links: Vec<String> = Vec::new();
    let mut newest_mtime: u64 = 0;
    let mut writable = true;
    let mut protected = false;
    let mut k: usize = i;
    assert(texts(members@) =~= Seq::<Seq<char>>::empty());
    while k < j
        invariant
            i <= k <= j <= s@.len(),
            all == entries_view(s@),
            texts(members@) == members_of(all.subrange(i as int, k as int)),
            texts(links@) == links_of(all.subrange(i as int, k as int)),
            newest_mtime == newest(all.subrange(i as int, k as int)),
            writable == (forall|a: int| i <= a < k ==> (#[trigger] all[a]).writable),
            protected == (exists|a: int| i <= a < k && (#[trigger] all[a]).protected),
        decreases j - k,
    {
        let ghost now = all.subrange(i as int, k + 1);
        let ghost m0 = texts(members@);
        let ghost l0 = texts(links@);
        assert(now.drop_last() =~= all.subrange(i as int, k as int));
        assert(now.last() == s@[k as int]@);
        assert(all[k as int] == s@[k as int]@);
        let e = &s[k];
        match &e.member {
            Some(m) => {
                members.push(m.clone());
                assert(texts(members@) =~= m0.push(m@));
            },
            None => {},
        }
        links.push(e.link.clone());
        assert(texts(links@) =~= l0.push(e.link@));
        assert(links_of(now) =~= links_of(now.drop_last()).push(e.link@));
        if e.mtime > newest_mtime {
            newest_mtime = e.mtime;
        }
        writable = writable && e.writable;
        protected = protected || e.protected;
        k = k + 1;
    }
    proof {
        assert forall|a: int| 0 <= a < mine.len() implies #[trigger] mine[a] == all[i + a] by {}
        if writable {
            assert(forall|a: int| 0 <= a < mine.len() ==> (#[trigger] mine[a]).writable);
        } else {
            let a = choose|a: int| i <= a < j && !(#[trigger] all[a]).writable;
            assert(!mine[a - i].writable);
        }
        if protected {
            let a = choose|a: int| i <= a < j && (#[trigger] all[a]).protected;
            assert(mine[a - i].protected);
        }
        assert(mine[0] == s@[i as int]@);
    }
    Group {
        key: s[i].key.clone(),
        loc: s[i].loc.clone(),
        kind: s[i].kind,
        members: sort_and_dedup(members),
        links: sort_and_dedup(links),
        newest_mtime,
        count: j - i,
        writable,
        protected,
    }
}

/// Whether `groups` are the groups of the first `i` of the sorted entries `all`; `home` tells for
/// each of these the place of its group.
spec fn grouped_up_to(
    groups: Seq<Group>,
    all: Seq<EntryView>,
    i: int,
    home: Seq<int>,
) -> bool {
    &&& home.len() == i
    &&& forall|x: int, y: int|
        0 <= x < y < groups.len() ==> text_lt(
            (#[trigger] groups[x]).key@,
            (#[trigger] groups[y]).key@,
        )
    &&& forall|x: int|
        0 <= x < groups.len() ==> sums_up(#[trigger] groups[x], with_key(all, groups[x].key@))
    &&& forall|x: int|
        0 <= x < groups.len() && i < all.len() ==> text_lt(
            (#[trigger] groups[x]).key@,
            all[i].key,
        )
    &&& forall|a: int|
        0 <= a < i ==> 0 <= #[trigger] home[a] < groups.len() && groups[home[a]].key@ == all[a].key
}

/// One more group, of the entries from `i` up to `j`.
proof fn lemma_one_more_group(
    groups: Seq<Group>,
    all: Seq<EntryView>,
    i: int,
    j: int,
    home: Seq<int>,
    g: Group,
) -> (r: Seq<int>)
    requires
        0 <= i < j <= all.len(),
        grouped_up_to(groups, all, i, home),
        g.key@ == all[i].key,
        sums_up(g, with_key(all, g.key@)),
        forall|a: int| i <= a < j ==> (#[trigger] all[a]).key == g.key@,
        j < all.len() ==> text_lt(g.key@, all[j].key),
    ensures
        grouped_up_to(groups.push(g), all, j, r),
{
    let more = groups.push(g);
    let n = groups.len() as int;
    let r = home + Seq::new((j - i) as nat, |k: int| n);
    assert forall|x: int, y: int| 0 <= x < y < more.len() implies text_lt(
        (#[trigger] more[x]).key@,
        (#[trigger] more[y]).key@,
    ) by {
        assert(more[x] == groups[x]);
        if y < n {
            assert(more[y] == groups[y]);
        }
    }
    assert forall|x: int| 0 <= x < more.len() implies sums_up(
        #[trigger] more[x],
        with_key(all, more[x].key@),
    ) by {
        if x < n {
            assert(more[x] == groups[x]);
        }
    }
    assert forall|x: int| 0 <= x < more.len() && j < all.len() implies text_lt(
        (#[trigger] more[x]).key@,
        all[j].key,
    ) by {
        if x < n {
            assert(more[x] == groups[x]);
            lemma_lex_transitive(
                text_key(groups[x].key@),
                text_key(g.key@),
                text_key(all[j].key),
            );
            if groups[x].key@ == all[j].key {
                lemma_text_antisymmetric(groups[x].key@, g.key@);
            }
        }
    }
    assert forall|a: int| 0 <= a < j implies 0 <= #[trigger] r[a] < more.len()
        && more[r[a]].key@ == all[a].key by {
        if a < i {
            assert(r[a] == home[a]);
            assert(more[home[a]] == groups[home[a]]);
        } else {
            assert(r[a] == n);
            assert(all[a].key == g.key@);
        }
    }
    r
}

/// Behind the entries of one key, in sorted order, come greater keys only, and before them only
/// smaller ones.
proof fn lemma_run_ends(s: Seq<Entry>, i: int, j: int)
    requires
        in_order(&ByKey, s),
        0 <= i < j <= s.len(),
        i > 0 ==> s[i - 1].key@ != s[i].key@,
        forall|a: int| i <= a < j ==> (#[trigger] s[a]).key@ == s[i].key@,
        j < s.len() ==> s[j].key@ != s[i].key@,
    ensures
        j < s.len() ==> text_lt(s[i].key@, s[j].key@),
        forall|a: int| 0 <= a < i ==> (#[trigger] s[a]).key@ != s[i].key@,
        forall|a: int| j <= a < s.len() ==> (#[trigger] s[a]).key@ != s[i].key@,
{
    if j < s.len() {
        assert(ByKey.le(s[i], s[j]));
    }
    assert forall|a: int| j <= a < s.len() implies (#[trigger] s[a]).key@ != s[i].key@ by {
        if a > j && s[a].key@ == s[i].key@ {
            assert(ByKey.le(s[j], s[a]));
            lemma_text_antisymmetric(s[j].key@, s[i].key@);
        }
    }
    assert forall|a: int| 0 <= a < i implies (#[trigger] s[a]).key@ != s[i].key@ by {
        if a < i - 1 && s[a].key@ == s[i].key@ {
            assert(ByKey.le(s[a], s[i - 1]));
            assert(ByKey.le(s[i - 1], s[i]));
            lemma_text_antisymmetric(s[i - 1].key@, s[i].key@);
        }
    }
}

/// Folds roots into groups.
pub fn group_entries(entries: Vec<Entry>) -> (r: Vec<Group>)
    ensures
        grouping(r@, entries_view(entries@)),
{
    let sorted = merge_sort(&ByKey, entries);
    let ghost all = entries_view(sorted@);
    let mut r: Vec<Group> = Vec::new();
    let mut i: usize = 0;
    let ghost mut home: Seq<int> = Seq::empty();
    while i < sorted.len()
        invariant
            i <= sorted@.len(),
            all == entries_view(sorted@),
            in_order(&ByKey, sorted@),
            0 < i < sorted@.len() ==> sorted@[i - 1].key@ != sorted@[i as int].key@,
            grouped_up_to(r@, all, i as int, home),
        decreases sorted.len() - i,
    {
        let ghost key = sorted@[i as int].key@;
        let mut j: usize = i + 1;
        while j < sorted.len() && same_text(sorted[i].key.as_str(), sorted[j].key.as_str())
            invariant
                i < j <= sorted@.len(),
                key == sorted@[i as int].key@,
                forall|a: int| i <= a < j ==> (#[trigger] sorted@[a]).key@ == key,
            decreases sorted.len() - j,
        {
            j = j + 1;
        }
        let g = sum_up(&sorted, i, j);
        proof {
            lemma_run_ends(sorted@, i as int, j as int);
            assert forall|a: int| 0 <= a < all.len() implies (#[trigger] all[a]).key
                == sorted@[a].key@ by {}
            lemma_run(all, i as int, j as int, key);
            home = lemma_one_more_group(r@, all, i as int, j as int, home, g);
        }
        r.push(g);
        i = j;
    }
    proof {
        let given = entries_view(entries@);
        assert forall|x: int| 0 <= x < r@.len() implies sums_up(
            #[trigger] r@[x],
            with_key(given, r@[x].key@),
        ) by {
            lemma_sorting_keeps_keys(sorted@, entries@, r@[x].key@);
        }
        assert forall|a: int| 0 <= a < given.len() implies exists|x: int|
            0 <= x < r@.len() && (#[trigger] r@[x]).key@ == (#[trigger] given[a]).key by {
            broadcast use vstd::seq_lib::group_to_multiset_ensures;

            let e = entries@[a];
            assert(entries@.contains(e));
            assert(entries@.to_multiset().count(e) > 0);
            assert(sorted@.contains(e));
            let b = choose|b: int| 0 <= b < sorted@.len() && sorted@[b] == e;
            assert(all[b].key == e.key@);
            assert(given[a].key == e.key@);
            assert(r@[home[b]].key@ == all[b].key);
        }
    }
    r
}

// ---------------------------------------------------------------------------------------------
// Scanning
// ---------------------------------------------------------------------------------------------

/// What the file system says of one symlink under the GC roots.
pub struct Probe {
    /// The symlink itself.
    pub link: Vec<u8>,
    /// Where it points, one level on.
    pub indirect: Vec<u8>,
    /// Whether there is anything at `indirect`, be it a dangling symlink.
    pub present: bool,
    /// Where `link` ends up when every symlink is followed.
    pub canonical: Option<Vec<u8>>,
    /// The mtime of what is at `indirect` itself (epoch seconds).
    pub indirect_mtime: Option<u64>,
    /// The mtime of `link` itself (epoch seconds).
    pub link_mtime: Option<u64>,
    /// Whether the current user can unlink entries in the directory of `indirect`, if it has one.
    pub writable: Option<bool>,
}

/// The store path of a resolved path, which must be UTF-8.
pub open spec fn member_of(canonical: Option<Vec<u8>>) -> Option<Seq<char>> {
    match canonical {
        Some(c) => if valid_utf8(c@) {
            store_path_of(decode_utf8(c@))
        } else {
            None
        },
        None => None,
    }
}

/// Whether the last part of a path is UTF-8 and a protected name.
pub open spec fn protected_path(p: Seq<u8>) -> bool {
    match file_name_of(p) {
        Some(n) => valid_utf8(n) && protected_name(decode_utf8(n)),
        None => false,
    }
}

/// The entry of a root whose indirect path reads as `text`.
#[verifier::opaque]
pub open spec fn entry_of(p: Probe, text: Seq<char>) -> EntryView {
    EntryView {
        key: class_of(text).0,
        loc: class_of(text).1,
        kind: class_of(text).2,
        member: member_of(p.canonical),
        link: text,
        mtime: match p.indirect_mtime {
            Some(t) => t,
            None => match p.link_mtime {
                Some(t) => t,
                None => 0,
            },
        },
        writable: p.writable == Some(true),
        protected: protected_path(p.indirect@),
    }
}

/// The entries of the roots that are still there, in their order.
pub open spec fn entries_in(order: Seq<Probe>) -> Seq<EntryView>
    decreases order.len(),
{
    if order.len() == 0 {
        Seq::empty()
    } else {
        let p = order.last();
        let before = entries_in(order.drop_last());
        if p.present {
            before.push(entry_of(p, lossy_text(p.indirect@)))
        } else {
            before
        }
    }
}

/// The order of the symlinks of one walk.
pub struct ByLink;

impl Preorder<Probe> for ByLink {
    open spec fn le(&self, a: Probe, b: Probe) -> bool {
        path_le(a.link@, b.link@)
    }

    proof fn total(&self, a: Probe, b: Probe) {
        lemma_lex_total(path_key(a.link@), path_key(b.link@));
    }

    proof fn transitive(&self, a: Probe, b: Probe, c: Probe) {
        lemma_lex_transitive(path_key(a.link@), path_key(b.link@), path_key(c.link@));
    }

    fn test(&self, a: &Probe, b: &Probe) -> (r: bool) {
        path_at_most(a.link.as_slice(), b.link.as_slice())
    }
}

/// The entry of a root whose indirect path reads as `text`.
pub fn entry(p: &Probe, text: &str) -> (r: Entry)
    ensures
        r@ == entry_of(*p, text@),
{
    reveal(entry_of);
    let member = match &p.canonical {
        Some(c) => match decode_strict(c.as_slice()) {
            Some(s) => store_path(s.as_str()),
            None => None,
        },
        None => None,
    };
    let protected = match file_name(p.indirect.as_slice()) {
        Some(n) => match decode_strict(n.as_slice()) {
            Some(s) => is_protected(s.as_str()),
            None => false,
        },
        None => false,
    };
    let mtime: u64 = match p.indirect_mtime {
        Some(t) => t,
        None => match p.link_mtime {
            Some(t) => t,
            None => 0,
        },
    };
    let writable = match p.writable {
        Some(w) => w,
        None => false,
    };
    let (key, loc, kind) = classify(text);
    Entry {
        key,
        loc,
        kind,
        member,
        link: String::from_str(text),
        mtime,
        writable,
        protected,
    }
}

/// The entries of the roots that are still there.
fn entries_from(sorted: &Vec<Probe>) -> (r: Vec<Entry>)
    ensures
        entries_view(r@) == entries_in(sorted@),
{
    let mut entries: Vec<Entry> = Vec::new();
    let mut i: usize = 0;
    assert(entries_view(entries@) =~= Seq::<EntryView>::empty());
    while i < sorted.len()
        invariant
            i <= sorted@.len(),
            entries_view(entries@) == entries_in(sorted@.take(i as int)),
        decreases sorted.len() - i,
    {
        let p = &sorted[i];
        let ghost before = entries_view(entries@);
        assert(sorted@.take(i + 1).drop_last() =~= sorted@.take(i as int));
        if p.present {
            let text = decode_lossy(p.indirect.as_slice());
            let e = entry(p, text.as_str());
            entries.push(e);
            assert(entries_view(entries@) =~= before.push(e@));
        }
        i = i + 1;
    }
    assert(sorted@.take(sorted@.len() as int) =~= sorted@);
    entries
}

/// Groups the roots that were found. Already-deleted (dangling) roots awaiting garbage collection
/// are skipped. The order in which they were found does not matter: they are taken in the order of
/// their symlinks.
pub fn scan(probes: Vec<Probe>) -> (r: Vec<Group>)
    ensures
        exists|order: Seq<Probe>|
            #[trigger] sorted_from(&ByLink, order, probes@) && grouping(r@, entries_in(order)),
{
    let sorted = merge_sort(&ByLink, probes);
    let r = group_entries(entries_from(&sorted));
    assert(sorted_from(&ByLink, sorted@, probes@));
    r
}

/// What a root must be to be offered for deletion: a group may be deleted exactly if every one of
/// its roots sits in a directory that the user can write to and none of them is protected.
pub proof fn law_only_own_unprotected_roots(groups: Seq<Group>, s: Seq<EntryView>, i: int)
    requires
        grouping(groups, s),
        0 <= i < groups.len(),
    ensures
        groups[i].may_delete() <==> forall|a: int|
            0 <= a < s.len() && (#[trigger] s[a]).key == groups[i].key@ ==> s[a].writable
                && !s[a].protected,
{
    let key = groups[i].key@;
    let mine = with_key(s, key);
    let p = |e: EntryView| e.key == key;
    assert(sums_up(groups[i], mine));
    if groups[i].may_delete() {
        assert forall|a: int| 0 <= a < s.len() && (#[trigger] s[a]).key == key implies s[a].writable
            && !s[a].protected by {
            s.lemma_filter_contains(p, a);
            let k = choose|k: int| 0 <= k < mine.len() && mine[k] == s[a];
            assert(mine[k].writable && !mine[k].protected);
        }
    } else {
        let k = if !groups[i].writable {
            choose|k: int| 0 <= k < mine.len() && !(#[trigger] mine[k]).writable
        } else {
            choose|k: int| 0 <= k < mine.len() && (#[trigger] mine[k]).protected
        };
        s.lemma_filter_pred(p, k);
        assert(mine.contains(mine[k]));
        s.lemma_filter_contains_rev(p, mine[k]);
        let a = choose|a: int| 0 <= a < s.len() && s[a] == mine[k];
        assert(s[a].key == key);
    }
}

/// Whether the group at `i` is the one with this key.
pub open spec fn only_group_of(groups: Seq<Group>, key: Seq<char>, i: int) -> bool {
    &&& 0 <= i < groups.len()
    &&& groups[i].key@ == key
    &&& forall|j: int| 0 <= j < groups.len() && (#[trigger] groups[j]).key@ == key ==> j == i
}

/// No two groups share a root: a root belongs to the group of its key, and there is one of it.
pub proof fn law_every_root_in_one_group(groups: Seq<Group>, s: Seq<EntryView>, a: int)
    requires
        grouping(groups, s),
        0 <= a < s.len(),
    ensures
        exists|i: int| #[trigger] only_group_of(groups, s[a].key, i),
{
    let key = s[a].key;
    let i = choose|i: int| 0 <= i < groups.len() && (#[trigger] groups[i]).key@ == key;
    assert forall|j: int| 0 <= j < groups.len() && (#[trigger] groups[j]).key@ == key implies j
        == i by {
        if j != i {
            assert(text_lt(key, key));
        }
    }
    assert(only_group_of(groups, key, i));
}

/// All roots below the `.direnv` directory of one project have one key, so they are in one group,
/// which shows where that directory is.
pub proof fn law_direnv_roots_share_a_group(project: Seq<char>, rest: Seq<char>)
    requires
        forall|j: int|
            0 <= j < project.len() ==> !#[trigger] occurs_at(
                project + "/.direnv/"@ + rest,
                "/.direnv/"@,
                j,
            ),
    ensures
        class_of(project + "/.direnv/"@ + rest) == (
            project,
            project + "/.direnv/  (direnv)"@,
            Kind::Direnv,
        ),
{
    let mark = "/.direnv/"@;
    let s = project + mark + rest;
    let n = project.len() as int;
    assert(s.subrange(n, n + mark.len()) =~= mark);
    assert(occurs_at(s, mark, n));
    let i = choose|i: int|
        occurs_at(s, mark, i) && forall|j: int| 0 <= j < i ==> !occurs_at(s, mark, j);
    assert(occurs_at(s, mark, i) && forall|j: int| 0 <= j < i ==> !occurs_at(s, mark, j));
    assert(i == n);
    assert(s.take(n) =~= project);
}

/// A path without a `.direnv` directory in it is a root of its own, and shows as itself.
pub proof fn law_other_roots_stand_alone(s: Seq<char>)
    requires
        forall|a: Seq<char>, b: Seq<char>| s != #[trigger] (a + "/.direnv/"@ + b),
    ensures
        class_of(s) == (s, s, Kind::Single),
{
    if occurs(s, "/.direnv/"@) {
        let i = choose|i: int| occurs_at(s, "/.direnv/"@, i);
        law_occurrences(Seq::empty(), "/.direnv/"@, Seq::empty());
        assert(s == s.take(i) + "/.direnv/"@ + s.skip(i + "/.direnv/"@.len()));
    }
}

/// The names that are protected: `current`, what starts with `current-` or `booted-`, and what ends
/// with `-current`.
pub proof fn law_protected_names(name: Seq<char>)
    ensures
        protected_name(name) <==> {
            ||| name == "current"@
            ||| exists|rest: Seq<char>| name == #[trigger] ("current-"@ + rest)
            ||| exists|rest: Seq<char>| name == #[trigger] ("booted-"@ + rest)
            ||| exists|rest: Seq<char>| name == #[trigger] (rest + "-current"@)
        },
{
    let c = "current-"@;
    let b = "booted-"@;
    let e = "-current"@;
    if c.is_prefix_of(name) {
        assert(name =~= c + name.skip(c.len() as int));
    }
    if b.is_prefix_of(name) {
        assert(name =~= b + name.skip(b.len() as int));
    }
    if e.is_suffix_of(name) {
        assert(name =~= name.take(name.len() - e.len()) + e);
    }
    assert forall|rest: Seq<char>| name == #[trigger] (c + rest) implies c.is_prefix_of(name) by {
        assert(name.subrange(0, c.len() as int) =~= c);
    }
    assert forall|rest: Seq<char>| name == #[trigger] (b + rest) implies b.is_prefix_of(name) by {
        assert(name.subrange(0, b.len() as int) =~= b);
    }
    assert forall|rest: Seq<char>| name == #[trigger] (rest + e) implies e.is_suffix_of(name) by {
        assert(name.subrange(name.len() - e.len(), name.len() as int) =~= e);
    }
}

proof fn lemma_slash_behind(a: Seq<char>, rest: Seq<char>)
    requires
        forall|i: int| 0 <= i < a.len() ==> #[trigger] a[i] != '/',
        rest.len() > 0 ==> rest[0] == '/',
    ensures
        first_slash(a + rest) == a.len(),
    decreases a.len(),
{
    let s = a + rest;
    if a.len() > 0 {
        assert(s[0] == a[0]);
        let b = a.drop_first();
        assert forall|i: int| 0 <= i < b.len() implies #[trigger] b[i] != '/' by {
            assert(b[i] == a[i + 1]);
        }
        lemma_slash_behind(b, rest);
        assert(s.drop_first() =~= b + rest);
    } else {
        assert(s =~= rest);
    }
}

/// What is in a store path belongs to it: the path reduces to its first part behind the store. The
/// store itself, and what is not in it, reduce to nothing.
pub proof fn law_store_paths(name: Seq<char>, rest: Seq<char>, other: Seq<char>)
    requires
        forall|i: int| 0 <= i < name.len() ==> #[trigger] name[i] != '/',
        rest.len() == 0 || rest[0] == '/',
        forall|tail: Seq<char>| other != #[trigger] ("/nix/store/"@ + tail),
    ensures
        name.len() > 0 ==> store_path_of("/nix/store/"@ + name + rest) == Some(
            "/nix/store/"@ + name,
        ),
        name.len() == 0 ==> store_path_of("/nix/store/"@ + name + rest) is None,
        store_path_of(other) is None,
{
    let store = "/nix/store/"@;
    let s = store + name + rest;
    assert(store.is_prefix_of(s)) by {
        assert(s.subrange(0, store.len() as int) =~= store);
    }
    assert(s.skip(store.len() as int) =~= name + rest);
    lemma_slash_behind(name, rest);
    assert((name + rest).take(name.len() as int) =~= name);
    if store.is_prefix_of(other) {
        assert(other =~= store + other.skip(store.len() as int));
    }
}

/// The entries of a key are the entries that have it.
proof fn lemma_with_key(s: Seq<EntryView>, key: Seq<char>)
    ensures
        forall|a: int|
            0 <= a < s.len() && (#[trigger] s[a]).key == key ==> with_key(s, key).contains(s[a]),
        forall|k: int|
            0 <= k < with_key(s, key).len() ==> (#[trigger] with_key(s, key)[k]).key == key
                && s.contains(with_key(s, key)[k]),
{
    let p = |e: EntryView| e.key == key;
    let mine = with_key(s, key);
    assert forall|a: int| 0 <= a < s.len() && (#[trigger] s[a]).key == key implies mine.contains(
        s[a],
    ) by {
        s.lemma_filter_contains(p, a);
    }
    assert forall|k: int| 0 <= k < mine.len() implies (#[trigger] mine[k]).key == key && s.contains(
        mine[k],
    ) by {
        s.lemma_filter_pred(p, k);
        assert(mine.contains(mine[k]));
        s.lemma_filter_contains_rev(p, mine[k]);
    }
}

proof fn lemma_newest(s: Seq<EntryView>)
    ensures
        forall|k: int| 0 <= k < s.len() ==> (#[trigger] s[k]).mtime <= newest(s),
        s.len() > 0 ==> exists|k: int| 0 <= k < s.len() && (#[trigger] s[k]).mtime == newest(s),
    decreases s.len(),
{
    if s.len() > 0 {
        let t = s.drop_last();
        lemma_newest(t);
        assert forall|k: int| 0 <= k < s.len() implies (#[trigger] s[k]).mtime <= newest(s) by {
            if k < t.len() {
                assert(t[k] == s[k]);
            }
        }
        if s.last().mtime > newest(t) || t.len() == 0 {
            assert(s[s.len() - 1].mtime == newest(s));
        } else {
            let k = choose|k: int| 0 <= k < t.len() && (#[trigger] t[k]).mtime == newest(t);
            assert(s[k].mtime == newest(s));
        }
    }
}

/// The age of a group is that of its newest root: its mtime is at least that of every root with its
/// key, and is that of one of them.
pub proof fn law_newest_root_dates_the_group(groups: Seq<Group>, s: Seq<EntryView>, i: int)
    requires
        grouping(groups, s),
        0 <= i < groups.len(),
    ensures
        forall|a: int|
            0 <= a < s.len() && (#[trigger] s[a]).key == groups[i].key@ ==> s[a].mtime
                <= groups[i].newest_mtime,
        exists|a: int|
            0 <= a < s.len() && (#[trigger] s[a]).key == groups[i].key@ && s[a].mtime
                == groups[i].newest_mtime,
{
    let key = groups[i].key@;
    let mine = with_key(s, key);
    assert(sums_up(groups[i], mine));
    lemma_with_key(s, key);
    lemma_newest(mine);
    assert forall|a: int| 0 <= a < s.len() && (#[trigger] s[a]).key == key implies s[a].mtime
        <= groups[i].newest_mtime by {
        let k = choose|k: int| 0 <= k < mine.len() && mine[k] == s[a];
        assert(mine[k].mtime <= newest(mine));
    }
    let k = choose|k: int| 0 <= k < mine.len() && (#[trigger] mine[k]).mtime == newest(mine);
    let a = choose|a: int| 0 <= a < s.len() && s[a] == mine[k];
    assert(s[a].key == key && s[a].mtime == groups[i].newest_mtime);
}

proof fn lemma_members_of(s: Seq<EntryView>, m: Seq<char>)
    ensures
        members_of(s).contains(m) <==> exists|k: int|
            0 <= k < s.len() && (#[trigger] s[k]).member == Some(m),
    decreases s.len(),
{
    if s.len() > 0 {
        let t = s.drop_last();
        let before = members_of(t);
        let all = members_of(s);
        lemma_members_of(t, m);
        if all.contains(m) {
            let k = choose|k: int| 0 <= k < all.len() && all[k] == m;
            if k < before.len() {
                assert(before[k] == m);
                let j = choose|j: int| 0 <= j < t.len() && (#[trigger] t[j]).member == Some(m);
                assert(s[j].member == Some(m));
            } else {
                assert(s[s.len() - 1].member == Some(m));
            }
        }
        if exists|k: int| 0 <= k < s.len() && (#[trigger] s[k]).member == Some(m) {
            let k = choose|k: int| 0 <= k < s.len() && (#[trigger] s[k]).member == Some(m);
            if k < t.len() {
                assert(t[k].member == Some(m));
                let j = choose|j: int| 0 <= j < before.len() && before[j] == m;
                assert(all[j] == m);
            } else {
                assert(all[all.len() - 1] == m);
            }
        }
    }
}

/// The members of a group are the store paths of the roots with its key, and its links are their
/// links: all of them, each once, in ascending order.
pub proof fn law_groups_hold_their_roots(groups: Seq<Group>, s: Seq<EntryView>, i: int)
    requires
        grouping(groups, s),
        0 <= i < groups.len(),
    ensures
        forall|m: Seq<char>|
            #[trigger] texts(groups[i].members@).contains(m) <==> exists|a: int|
                0 <= a < s.len() && (#[trigger] s[a]).key == groups[i].key@ && s[a].member == Some(
                    m,
                ),
        forall|l: Seq<char>|
            #[trigger] texts(groups[i].links@).contains(l) <==> exists|a: int|
                0 <= a < s.len() && (#[trigger] s[a]).key == groups[i].key@ && s[a].link == l,
        forall|j: int, k: int|
            0 <= j < k < groups[i].members@.len() ==> text_lt(
                (#[trigger] groups[i].members@[j])@,
                (#[trigger] groups[i].members@[k])@,
            ),
        forall|j: int, k: int|
            0 <= j < k < groups[i].links@.len() ==> text_lt(
                (#[trigger] groups[i].links@[j])@,
                (#[trigger] groups[i].links@[k])@,
            ),
{
    let g = groups[i];
    let key = g.key@;
    let mine = with_key(s, key);
    assert(sums_up(g, mine));
    lemma_with_key(s, key);
    law_sorted_sets(members_of(mine));
    law_sorted_sets(links_of(mine));
    assert forall|m: Seq<char>|
        #[trigger] texts(g.members@).contains(m) <==> exists|a: int|
            0 <= a < s.len() && (#[trigger] s[a]).key == key && s[a].member == Some(m) by {
        lemma_members_of(mine, m);
        if members_of(mine).contains(m) {
            let k = choose|k: int| 0 <= k < mine.len() && (#[trigger] mine[k]).member == Some(m);
            let a = choose|a: int| 0 <= a < s.len() && s[a] == mine[k];
            assert(s[a].key == key && s[a].member == Some(m));
        }
        if exists|a: int|
            0 <= a < s.len() && (#[trigger] s[a]).key == key && s[a].member == Some(m) {
            let a = choose|a: int|
                0 <= a < s.len() && (#[trigger] s[a]).key == key && s[a].member == Some(m);
            let k = choose|k: int| 0 <= k < mine.len() && mine[k] == s[a];
            assert(mine[k].member == Some(m));
        }
    }
    let links = links_of(mine);
    assert forall|l: Seq<char>|
        #[trigger] texts(g.links@).contains(l) <==> exists|a: int|
            0 <= a < s.len() && (#[trigger] s[a]).key == key && s[a].link == l by {
        if links.contains(l) {
            let k = choose|k: int| 0 <= k < links.len() && links[k] == l;
            assert(mine[k].link == l);
            let a = choose|a: int| 0 <= a < s.len() && s[a] == mine[k];
            assert(s[a].key == key && s[a].link == l);
        }
        if exists|a: int| 0 <= a < s.len() && (#[trigger] s[a]).key == key && s[a].link == l {
            let a = choose|a: int|
                0 <= a < s.len() && (#[trigger] s[a]).key == key && s[a].link == l;
            let k = choose|k: int| 0 <= k < mine.len() && mine[k] == s[a];
            assert(links[k] == l);
        }
    }
    assert forall|j: int, k: int| 0 <= j < k < g.members@.len() implies text_lt(
        (#[trigger] g.members@[j])@,
        (#[trigger] g.members@[k])@,
    ) by {
        assert(texts(g.members@)[j] == g.members@[j]@ && texts(g.members@)[k] == g.members@[k]@);
    }
    assert forall|j: int, k: int| 0 <= j < k < g.links@.len() implies text_lt(
        (#[trigger] g.links@[j])@,
        (#[trigger] g.links@[k])@,
    ) by {
        assert(texts(g.links@)[j] == g.links@[j]@ && texts(g.links@)[k] == g.links@[k]@);
    }
}

/// The first entry of a key.
proof fn lemma_first_with_key(s: Seq<EntryView>, key: Seq<char>) -> (a: int)
    requires
        with_key(s, key).len() > 0,
    ensures
        0 <= a < s.len(),
        s[a].key == key,
        s[a] == with_key(s, key)[0],
        forall|b: int| 0 <= b < a ==> (#[trigger] s[b]).key != key,
    decreases s.len(),
{
    reveal(Seq::filter);
    let t = s.drop_last();
    if with_key(t, key).len() > 0 {
        let a = lemma_first_with_key(t, key);
        assert forall|b: int| 0 <= b < a implies (#[trigger] s[b]).key != key by {
            assert(t[b] == s[b]);
        }
        a
    } else {
        let a = s.len() - 1;
        assert forall|b: int| 0 <= b < a implies (#[trigger] s[b]).key != key by {
            if s[b].key == key {
                lemma_with_key(t, key);
                assert(t[b] == s[b]);
                assert(with_key(t, key).contains(t[b]));
            }
        }
        a
    }
}

/// A group counts the roots with its key; it is shown as the first of them; it is writable if all
/// of them are, and protected if one of them is.
pub proof fn law_groups_describe_their_roots(groups: Seq<Group>, s: Seq<EntryView>, i: int)
    requires
        grouping(groups, s),
        0 <= i < groups.len(),
    ensures
        groups[i].count == s.filter(|e: EntryView| e.key == groups[i].key@).len(),
        exists|a: int|
            0 <= a < s.len() && (#[trigger] s[a]).key == groups[i].key@ && groups[i].loc@
                == s[a].loc && groups[i].kind == s[a].kind && forall|b: int|
                0 <= b < a ==> (#[trigger] s[b]).key != groups[i].key@,
        groups[i].writable <==> forall|a: int|
            0 <= a < s.len() && (#[trigger] s[a]).key == groups[i].key@ ==> s[a].writable,
        groups[i].protected <==> exists|a: int|
            0 <= a < s.len() && (#[trigger] s[a]).key == groups[i].key@ && s[a].protected,
        forall|j: int| 0 <= j < i ==> text_lt((#[trigger] groups[j]).key@, groups[i].key@),
{
    let g = groups[i];
    let key = g.key@;
    let mine = with_key(s, key);
    assert(sums_up(g, mine));
    lemma_with_key(s, key);
    assert(mine == s.filter(|e: EntryView| e.key == groups[i].key@));
    let first = lemma_first_with_key(s, key);
    assert(s[first].key == key && g.loc@ == s[first].loc && g.kind == s[first].kind);
    if g.writable {
        assert forall|a: int| 0 <= a < s.len() && (#[trigger] s[a]).key
            == key implies s[a].writable by {
            let k = choose|k: int| 0 <= k < mine.len() && mine[k] == s[a];
            assert(mine[k].writable);
        }
    } else {
        let k = choose|k: int| 0 <= k < mine.len() && !(#[trigger] mine[k]).writable;
        let a = choose|a: int| 0 <= a < s.len() && s[a] == mine[k];
        assert(s[a].key == key && !s[a].writable);
    }
    if g.protected {
        let k = choose|k: int| 0 <= k < mine.len() && (#[trigger] mine[k]).protected;
        let a = choose|a: int| 0 <= a < s.len() && s[a] == mine[k];
        assert(s[a].key == key && s[a].protected);
    } else {
        assert forall|a: int| 0 <= a < s.len() && (#[trigger] s[a]).key
            == key implies !s[a].protected by {
            let k = choose|k: int| 0 <= k < mine.len() && mine[k] == s[a];
            assert(!mine[k].protected);
        }
    }
    assert forall|j: int| 0 <= j < i implies text_lt((#[trigger] groups[j]).key@, key) by {
        assert(text_lt(groups[j].key@, groups[i].key@));
    }
}

/// What counts of a root: its indirect path is its link; the mtime is that of what is at the
/// indirect path, else that of the symlink, else zero; it is writable only where the directory of
/// the indirect path is known to be; it is protected by the last part of the indirect path; and its
/// store path is that of what it resolves to.
pub proof fn law_entries_describe_their_roots(p: Probe, text: Seq<char>)
    ensures
        ({
            let e = entry_of(p, text);
            &&& (e.key, e.loc, e.kind) == class_of(text)
            &&& e.link == text
            &&& p.indirect_mtime matches Some(t) ==> e.mtime == t
            &&& p.indirect_mtime is None && p.link_mtime is Some ==> e.mtime == p.link_mtime->0
            &&& p.indirect_mtime is None && p.link_mtime is None ==> e.mtime == 0
            &&& e.writable <==> p.writable == Some(true)
            &&& e.protected <==> (file_name_of(p.indirect@) matches Some(n) && valid_utf8(n)
                && protected_name(decode_utf8(n)))
            &&& p.canonical is None ==> e.member is None
            &&& p.canonical matches Some(c) ==> e.member == if valid_utf8(c@) {
                store_path_of(decode_utf8(c@))
            } else {
                None
            }
        }),
{
    reveal(entry_of);
}

/// The roots that are gone are skipped, and no other is: the entries are those of the roots that
/// are still there, in their order.
pub proof fn law_present_roots_have_entries(order: Seq<Probe>)
    ensures
        entries_in(order) == order.filter(|p: Probe| p.present).map_values(
            |p: Probe| entry_of(p, lossy_text(p.indirect@)),
        ),
    decreases order.len(),
{
    reveal(Seq::filter);
    let f = |p: Probe| p.present;
    let e = |p: Probe| entry_of(p, lossy_text(p.indirect@));
    if order.len() > 0 {
        let rest = order.drop_last();
        law_present_roots_have_entries(rest);
        if order.last().present {
            assert(order.filter(f).map_values(e) =~= rest.filter(f).map_values(e).push(
                e(order.last()),
            ));
        }
    } else {
        assert(entries_in(order) =~= order.filter(f).map_values(e));
    }
}

proof fn lemma_entries_in(order: Seq<Probe>, p: Probe)
    requires
        order.contains(p),
        p.present,
    ensures
        entries_in(order).contains(entry_of(p, lossy_text(p.indirect@))),
    decreases order.len(),
{
    let k = choose|k: int| 0 <= k < order.len() && order[k] == p;
    let rest = order.drop_last();
    let all = entries_in(order);
    let e = entry_of(p, lossy_text(p.indirect@));
    if k < rest.len() {
        assert(rest[k] == p);
        lemma_entries_in(rest, p);
        let before = entries_in(rest);
        let j = choose|j: int| 0 <= j < before.len() && before[j] == e;
        assert(all[j] == e);
    } else {
        assert(all[all.len() - 1] == e);
    }
}

proof fn lemma_entries_from_probes(order: Seq<Probe>, k: int) -> (p: Probe)
    requires
        0 <= k < entries_in(order).len(),
    ensures
        order.contains(p),
        p.present,
        entries_in(order)[k] == entry_of(p, lossy_text(p.indirect@)),
    decreases order.len(),
{
    let rest = order.drop_last();
    let before = entries_in(rest);
    if k < before.len() {
        let p = lemma_entries_from_probes(rest, k);
        let j = choose|j: int| 0 <= j < rest.len() && rest[j] == p;
        assert(order[j] == p);
        p
    } else {
        assert(order[order.len() - 1] == order.last());
        order.last()
    }
}

/// Whether a root counts for a group: its link is among those of the group, its store path among
/// the members, and it bears on the age of the group and on whether it may be deleted.
pub open spec fn counts_for(g: Group, p: Probe) -> bool {
    let link = lossy_text(p.indirect@);
    &&& g.key@ == class_of(link).0
    &&& texts(g.links@).contains(link)
    &&& p.indirect_mtime matches Some(t) ==> t <= g.newest_mtime
    &&& p.indirect_mtime is None && p.link_mtime is Some ==> p.link_mtime->0 <= g.newest_mtime
    &&& p.writable != Some(true) ==> !g.writable
    &&& file_name_of(p.indirect@) matches Some(n) ==> valid_utf8(n) && protected_name(
        decode_utf8(n),
    ) ==> g.protected
    &&& p.canonical matches Some(c) ==> valid_utf8(c@) ==> (store_path_of(
        decode_utf8(c@),
    ) matches Some(m) ==> texts(g.members@).contains(m))
}

/// A scan misses no root: every root that is still there counts for a group; and it makes none up:
/// every link of a group is that of a root that is still there and counts for it.
pub proof fn law_scan_groups_what_is_there(probes: Seq<Probe>, groups: Seq<Group>)
    requires
        exists|order: Seq<Probe>|
            #[trigger] sorted_from(&ByLink, order, probes) && grouping(groups, entries_in(order)),
    ensures
        forall|k: int|
            0 <= k < probes.len() && (#[trigger] probes[k]).present ==> exists|i: int|
                0 <= i < groups.len() && counts_for(#[trigger] groups[i], probes[k]),
        forall|i: int, l: Seq<char>|
            0 <= i < groups.len() && #[trigger] texts(groups[i].links@).contains(l) ==> exists|
                k: int,
            |
                0 <= k < probes.len() && (#[trigger] probes[k]).present && lossy_text(
                    probes[k].indirect@,
                ) == l && counts_for(groups[i], probes[k]),
{
    broadcast use vstd::seq_lib::group_to_multiset_ensures;

    let order = choose|order: Seq<Probe>|
        #[trigger] sorted_from(&ByLink, order, probes) && grouping(groups, entries_in(order));
    let s = entries_in(order);
    assert forall|k: int| 0 <= k < probes.len() && (#[trigger] probes[k]).present implies exists|
        i: int,
    |
        0 <= i < groups.len() && counts_for(#[trigger] groups[i], probes[k]) by {
        let p = probes[k];
        assert(probes.contains(p));
        assert(probes.to_multiset().count(p) > 0);
        assert(order.contains(p));
        lemma_entries_in(order, p);
        let e = entry_of(p, lossy_text(p.indirect@));
        let a = choose|a: int| 0 <= a < s.len() && s[a] == e;
        law_entries_describe_their_roots(p, lossy_text(p.indirect@));
        assert(s[a].key == e.key);
        let i = choose|i: int| 0 <= i < groups.len() && (#[trigger] groups[i]).key@ == s[a].key;
        lemma_counts_for(groups, s, i, a, p);
        assert(counts_for(groups[i], p));
    }
    assert forall|i: int, l: Seq<char>|
        0 <= i < groups.len() && #[trigger] texts(groups[i].links@).contains(l) implies exists|
        k: int,
    |
        0 <= k < probes.len() && (#[trigger] probes[k]).present && lossy_text(probes[k].indirect@)
            == l && counts_for(groups[i], probes[k]) by {
        law_groups_hold_their_roots(groups, s, i);
        let a = choose|a: int|
            0 <= a < s.len() && (#[trigger] s[a]).key == groups[i].key@ && s[a].link == l;
        let p = lemma_entries_from_probes(order, a);
        law_entries_describe_their_roots(p, lossy_text(p.indirect@));
        assert(order.to_multiset().count(p) > 0);
        assert(probes.contains(p));
        let k = choose|k: int| 0 <= k < probes.len() && probes[k] == p;
        lemma_counts_for(groups, s, i, a, p);
        assert(probes[k].present);
    }
}

proof fn lemma_counts_for(groups: Seq<Group>, s: Seq<EntryView>, i: int, a: int, p: Probe)
    requires
        grouping(groups, s),
        0 <= i < groups.len(),
        0 <= a < s.len(),
        s[a] == entry_of(p, lossy_text(p.indirect@)),
        s[a].key == groups[i].key@,
    ensures
        counts_for(groups[i], p),
{
    law_entries_describe_their_roots(p, lossy_text(p.indirect@));
    law_groups_hold_their_roots(groups, s, i);
    law_newest_root_dates_the_group(groups, s, i);
    law_groups_describe_their_roots(groups, s, i);
    assert(s[a].mtime <= groups[i].newest_mtime);
}

proof fn lemma_path_antisymmetric(a: Seq<u8>, b: Seq<u8>)
    requires
        path_le(a, b),
        path_le(b, a),
    ensures
        a == b,
{
    lemma_lex_antisymmetric(path_key(a), path_key(b));
    assert(path_key(a).len() == path_key(b).len());
    assert forall|i: int| 0 <= i < a.len() implies a[i] == b[i] by {
        assert(path_key(a)[i] == path_key(b)[i]);
    }
    assert(a =~= b);
}

/// Whether no two probes are of one symlink.
pub open spec fn distinct_links(s: Seq<Probe>) -> bool {
    forall|i: int, j: int|
        0 <= i < j < s.len() ==> (#[trigger] s[i]).link@ != (#[trigger] s[j]).link@
}

proof fn lemma_one_order(a: Seq<Probe>, b: Seq<Probe>)
    requires
        in_order(&ByLink, a),
        in_order(&ByLink, b),
        a.to_multiset() == b.to_multiset(),
        distinct_links(a),
        distinct_links(b),
    ensures
        a == b,
    decreases a.len(),
{
    broadcast use vstd::seq_lib::group_to_multiset_ensures;

    assert(a.len() == a.to_multiset().len());
    assert(b.len() == b.to_multiset().len());
    if a.len() == 0 {
        assert(a =~= b);
    } else {
        let x = a.last();
        let y = b.last();
        assert(a.contains(x));
        assert(b.to_multiset().count(x) > 0);
        assert(b.contains(x));
        let i = choose|i: int| 0 <= i < b.len() && b[i] == x;
        assert(b.contains(y));
        assert(a.to_multiset().count(y) > 0);
        assert(a.contains(y));
        let j = choose|j: int| 0 <= j < a.len() && a[j] == y;
        if i < b.len() - 1 {
            assert(ByLink.le(b[i], b[b.len() - 1]));
            if j < a.len() - 1 {
                assert(ByLink.le(a[j], a[a.len() - 1]));
                lemma_path_antisymmetric(x.link@, y.link@);
            }
            assert(b[i].link@ != b[b.len() - 1].link@);
        }
        let a0 = a.drop_last();
        let b0 = b.drop_last();
        assert(a0 =~= a.remove(a.len() - 1));
        assert(b0 =~= b.remove(b.len() - 1));
        assert(in_order(&ByLink, a0)) by {
            assert forall|p: int, q: int| 0 <= p < q < a0.len() implies ByLink.le(
                #[trigger] a0[p],
                #[trigger] a0[q],
            ) by {
                assert(a0[p] == a[p] && a0[q] == a[q]);
            }
        }
        assert(in_order(&ByLink, b0)) by {
            assert forall|p: int, q: int| 0 <= p < q < b0.len() implies ByLink.le(
                #[trigger] b0[p],
                #[trigger] b0[q],
            ) by {
                assert(b0[p] == b[p] && b0[q] == b[q]);
            }
        }
        lemma_one_order(a0, b0);
        assert(a =~= a0.push(x));
        assert(b =~= b0.push(y));
    }
}

/// Groups by their texts.
pub open spec fn same_group(g: Group, h: Group) -> bool {
    &&& g.key@ == h.key@
    &&& g.loc@ == h.loc@
    &&& g.kind == h.kind
    &&& texts(g.members@) == texts(h.members@)
    &&& texts(g.links@) == texts(h.links@)
    &&& g.newest_mtime == h.newest_mtime
    &&& g.count == h.count
    &&& g.writable == h.writable
    &&& g.protected == h.protected
}

/// The keys of groups.
pub open spec fn keys_of(groups: Seq<Group>) -> Seq<Seq<char>> {
    groups.map_values(|g: Group| g.key@)
}

proof fn lemma_keys(groups: Seq<Group>, s: Seq<EntryView>, key: Seq<char>)
    requires
        grouping(groups, s),
    ensures
        keys_of(groups).contains(key) <==> s.map_values(|e: EntryView| e.key).contains(key),
{
    let keys = s.map_values(|e: EntryView| e.key);
    if keys_of(groups).contains(key) {
        let i = choose|i: int| 0 <= i < keys_of(groups).len() && keys_of(groups)[i] == key;
        let mine = with_key(s, groups[i].key@);
        assert(sums_up(groups[i], mine));
        let p = |e: EntryView| e.key == groups[i].key@;
        s.lemma_filter_pred(p, 0);
        assert(mine.contains(mine[0]));
        s.lemma_filter_contains_rev(p, mine[0]);
        let a = choose|a: int| 0 <= a < s.len() && s[a] == mine[0];
        assert(keys[a] == key);
    }
    if keys.contains(key) {
        let a = choose|a: int| 0 <= a < keys.len() && keys[a] == key;
        assert(s[a].key == key);
        let i = choose|i: int| 0 <= i < groups.len() && (#[trigger] groups[i]).key@ == s[a].key;
        assert(keys_of(groups)[i] == key);
    }
}

/// Roots can be grouped in one way only.
pub proof fn law_grouping_has_one_outcome(g: Seq<Group>, h: Seq<Group>, s: Seq<EntryView>)
    requires
        grouping(g, s),
        grouping(h, s),
    ensures
        g.len() == h.len(),
        forall|i: int| 0 <= i < g.len() ==> same_group(#[trigger] g[i], h[i]),
{
    let a = keys_of(g);
    let b = keys_of(h);
    assert forall|k: Seq<char>| a.to_set().contains(k) <==> b.to_set().contains(k) by {
        lemma_keys(g, s, k);
        lemma_keys(h, s, k);
    }
    assert(a.to_set() =~= b.to_set());
    lemma_ascending_unique(a, b);
    assert(a.len() == g.len() && b.len() == h.len());
    assert forall|i: int| 0 <= i < g.len() implies same_group(#[trigger] g[i], h[i]) by {
        assert(a[i] == g[i].key@ && b[i] == h[i].key@);
        assert(sums_up(g[i], with_key(s, g[i].key@)));
        assert(sums_up(h[i], with_key(s, h[i].key@)));
    }
}

/// The order in which symlinks are found does not show in the groups.
pub proof fn law_order_of_finding_does_not_show(
    found: Seq<Probe>,
    other: Seq<Probe>,
    g: Seq<Group>,
    h: Seq<Group>,
)
    requires
        found.to_multiset() == other.to_multiset(),
        distinct_links(found),
        exists|order: Seq<Probe>|
            #[trigger] sorted_from(&ByLink, order, found) && grouping(g, entries_in(order)),
        exists|order: Seq<Probe>|
            #[trigger] sorted_from(&ByLink, order, other) && grouping(h, entries_in(order)),
    ensures
        g.len() == h.len(),
        forall|i: int| 0 <= i < g.len() ==> same_group(#[trigger] g[i], h[i]),
{
    let a = choose|order: Seq<Probe>|
        #[trigger] sorted_from(&ByLink, order, found) && grouping(g, entries_in(order));
    let b = choose|order: Seq<Probe>|
        #[trigger] sorted_from(&ByLink, order, other) && grouping(h, entries_in(order));
    lemma_distinct_in_any_order(found, a);
    lemma_distinct_in_any_order(found, b);
    lemma_one_order(a, b);
    law_grouping_has_one_outcome(g, h, entries_in(a));
}

proof fn lemma_distinct_in_any_order(s: Seq<Probe>, t: Seq<Probe>)
    requires
        distinct_links(s),
        s.to_multiset() == t.to_multiset(),
    ensures
        distinct_links(t),
{
    broadcast use vstd::seq_lib::group_to_multiset_ensures;

    assert(s.no_duplicates());
    s.lemma_multiset_has_no_duplicates();
    t.lemma_multiset_has_no_duplicates_conv();
    assert forall|i: int, j: int| 0 <= i < j < t.len() implies (#[trigger] t[i]).link@ != (
    #[trigger] t[j]).link@ by {
        assert(t.contains(t[i]) && t.contains(t[j]));
        assert(s.to_multiset().count(t[i]) > 0 && s.to_multiset().count(t[j]) > 0);
        assert(s.contains(t[i]) && s.contains(t[j]));
        let p = choose|p: int| 0 <= p < s.len() && s[p] == t[i];
        let q = choose|q: int| 0 <= q < s.len() && s[q] == t[j];
        assert(t[i] != t[j]);
        if p < q {
            assert(s[p].link@ != s[q].link@);
        } else {
            assert(s[q].link@ != s[p].link@);
        }
    }
}

// ---------------------------------------------------------------------------------------------
// Walking
// ---------------------------------------------------------------------------------------------

/// What a directory entry is itself, not what it may point to.
#[derive(Clone, Copy, PartialEq, Eq, Structural, Debug)]
pub enum EntryKind {
    Symlink,
    Directory,
    Other,
}

/// A walk under way: the directories that are still to be listed, and the symlinks found so far.
pub struct Walk {
    pub pending: Vec<Vec<u8>>,
    pub found: Vec<Vec<u8>>,
}

/// A walk by its paths.
pub struct WalkView {
    pub pending: Seq<Seq<u8>>,
    pub found: Seq<Seq<u8>>,
}

/// Paths by their bytes.
pub open spec fn paths_view(v: Seq<Vec<u8>>) -> Seq<Seq<u8>> {
    v.map_values(|p: Vec<u8>| p@)
}

impl View for Walk {
    type V = WalkView;

    open spec fn view(&self) -> WalkView {
        WalkView { pending: paths_view(self.pending@), found: paths_view(self.found@) }
    }
}

/// The entries of one directory, each by its path.
pub open spec fn listing_view(v: Seq<(Vec<u8>, EntryKind)>) -> Seq<(Seq<u8>, EntryKind)> {
    v.map_values(|e: (Vec<u8>, EntryKind)| (e.0@, e.1))
}

/// The paths of the entries of one kind.
pub open spec fn of_kind(listing: Seq<(Seq<u8>, EntryKind)>, kind: EntryKind) -> Seq<Seq<u8>>
    decreases listing.len(),
{
    if listing.len() == 0 {
        Seq::empty()
    } else if listing.last().1 == kind {
        of_kind(listing.drop_last(), kind).push(listing.last().0)
    } else {
        of_kind(listing.drop_last(), kind)
    }
}

/// A walk after one of its directories was listed: its symlinks are found, its directories are
/// still to be listed, and nothing else matters.
pub open spec fn after_listing(w: WalkView, listing: Seq<(Seq<u8>, EntryKind)>) -> WalkView {
    WalkView {
        pending: w.pending + of_kind(listing, EntryKind::Directory),
        found: w.found + of_kind(listing, EntryKind::Symlink),
    }
}

impl Walk {
    /// A walk that has `root` to list.
    pub fn start(root: Vec<u8>) -> (r: Walk)
        ensures
            r@ == (WalkView { pending: seq![root@], found: Seq::empty() }),
    {
        let mut pending: Vec<Vec<u8>> = Vec::new();
        pending.push(root);
        let r = Walk { pending, found: Vec::new() };
        assert(r@.pending =~= seq![root@]);
        assert(r@.found =~= Seq::<Seq<u8>>::empty());
        r
    }

    /// Takes a directory that is still to be listed.
    pub fn next_directory(&mut self) -> (r: Option<Vec<u8>>)
        ensures
            final(self)@.found == old(self)@.found,
            match r {
                Some(d) => old(self)@.pending.len() > 0 && d@ == old(self)@.pending.last()
                    && final(self)@.pending == old(self)@.pending.drop_last(),
                None => old(self)@.pending.len() == 0 && final(self)@.pending == old(
                    self,
                )@.pending,
            },
    {
        let r = self.pending.pop();
        proof {
            if r is Some {
                assert(self@.pending =~= old(self)@.pending.drop_last());
            }
        }
        r
    }

    /// Takes in the entries of a directory; one that cannot be read has none.
    pub fn listed(&mut self, listing: Vec<(Vec<u8>, EntryKind)>)
        ensures
            final(self)@ == after_listing(old(self)@, listing_view(listing@)),
    {
        let mut rest: Vec<(Vec<u8>, EntryKind)> = Vec::new();
        let ghost all = listing_view(listing@);
        let ghost start = self@;
        let mut back: Vec<(Vec<u8>, EntryKind)> = listing;
        while back.len() > 0
            invariant
                back@ + rest@.reverse() == listing@,
            decreases back.len(),
        {
            let ghost b = back@;
            let ghost done = rest@;
            if let Some(e) = back.pop() {
                rest.push(e);
            }
            assert(b =~= b.drop_last().push(b.last()));
            assert(done.push(b.last()).reverse() =~= seq![b.last()] + done.reverse());
            assert(back@ + rest@.reverse() =~= b + done.reverse());
        }
        assert(rest@.reverse() =~= listing@);
        let ghost mut i: int = 0;
        assert(start.pending + of_kind(all.take(0), EntryKind::Directory) =~= start.pending);
        assert(start.found + of_kind(all.take(0), EntryKind::Symlink) =~= start.found);
        while rest.len() > 0
            invariant
                0 <= i <= all.len(),
                all == listing_view(listing@),
                rest@.len() == all.len() - i,
                rest@.reverse() == listing@.skip(i),
                self@ == after_listing(start, all.take(i)),
            decreases rest.len(),
        {
            let ghost r0 = rest@;
            let ghost now = self@;
            let ghost next = all.take(i + 1);
            assert(next.drop_last() =~= all.take(i));
            assert(r0.reverse()[0] == r0.last());
            assert(listing@.skip(i)[0] == listing@[i]);
            assert(next.last() == (listing@[i].0@, listing@[i].1));
            if let Some(e) = rest.pop() {
                match e.1 {
                    EntryKind::Symlink => {
                        self.found.push(e.0);
                        assert(self@.found =~= now.found.push(e.0@));
                    },
                    EntryKind::Directory => {
                        self.pending.push(e.0);
                        assert(self@.pending =~= now.pending.push(e.0@));
                    },
                    EntryKind::Other => {},
                }
            }
            proof {
                assert(r0.drop_last().reverse() =~= r0.reverse().skip(1));
                assert(listing@.skip(i).skip(1) =~= listing@.skip(i + 1));
                let target = after_listing(start, next);
                assert(self@.found =~= target.found);
                assert(self@.pending =~= target.pending);
                i = i + 1;
            }
        }
        assert(all.take(all.len() as int) =~= all);
    }
}

/// Whether a symlink stands under a directory, at most `depth` directories further down. A
/// symlinked directory is not gone into.
pub open spec fn under(
    tree: spec_fn(Seq<u8>) -> Seq<(Seq<u8>, EntryKind)>,
    dir: Seq<u8>,
    link: Seq<u8>,
    depth: nat,
) -> bool
    decreases depth,
{
    ||| tree(dir).contains((link, EntryKind::Symlink))
    ||| depth > 0 && exists|sub: Seq<u8>|
        #[trigger] tree(dir).contains((sub, EntryKind::Directory)) && under(
            tree,
            sub,
            link,
            (depth - 1) as nat,
        )
}

/// Whether a walk has found a symlink or will come to it.
pub open spec fn covers(
    tree: spec_fn(Seq<u8>) -> Seq<(Seq<u8>, EntryKind)>,
    w: WalkView,
    link: Seq<u8>,
) -> bool {
    ||| w.found.contains(link)
    ||| exists|dir: Seq<u8>, depth: nat|
        w.pending.contains(dir) && #[trigger] under(tree, dir, link, depth)
}

proof fn lemma_of_kind(listing: Seq<(Seq<u8>, EntryKind)>, kind: EntryKind, p: Seq<u8>)
    ensures
        of_kind(listing, kind).contains(p) <==> listing.contains((p, kind)),
    decreases listing.len(),
{
    if listing.len() > 0 {
        let rest = listing.drop_last();
        let sub = of_kind(rest, kind);
        let all = of_kind(listing, kind);
        lemma_of_kind(rest, kind, p);
        if listing.contains((p, kind)) {
            let i = choose|i: int| 0 <= i < listing.len() && listing[i] == (p, kind);
            if i < rest.len() {
                assert(rest[i] == (p, kind));
                let k = choose|k: int| 0 <= k < sub.len() && sub[k] == p;
                assert(all[k] == p);
            } else {
                assert(all[all.len() - 1] == p);
            }
        }
        if all.contains(p) {
            let k = choose|k: int| 0 <= k < all.len() && all[k] == p;
            if k < sub.len() {
                assert(sub[k] == p);
                let i = choose|i: int| 0 <= i < rest.len() && rest[i] == (p, kind);
                assert(listing[i] == (p, kind));
            } else {
                assert(listing[listing.len() - 1] == (p, kind));
            }
        }
    }
}

/// A walk misses nothing and adds nothing: when it lists its next directory, the symlinks that it
/// has found or will come to stay the same. So it ends with the symlinks under the directory that
/// it started from, and with no others.
pub proof fn law_walk_covers_the_tree(
    tree: spec_fn(Seq<u8>) -> Seq<(Seq<u8>, EntryKind)>,
    w: WalkView,
    link: Seq<u8>,
)
    ensures
        w.pending.len() > 0 ==> covers(
            tree,
            after_listing(
                WalkView { pending: w.pending.drop_last(), found: w.found },
                tree(w.pending.last()),
            ),
            link,
        ) == covers(tree, w, link),
        w.pending.len() == 0 ==> covers(tree, w, link) == w.found.contains(link),
{
    if w.pending.len() > 0 {
        let d = w.pending.last();
        let list = tree(d);
        let rest = WalkView { pending: w.pending.drop_last(), found: w.found };
        let next = after_listing(rest, list);
        let dirs = of_kind(list, EntryKind::Directory);
        let links = of_kind(list, EntryKind::Symlink);
        lemma_of_kind(list, EntryKind::Symlink, link);
        assert(w.pending[w.pending.len() - 1] == d);
        if covers(tree, w, link) {
            if w.found.contains(link) {
                let i = choose|i: int| 0 <= i < w.found.len() && w.found[i] == link;
                assert(next.found[i] == link);
            } else {
                let (dir, depth) = choose|dir: Seq<u8>, depth: nat|
                    w.pending.contains(dir) && #[trigger] under(tree, dir, link, depth);
                let i = choose|i: int| 0 <= i < w.pending.len() && w.pending[i] == dir;
                if i < rest.pending.len() {
                    assert(next.pending[i] == dir);
                    assert(next.pending.contains(dir));
                } else if list.contains((link, EntryKind::Symlink)) {
                    let k = choose|k: int| 0 <= k < links.len() && links[k] == link;
                    assert(next.found[w.found.len() + k] == link);
                } else {
                    let sub = choose|sub: Seq<u8>|
                        #[trigger] tree(dir).contains((sub, EntryKind::Directory)) && under(
                            tree,
                            sub,
                            link,
                            (depth - 1) as nat,
                        );
                    lemma_of_kind(list, EntryKind::Directory, sub);
                    let k = choose|k: int| 0 <= k < dirs.len() && dirs[k] == sub;
                    assert(next.pending[rest.pending.len() + k] == sub);
                    assert(next.pending.contains(sub));
                    assert(under(tree, sub, link, (depth - 1) as nat));
                }
            }
        }
        if covers(tree, next, link) {
            if next.found.contains(link) {
                let i = choose|i: int| 0 <= i < next.found.len() && next.found[i] == link;
                if i < w.found.len() {
                    assert(w.found[i] == link);
                } else {
                    assert(links[i - w.found.len()] == link);
                    assert(links.contains(link));
                    assert(w.pending.contains(d));
                    assert(under(tree, d, link, 0));
                }
            } else {
                let (dir, depth) = choose|dir: Seq<u8>, depth: nat|
                    next.pending.contains(dir) && #[trigger] under(tree, dir, link, depth);
                let i = choose|i: int| 0 <= i < next.pending.len() && next.pending[i] == dir;
                if i < rest.pending.len() {
                    assert(w.pending[i] == dir);
                    assert(w.pending.contains(dir));
                } else {
                    assert(dirs[i - rest.pending.len()] == dir);
                    assert(dirs.contains(dir));
                    lemma_of_kind(list, EntryKind::Directory, dir);
                    assert(w.pending.contains(d));
                    assert(tree(d).contains((dir, EntryKind::Directory)));
                    assert(under(tree, d, link, depth + 1));
                }
            }
        }
    }
}

/// A walk has the symlinks to come to that stand under the directory it starts from, however deep,
/// and no others.
pub proof fn law_walks_start_at_the_root(
    tree: spec_fn(Seq<u8>) -> Seq<(Seq<u8>, EntryKind)>,
    root: Vec<u8>,
    w: Walk,
    link: Seq<u8>,
)
    requires
        call_ensures(Walk::start, (root,), w),
    ensures
        covers(tree, w@, link) <==> exists|depth: nat| under(tree, root@, link, depth),
{
    assert(w@.pending =~= seq![root@]);
    assert(w@.pending[0] == root@);
    assert(w@.pending.contains(root@));
}

/// A scan puts every root that is there into a group, and holds no symlink that is not that of such
/// a root.
pub proof fn law_scans_miss_nothing(probes: Vec<Probe>, groups: Vec<Group>)
    requires
        call_ensures(scan, (probes,), groups),
    ensures
        forall|k: int|
            0 <= k < probes@.len() && (#[trigger] probes@[k]).present ==> exists|i: int|
                0 <= i < groups@.len() && counts_for(#[trigger] groups@[i], probes@[k]),
        forall|i: int, l: Seq<char>|
            0 <= i < groups@.len() && #[trigger] texts(groups@[i].links@).contains(l) ==> exists|
                k: int,
            |
                0 <= k < probes@.len() && (#[trigger] probes@[k]).present && lossy_text(
                    probes@[k].indirect@,
                ) == l && counts_for(groups@[i], probes@[k]),
{
    law_scan_groups_what_is_there(probes@, groups@);
}

/// What a walk has found after a listing is what it had found before and the symlinks of the
/// listing; what it has to list are the directories that were left and those of the listing. It has
/// nothing left to list just where it gives no directory.
pub proof fn law_walks_take_in_listings(
    listing: Vec<(Vec<u8>, EntryKind)>,
    next: Option<Vec<u8>>,
    p: Seq<u8>,
)
    ensures
        forall|w: &mut Walk| #[trigger]
            call_ensures(Walk::listed, (w, listing), ()) ==> {
                &&& final(w)@.found.contains(p) <==> (w@.found.contains(p) || listing_view(
                    listing@,
                ).contains((p, EntryKind::Symlink)))
                &&& final(w)@.pending.contains(p) <==> (w@.pending.contains(p) || listing_view(
                    listing@,
                ).contains((p, EntryKind::Directory)))
            },
        forall|w: &mut Walk| #[trigger]
            call_ensures(Walk::next_directory, (w,), next) ==> {
                &&& final(w)@.found == w@.found
                &&& next is None <==> w@.pending.len() == 0
                &&& next matches Some(d) ==> w@.pending.to_multiset()
                    == final(w)@.pending.to_multiset().insert(d@)
            },
{
    let all = listing_view(listing@);
    assert forall|w: &mut Walk| #[trigger] call_ensures(Walk::listed, (w, listing), ()) implies {
        &&& final(w)@.found.contains(p) <==> (w@.found.contains(p) || all.contains(
            (p, EntryKind::Symlink),
        ))
        &&& final(w)@.pending.contains(p) <==> (w@.pending.contains(p) || all.contains(
            (p, EntryKind::Directory),
        ))
    } by {
        let links = of_kind(all, EntryKind::Symlink);
        let dirs = of_kind(all, EntryKind::Directory);
        lemma_of_kind(all, EntryKind::Symlink, p);
        lemma_of_kind(all, EntryKind::Directory, p);
        lemma_contains_behind(w@.found, links, p);
        lemma_contains_behind(w@.pending, dirs, p);
    }
    assert forall|w: &mut Walk| #[trigger]
        call_ensures(Walk::next_directory, (w,), next) && next is Some implies w@.pending.to_multiset()
        == final(w)@.pending.to_multiset().insert(next->0@) by {
        broadcast use vstd::seq_lib::group_to_multiset_ensures;

        let a = w@.pending;
        assert(a.drop_last().push(a.last()) =~= a);
    }
}

proof fn lemma_contains_behind(a: Seq<Seq<u8>>, b: Seq<Seq<u8>>, p: Seq<u8>)
    ensures
        (a + b).contains(p) <==> a.contains(p) || b.contains(p),
{
    let s = a + b;
    if a.contains(p) {
        let i = choose|i: int| 0 <= i < a.len() && a[i] == p;
        assert(s[i] == p);
    }
    if b.contains(p) {
        let i = choose|i: int| 0 <= i < b.len() && b[i] == p;
        assert(s[a.len() + i] == p);
    }
    if s.contains(p) {
        let i = choose|i: int| 0 <= i < s.len() && s[i] == p;
        if i < a.len() {
            assert(a[i] == p);
        } else {
            assert(b[i - a.len()] == p);
        }
    }
}

} // verus!
