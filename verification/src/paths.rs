//! File paths as the bytes that the file system gives: order, parts, joining and decoding.

use vstd::prelude::*;
use vstd::slice::*;
use vstd::utf8::{decode_utf8, valid_utf8};

use crate::text::{lemma_lex_common, lex_le};

verus! {

/// The byte that separates the parts of a path.
pub const SLASH: u8 = 0x2f;

/// The byte of a part that stands for the directory itself.
pub const DOT: u8 = 0x2e;

// ---------------------------------------------------------------------------------------------
// Parts
// ---------------------------------------------------------------------------------------------

/// Whether a path starts at the root.
pub open spec fn absolute(p: Seq<u8>) -> bool {
    p.len() > 0 && p[0] == SLASH
}

/// The length of what comes before the named parts of a path: the root, or a leading `.` part.
pub open spec fn head_length(p: Seq<u8>) -> int {
    if absolute(p) {
        1
    } else if p.len() > 0 && p[0] == DOT && (p.len() == 1 || p[1] == SLASH) {
        1
    } else {
        0
    }
}

/// Where the last part of a path starts, behind a head of the given length.
pub open spec fn part_start(p: Seq<u8>, head: int) -> int
    decreases p.len(),
{
    if p.len() == 0 || p.len() <= head {
        head
    } else if p.last() == SLASH {
        p.len() as int
    } else {
        part_start(p.drop_last(), head)
    }
}

/// The last part of a path.
pub open spec fn last_part(p: Seq<u8>, head: int) -> Seq<u8> {
    p.skip(part_start(p, head))
}

/// A path without its last part and the separator before that.
pub open spec fn without_part(p: Seq<u8>, head: int) -> Seq<u8> {
    let k = part_start(p, head);
    if k > head {
        p.take(k - 1)
    } else {
        p.take(head)
    }
}

/// Whether a part names nothing: it is empty, or stands for the directory itself.
pub open spec fn idle(part: Seq<u8>) -> bool {
    part == Seq::<u8>::empty() || part == seq![DOT]
}

/// A path without the parts at its end that name nothing.
pub open spec fn tidy(p: Seq<u8>, head: int) -> Seq<u8>
    decreases p.len(),
    when 0 <= head
    via tidy_decreases
{
    if p.len() > head && idle(last_part(p, head)) {
        tidy(without_part(p, head), head)
    } else {
        p
    }
}

#[via_fn]
proof fn tidy_decreases(p: Seq<u8>, head: int) {
    if p.len() > head {
        lemma_part_start(p, head);
    }
}

/// The directory that holds the last named part of a path; nothing for the root and the empty
/// path.
pub open spec fn parent_of(p: Seq<u8>) -> Option<Seq<u8>> {
    let head = head_length(p);
    let t = tidy(p, head);
    if t.len() > head {
        Some(tidy(without_part(t, head), head))
    } else if absolute(p) || p.len() == 0 {
        None
    } else {
        Some(Seq::empty())
    }
}

/// The last named part of a path; nothing where there is none, and where it is `..`.
pub open spec fn file_name_of(p: Seq<u8>) -> Option<Seq<u8>> {
    let head = head_length(p);
    let t = tidy(p, head);
    if t.len() > head && last_part(t, head) != seq![DOT, DOT] {
        Some(last_part(t, head))
    } else {
        None
    }
}

/// `part` as seen from the directory `base`.
pub open spec fn path_joined(base: Seq<u8>, part: Seq<u8>) -> Seq<u8> {
    if absolute(part) {
        part
    } else if base.len() > 0 && base.last() != SLASH {
        base.push(SLASH) + part
    } else {
        base + part
    }
}

/// Where a symlink points, one level on: a relative target counts from the directory of the link.
pub open spec fn target_of(link: Seq<u8>, raw: Seq<u8>) -> Option<Seq<u8>> {
    if absolute(raw) {
        Some(raw)
    } else {
        match parent_of(link) {
            Some(dir) => Some(path_joined(dir, raw)),
            None => None,
        }
    }
}

/// A vector by what it holds.
pub open spec fn bytes_view(r: Option<Vec<u8>>) -> Option<Seq<u8>> {
    match r {
        Some(v) => Some(v@),
        None => None,
    }
}

proof fn lemma_part_start(p: Seq<u8>, head: int)
    requires
        0 <= head <= p.len(),
    ensures
        head <= part_start(p, head) <= p.len(),
        part_start(p, head) > head ==> p[part_start(p, head) - 1] == SLASH,
    decreases p.len(),
{
    if p.len() > head && p.last() != SLASH {
        lemma_part_start(p.drop_last(), head);
    }
}

fn head_of(p: &[u8]) -> (r: usize)
    ensures
        r == head_length(p@),
        r <= p@.len(),
{
    if p.len() > 0 && (p[0] == SLASH || (p[0] == DOT && (p.len() == 1 || p[1] == SLASH))) {
        1
    } else {
        0
    }
}

/// Where the last part of the first `len` bytes starts.
fn start_of_part(p: &[u8], len: usize, head: usize) -> (r: usize)
    requires
        head <= len <= p@.len(),
    ensures
        r == part_start(p@.take(len as int), head as int),
        head <= r <= len,
{
    let mut i: usize = len;
    while i > head && p[i - 1] != SLASH
        invariant
            head <= i <= len <= p@.len(),
            part_start(p@.take(len as int), head as int) == part_start(
                p@.take(i as int),
                head as int,
            ),
        decreases i,
    {
        assert(p@.take(i as int).drop_last() =~= p@.take(i - 1));
        i = i - 1;
    }
    i
}

/// The length of the first `len` bytes without the parts at their end that name nothing.
fn tidy_length(p: &[u8], len: usize, head: usize) -> (r: usize)
    requires
        head <= len <= p@.len(),
    ensures
        head <= r <= len,
        p@.take(r as int) == tidy(p@.take(len as int), head as int),
{
    let mut n: usize = len;
    while n > head
        invariant
            head <= n <= len <= p@.len(),
            tidy(p@.take(len as int), head as int) == tidy(p@.take(n as int), head as int),
        ensures
            head <= n <= len <= p@.len(),
            p@.take(n as int) == tidy(p@.take(len as int), head as int),
        decreases n,
    {
        let k = start_of_part(p, n, head);
        let ghost q = p@.take(n as int);
        let ghost part = last_part(q, head as int);
        let empty = k == n;
        let dot = n - k == 1 && p[k] == DOT;
        proof {
            if dot {
                assert(part =~= seq![DOT]);
            }
            if empty {
                assert(part =~= Seq::<u8>::empty());
            }
            if idle(part) {
                assert(part.len() == n - k);
                if part == seq![DOT] {
                    assert(part[0] == p@[k as int]);
                    assert(seq![DOT].len() == 1);
                }
            }
        }
        if !(empty || dot) {
            break;
        }
        if k > head {
            assert(q.take(k - 1) =~= p@.take(k - 1));
            n = k - 1;
        } else {
            assert(q.take(head as int) =~= p@.take(head as int));
            n = head;
        }
    }
    n
}

/// The directory that holds the last named part of a path.
pub fn parent(p: &[u8]) -> (r: Option<Vec<u8>>)
    ensures
        bytes_view(r) == parent_of(p@),
{
    let head = head_of(p);
    let n = tidy_length(p, p.len(), head);
    assert(p@.take(p@.len() as int) =~= p@);
    if n > head {
        let k = start_of_part(p, n, head);
        let cut: usize = if k > head {
            k - 1
        } else {
            head
        };
        let m = tidy_length(p, cut, head);
        assert(p@.take(n as int).take(cut as int) =~= p@.take(cut as int));
        Some(bytes_between(p, 0, m))
    } else if p.len() == 0 || p[0] == SLASH {
        None
    } else {
        let empty: Vec<u8> = Vec::new();
        assert(empty@ =~= Seq::<u8>::empty());
        Some(empty)
    }
}

/// The last named part of a path.
pub fn file_name(p: &[u8]) -> (r: Option<Vec<u8>>)
    ensures
        bytes_view(r) == file_name_of(p@),
{
    let head = head_of(p);
    let n = tidy_length(p, p.len(), head);
    assert(p@.take(p@.len() as int) =~= p@);
    if n > head {
        let k = start_of_part(p, n, head);
        let ghost part = last_part(p@.take(n as int), head as int);
        assert(part =~= p@.subrange(k as int, n as int));
        if n - k == 2 && p[k] == DOT && p[k + 1] == DOT {
            assert(part =~= seq![DOT, DOT]);
            return None;
        }
        proof {
            if part == seq![DOT, DOT] {
                assert(part.len() == 2);
                assert(part[0] == p@[k as int] && part[1] == p@[k + 1]);
            }
        }
        Some(bytes_between(p, k, n))
    } else {
        None
    }
}

/// Copies the bytes from `from` up to `to`.
fn bytes_between(p: &[u8], from: usize, to: usize) -> (r: Vec<u8>)
    requires
        from <= to <= p@.len(),
    ensures
        r@ == p@.subrange(from as int, to as int),
        from == 0 ==> r@ == p@.take(to as int),
{
    let mut r: Vec<u8> = Vec::new();
    let mut i: usize = from;
    while i < to
        invariant
            from <= i <= to <= p@.len(),
            r@ == p@.subrange(from as int, i as int),
        decreases to - i,
    {
        r.push(p[i]);
        i = i + 1;
    }
    assert(from == 0 ==> r@ =~= p@.take(to as int));
    r
}

/// `part` as seen from the directory `base`.
pub fn join_path(base: &[u8], part: &[u8]) -> (r: Vec<u8>)
    ensures
        r@ == path_joined(base@, part@),
{
    if part.len() > 0 && part[0] == SLASH {
        return bytes_between(part, 0, part.len());
    }
    let mut r = bytes_between(base, 0, base.len());
    if base.len() > 0 && base[base.len() - 1] != SLASH {
        r.push(SLASH);
    }
    let ghost start = r@;
    let mut i: usize = 0;
    assert(start + part@.take(0) =~= start);
    while i < part.len()
        invariant
            i <= part@.len(),
            r@ == start + part@.take(i as int),
        decreases part.len() - i,
    {
        r.push(part[i]);
        assert(r@ =~= start + part@.take(i + 1));
        i = i + 1;
    }
    assert(part@.take(part@.len() as int) =~= part@);
    assert(base@.take(base@.len() as int) =~= base@);
    r
}

/// Where the symlink `link`, which holds the target `raw`, points one level on.
pub fn read_indirect(link: &[u8], raw: &[u8]) -> (r: Option<Vec<u8>>)
    ensures
        bytes_view(r) == target_of(link@, raw@),
{
    if raw.len() > 0 && raw[0] == SLASH {
        let all = bytes_between(raw, 0, raw.len());
        assert(all@ =~= raw@);
        Some(all)
    } else {
        match parent(link) {
            Some(dir) => Some(join_path(dir.as_slice(), raw)),
            None => None,
        }
    }
}

// ---------------------------------------------------------------------------------------------
// Order
// ---------------------------------------------------------------------------------------------

/// What a path is compared by: its bytes, with the separator before every other.
pub open spec fn path_key(p: Seq<u8>) -> Seq<int> {
    p.map_values(
        |b: u8|
            if b == SLASH {
                0int
            } else {
                b + 1
            },
    )
}

/// The order of the paths of one directory tree: part by part, each part by its bytes.
pub open spec fn path_le(a: Seq<u8>, b: Seq<u8>) -> bool {
    lex_le(path_key(a), path_key(b))
}

/// Compares two paths.
pub fn path_at_most(a: &[u8], b: &[u8]) -> (r: bool)
    ensures
        r == path_le(a@, b@),
{
    let ghost ka = path_key(a@);
    let ghost kb = path_key(b@);
    let mut i: usize = 0;
    assert(ka.skip(0) =~= ka);
    assert(kb.skip(0) =~= kb);
    while i < a.len() && i < b.len()
        invariant
            i <= a@.len(),
            i <= b@.len(),
            ka == path_key(a@),
            kb == path_key(b@),
            path_le(a@, b@) == lex_le(ka.skip(i as int), kb.skip(i as int)),
        decreases a.len() - i,
    {
        assert(ka.skip(i as int)[0] == ka[i as int]);
        assert(kb.skip(i as int)[0] == kb[i as int]);
        let x: u8 = a[i];
        let y: u8 = b[i];
        if x != y {
            return x == SLASH || (y != SLASH && x < y);
        }
        assert(ka.skip(i as int).drop_first() =~= ka.skip(i + 1));
        assert(kb.skip(i as int).drop_first() =~= kb.skip(i + 1));
        i = i + 1;
    }
    i == a.len()
}

// ---------------------------------------------------------------------------------------------
// Decoding
// ---------------------------------------------------------------------------------------------

/// What bytes read as, with a replacement character wherever they are not UTF-8.
pub uninterp spec fn lossy_text(b: Seq<u8>) -> Seq<char>;

/// Decodes bytes with `String::from_utf8_lossy`. The result depends on the bytes alone, and bytes
/// that are UTF-8 are decoded as they are; where replacement characters go is left unsaid.
#[verifier::external_body]
pub(crate) fn decode_lossy(b: &[u8]) -> (r: String)
    ensures
        r@ == lossy_text(b@),
        valid_utf8(b@) ==> r@ == decode_utf8(b@),
{
    String::from_utf8_lossy(b).into_owned()
}

/// Decodes bytes with `std::str::from_utf8`, which takes UTF-8 and nothing else.
#[verifier::external_body]
pub(crate) fn decode_strict(b: &[u8]) -> (r: Option<String>)
    ensures
        match r {
            Some(s) => valid_utf8(b@) && s@ == decode_utf8(b@),
            None => !valid_utf8(b@),
        },
{
    match std::str::from_utf8(b) {
        Ok(s) => Some(s.to_owned()),
        Err(_) => None,
    }
}

// ---------------------------------------------------------------------------------------------
// Laws
// ---------------------------------------------------------------------------------------------

/// Whether bytes can be the name of a file: there are some, none of them separates parts, and they
/// stand for no directory.
pub open spec fn plain_name(name: Seq<u8>) -> bool {
    &&& name.len() > 0
    &&& forall|i: int| 0 <= i < name.len() ==> #[trigger] name[i] != 0x2f
    &&& name != seq![0x2eu8]
    &&& name != seq![0x2eu8, 0x2eu8]
}

/// Whether bytes can be the path of a directory as it is: there are some, and they end neither with
/// a separator nor with a dot.
pub open spec fn plain_directory(dir: Seq<u8>) -> bool {
    dir.len() > 0 && dir.last() != 0x2f && dir.last() != 0x2e
}

proof fn lemma_part_behind(base: Seq<u8>, name: Seq<u8>, head: int)
    requires
        forall|i: int| 0 <= i < name.len() ==> #[trigger] name[i] != SLASH,
        0 <= head <= base.len(),
        head == base.len() || base.last() == SLASH,
    ensures
        part_start(base + name, head) == base.len(),
    decreases name.len(),
{
    let p = base + name;
    if name.len() > 0 {
        assert(p.last() == name[name.len() - 1]);
        let less = name.drop_last();
        assert forall|i: int| 0 <= i < less.len() implies #[trigger] less[i] != SLASH by {
            assert(less[i] == name[i]);
        }
        lemma_part_behind(base, less, head);
        assert(p.drop_last() =~= base + less);
    } else {
        assert(p =~= base);
    }
}

proof fn lemma_plain_directory(dir: Seq<u8>)
    requires
        plain_directory(dir),
    ensures
        head_length(dir) < dir.len(),
        tidy(dir, head_length(dir)) == dir,
{
    let head = head_length(dir);
    lemma_part_start(dir, head);
    let k = part_start(dir, head);
    let part = last_part(dir, head);
    if part == seq![DOT] {
        assert(part.len() == 1);
        assert(part[0] == dir[k]);
        assert(dir[dir.len() - 1] == DOT);
    }
    if part == Seq::<u8>::empty() {
        assert(part.len() == dir.len() - k);
        if dir.last() != SLASH {
            lemma_part_start(dir.drop_last(), head);
        }
    }
}

/// A file in a directory has its name as the last part, and the directory as its parent.
pub proof fn law_a_file_lies_in_its_directory(dir: Seq<u8>, name: Seq<u8>)
    requires
        plain_directory(dir),
        plain_name(name),
    ensures
        path_joined(dir, name) == dir + seq![0x2fu8] + name,
        parent_of(dir + seq![0x2fu8] + name) == Some(dir),
        file_name_of(dir + seq![0x2fu8] + name) == Some(name),
        parent_of(seq![0x2fu8] + name) == Some(seq![0x2fu8]),
        file_name_of(seq![0x2fu8] + name) == Some(name),
        parent_of(name) == Some(Seq::<u8>::empty()),
        file_name_of(name) == Some(name),
{
    assert(dir.push(SLASH) + name =~= dir + seq![0x2fu8] + name);
    assert(name[0] != SLASH);
    // In a directory.
    let p = dir + seq![0x2fu8] + name;
    let base = dir + seq![0x2fu8];
    let head = head_length(dir);
    lemma_plain_directory(dir);
    assert(p[0] == dir[0]);
    assert(dir.len() > 1 ==> p[1] == dir[1]);
    assert(dir.len() == 1 ==> dir[0] == dir.last());
    assert(head_length(p) == head);
    assert(base.last() == SLASH);
    lemma_part_behind(base, name, head);
    assert(last_part(p, head) =~= name);
    assert(without_part(p, head) =~= dir);
    assert(tidy(p, head) == p);
    // In the root.
    let q = seq![0x2fu8] + name;
    assert(q[0] == SLASH);
    lemma_part_behind(seq![0x2fu8], name, 1);
    assert(last_part(q, 1) =~= name);
    assert(without_part(q, 1) =~= seq![0x2fu8]);
    assert(tidy(q, 1) == q);
    assert(tidy(seq![0x2fu8], 1) == seq![0x2fu8]);
    // In no directory.
    let none = Seq::<u8>::empty();
    assert(head_length(name) == 0) by {
        if name.len() == 1 && name[0] == DOT {
            assert(name =~= seq![0x2eu8]);
        }
        if name.len() > 1 {
            assert(name[1] != SLASH);
        }
    }
    lemma_part_behind(none, name, 0);
    assert(none + name =~= name);
    assert(last_part(name, 0) =~= name);
    assert(without_part(name, 0) =~= none);
    assert(tidy(name, 0) == name);
    assert(tidy(none, 0) == none);
}

/// A path that ends with `..` has no last name, and a separator at the end of a path changes
/// neither its last name nor its parent.
pub proof fn law_ends_of_paths(dir: Seq<u8>, p: Seq<u8>)
    requires
        plain_directory(dir),
        p.len() > 0,
    ensures
        file_name_of(dir + seq![0x2fu8, 0x2eu8, 0x2eu8]) is None,
        file_name_of(p.push(0x2f)) == file_name_of(p),
        parent_of(p.push(0x2f)) == parent_of(p),
{
    let up = seq![0x2eu8, 0x2eu8];
    let base = dir + seq![0x2fu8];
    let q = dir + seq![0x2fu8, 0x2eu8, 0x2eu8];
    let head = head_length(dir);
    lemma_plain_directory(dir);
    assert(q =~= base + up);
    assert(q[0] == dir[0]);
    assert(q[1] == if dir.len() > 1 {
        dir[1]
    } else {
        0x2fu8
    });
    assert(dir.len() == 1 ==> dir[0] == dir.last());
    assert(head_length(q) == head);
    assert(base.last() == SLASH);
    lemma_part_behind(base, up, head);
    assert(last_part(q, head) =~= up);
    assert(up.len() == 2);
    assert(tidy(q, head) == q);
    let r = p.push(0x2f);
    let h = head_length(p);
    assert(r[0] == p[0]);
    assert(p.len() > 1 ==> r[1] == p[1]);
    assert(p.len() == 1 ==> r[1] == SLASH);
    assert(head_length(r) == h);
    assert(r.last() == SLASH);
    assert(part_start(r, h) == r.len());
    assert(last_part(r, h) =~= Seq::<u8>::empty());
    assert(without_part(r, h) =~= p);
    assert(tidy(r, h) == tidy(p, h));
}

/// Where a symlink points: to its target where that starts at the root, and else to the target as
/// seen from the directory of the symlink.
pub proof fn law_targets(dir: Seq<u8>, name: Seq<u8>, raw: Seq<u8>, link: Seq<u8>)
    requires
        plain_directory(dir),
        plain_name(name),
    ensures
        raw.len() > 0 && raw[0] == 0x2f ==> target_of(link, raw) == Some(raw),
        raw.len() == 0 || raw[0] != 0x2f ==> target_of(dir + seq![0x2fu8] + name, raw) == Some(
            dir + seq![0x2fu8] + raw,
        ),
{
    law_a_file_lies_in_its_directory(dir, name);
    assert(dir.push(SLASH) + raw =~= dir + seq![0x2fu8] + raw);
}

/// Paths are ordered part by part: where they agree up to a byte, the one that separates parts
/// there comes first, else the one whose byte is less; and a path comes before what goes on behind
/// it.
pub proof fn law_paths_are_ordered_part_by_part(a: Seq<u8>, b: Seq<u8>, k: int)
    requires
        0 <= k <= a.len(),
        k <= b.len(),
        a.take(k) == b.take(k),
    ensures
        k < a.len() && k < b.len() && a[k] != b[k] && (a[k] == 0x2f || (b[k] != 0x2f && a[k]
            < b[k])) ==> path_le(a, b) && !path_le(b, a),
        k == a.len() ==> path_le(a, b),
{
    let x = path_key(a);
    let y = path_key(b);
    assert forall|i: int| 0 <= i < k implies x[i] == y[i] by {
        assert(a.take(k)[i] == a[i] && b.take(k)[i] == b[i]);
    }
    lemma_lex_common(x, y, k);
    lemma_lex_common(y, x, k);
    if k < x.len() {
        assert(x.skip(k)[0] == x[k]);
    }
    if k < y.len() {
        assert(y.skip(k)[0] == y[k]);
    }
}

/// A part of a path that is empty or a single dot changes nothing: at the end, neither the last
/// name nor the parent; in front of a last name, not the parent.
pub proof fn law_idle_parts_do_not_matter(p: Seq<u8>, name: Seq<u8>)
    requires
        p.len() > 0,
        name.len() > 0,
        forall|i: int| 0 <= i < name.len() ==> #[trigger] name[i] != 0x2f,
        name != seq![0x2eu8],
    ensures
        file_name_of(p + seq![0x2fu8, 0x2eu8]) == file_name_of(p),
        parent_of(p + seq![0x2fu8, 0x2eu8]) == parent_of(p),
        parent_of(p + seq![0x2fu8, 0x2fu8] + name) == parent_of(p + seq![0x2fu8] + name),
        parent_of(p + seq![0x2fu8, 0x2eu8, 0x2fu8] + name) == parent_of(p + seq![0x2fu8] + name),
{
    lemma_dot_behind(p);
    lemma_named(p, name);
    let q = p.push(0x2f);
    lemma_named(q, name);
    assert(q + seq![0x2fu8] + name =~= p + seq![0x2fu8, 0x2fu8] + name);
    lemma_slash_behind(p);
    let r = p + seq![0x2fu8, 0x2eu8];
    lemma_named(r, name);
    assert(r + seq![0x2fu8] + name =~= p + seq![0x2fu8, 0x2eu8, 0x2fu8] + name);
}

proof fn lemma_slash_behind(p: Seq<u8>)
    requires
        p.len() > 0,
    ensures
        head_length(p.push(0x2f)) == head_length(p),
        tidy(p.push(0x2f), head_length(p)) == tidy(p, head_length(p)),
{
    let r = p.push(0x2f);
    let h = head_length(p);
    assert(r[0] == p[0]);
    assert(p.len() > 1 ==> r[1] == p[1]);
    assert(p.len() == 1 ==> r[1] == SLASH);
    assert(head_length(r) == h);
    assert(r.last() == SLASH);
    assert(part_start(r, h) == r.len());
    assert(last_part(r, h) =~= Seq::<u8>::empty());
    assert(without_part(r, h) =~= p);
}

proof fn lemma_dot_behind(p: Seq<u8>)
    requires
        p.len() > 0,
    ensures
        head_length(p + seq![0x2fu8, 0x2eu8]) == head_length(p),
        tidy(p + seq![0x2fu8, 0x2eu8], head_length(p)) == tidy(p, head_length(p)),
        absolute(p + seq![0x2fu8, 0x2eu8]) == absolute(p),
{
    let r = p + seq![0x2fu8, 0x2eu8];
    let h = head_length(p);
    let base = p.push(0x2f);
    let dot = seq![0x2eu8];
    assert(r =~= base + dot);
    assert(r[0] == p[0]);
    assert(p.len() > 1 ==> r[1] == p[1]);
    assert(p.len() == 1 ==> r[1] == SLASH);
    assert(head_length(r) == h);
    assert(base.last() == SLASH);
    lemma_part_behind(base, dot, h);
    assert(last_part(r, h) =~= dot);
    assert(without_part(r, h) =~= p);
}

proof fn lemma_named(p: Seq<u8>, name: Seq<u8>)
    requires
        p.len() > 0,
        name.len() > 0,
        forall|i: int| 0 <= i < name.len() ==> #[trigger] name[i] != 0x2f,
        name != seq![0x2eu8],
    ensures
        parent_of(p + seq![0x2fu8] + name) == Some(tidy(p, head_length(p))),
{
    let base = p + seq![0x2fu8];
    let q = base + name;
    let h = head_length(p);
    assert(q[0] == p[0]);
    assert(p.len() > 1 ==> q[1] == p[1]);
    assert(p.len() == 1 ==> q[1] == SLASH);
    assert(head_length(q) == h);
    assert(base.last() == SLASH);
    lemma_part_behind(base, name, h);
    assert(last_part(q, h) =~= name);
    assert(without_part(q, h) =~= p);
    assert(tidy(q, h) == q);
}

/// A path of separators alone, or of nothing at all, has neither a last name nor a parent.
pub proof fn law_the_root_has_no_parent(p: Seq<u8>)
    requires
        forall|i: int| 0 <= i < p.len() ==> #[trigger] p[i] == 0x2f,
    ensures
        parent_of(p) is None,
        file_name_of(p) is None,
    decreases p.len(),
{
    if p.len() > 1 {
        let rest = p.drop_last();
        assert forall|i: int| 0 <= i < rest.len() implies #[trigger] rest[i] == 0x2f by {
            assert(rest[i] == p[i]);
        }
        assert(rest.push(0x2f) =~= p);
        lemma_slash_behind(rest);
        law_the_root_has_no_parent(rest);
        assert(absolute(p) && absolute(rest));
    }
}

} // verus!
