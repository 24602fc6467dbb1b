//! What holds of the sizes as a whole, with a store that answers truly: a warm cache asks the Nix
//! store nothing, a cache of which all is true does not show in the sizes, and any other shows in
//! the same way in every run that starts from it.

use vstd::prelude::*;

use crate::cache::{blank, CacheView};
use crate::nix::{
    after, answer_of, chunk_end, dead_of, later, lemma_later_nothing, lemma_later_twice, lines_from,
    lines_query, parsed_sizes, printed, sizes_from, QueryView, ReplyView, Store, StoreErrorView,
};
use crate::size::{
    closed, cold, filled, group_run, groups_after, groups_from, measuring, missing_of, sizes_in,
    tally_of, total, warm, warning, JobView, Known, SizedGroups, Tally,
};
use crate::summary::{
    collectable_run, knowing, minus, pinned_run, reclaimable_run, survey_run, system_sized,
    user_closed, user_sized, Outcome, PlanView, Progress, Summary,
};
use crate::text::{
    joined, law_sorted_sets, lemma_sorted_set_exists, lemma_sorted_set_of_set, lines_of, sorted_set,
};
use crate::walk::set_key;

verus! {

// ---------------------------------------------------------------------------------------------
// A warm cache
// ---------------------------------------------------------------------------------------------

/// Whether a store tells that paths exist.
pub open spec fn tells_present(store: Store, paths: Seq<Seq<char>>) -> bool {
    answer_of(store, QueryView::Present(paths)) == ReplyView::Present(true)
}

/// Whether a store tells that paths exist, whatever it was asked before.
pub open spec fn keeps(store: Store, paths: Seq<Seq<char>>) -> bool {
    forall|asked: Seq<QueryView>| #[trigger] tells_present(later(store, asked), paths)
}

/// Whether the cache knows the size of every group from `i` on that has members, and all their
/// members exist.
pub open spec fn all_warm(jobs: Seq<JobView>, i: int, cache: CacheView, store: Store) -> bool {
    forall|k: int|
        i <= k < jobs.len() && (#[trigger] jobs[k]).members.len() > 0 ==> {
            &&& cache.groups.contains_key(set_key(jobs[k].members))
            &&& keeps(store, jobs[k].members)
        }
}

proof fn lemma_keeps_later(store: Store, paths: Seq<Seq<char>>, asked: Seq<QueryView>)
    requires
        keeps(store, paths),
    ensures
        tells_present(store, paths),
        keeps(later(store, asked), paths),
{
    lemma_later_nothing(store);
    assert(tells_present(later(store, Seq::empty()), paths));
    assert forall|more: Seq<QueryView>|
        #[trigger] tells_present(later(later(store, asked), more), paths) by {
        lemma_later_twice(store, asked, more);
        assert(tells_present(later(store, asked + more), paths));
    }
}

/// The size that the cache knows for a group.
pub open spec fn cached_size(job: JobView, cache: CacheView) -> u64 {
    if job.members.len() == 0 {
        0
    } else {
        cache.groups[set_key(job.members)]
    }
}

/// A warm, unchanged run reads every group size from the cache: it asks the Nix store nothing,
/// warns of nothing and leaves the cache as it is.
pub proof fn law_warm_run_asks_nix_nothing(
    jobs: Seq<JobView>,
    i: int,
    out: Seq<u64>,
    warnings: Seq<Seq<char>>,
    cache: CacheView,
    store: Store,
)
    requires
        0 <= i <= jobs.len(),
        all_warm(jobs, i, cache, store),
    ensures
        ({
            let run = groups_from(jobs, i, out, warnings, cache, store);
            &&& forall|k: int| 0 <= k < run.asked.len() ==> !(#[trigger] run.asked[k]).asks_nix()
            &&& run.result == (SizedGroups {
                sizes: Some(
                    out + jobs.skip(i).map_values(|j: JobView| cached_size(j, cache)),
                ),
                warnings,
                cache,
            })
        }),
    decreases jobs.len() - i,
{
    let run = groups_from(jobs, i, out, warnings, cache, store);
    let f = |j: JobView| cached_size(j, cache);
    if i < jobs.len() {
        let n = cached_size(jobs[i], cache);
        let g = group_run(jobs[i].members, cache, store);
        if jobs[i].members.len() > 0 {
            lemma_keeps_later(store, jobs[i].members, g.asked);
        }
        assert(g.result == (Tally::Size(n), cache));
        assert(forall|k: int| 0 <= k < g.asked.len() ==> !(#[trigger] g.asked[k]).asks_nix());
        let next = later(store, g.asked);
        let rest = groups_from(jobs, i + 1, out.push(n), warnings, cache, next);
        assert forall|k: int|
            i + 1 <= k < jobs.len() && (#[trigger] jobs[k]).members.len() > 0 implies keeps(
            next,
            jobs[k].members,
        ) by {
            lemma_keeps_later(store, jobs[k].members, g.asked);
        }
        law_warm_run_asks_nix_nothing(jobs, i + 1, out.push(n), warnings, cache, next);
        assert(run == after(g.asked, rest));
        assert forall|k: int| 0 <= k < run.asked.len() implies !(
        #[trigger] run.asked[k]).asks_nix() by {
            if k < g.asked.len() {
                assert(run.asked[k] == g.asked[k]);
            } else {
                assert(run.asked[k] == rest.asked[k - g.asked.len()]);
            }
        }
        assert(jobs.skip(i).map_values(f) =~= seq![n] + jobs.skip(i + 1).map_values(f));
        assert(out + jobs.skip(i).map_values(f) =~= out.push(n) + jobs.skip(i + 1).map_values(f));
    } else {
        assert(out + jobs.skip(i).map_values(f) =~= out);
    }
}

// ---------------------------------------------------------------------------------------------
// The facts behind a store
// ---------------------------------------------------------------------------------------------

/// What is true of the paths that are in a store: the closure of each, and its size, neither of
/// which ever changes; and which sets of members groups have.
pub struct Facts {
    pub covers: spec_fn(Seq<char>) -> bool,
    pub closure: spec_fn(Seq<char>) -> Seq<Seq<char>>,
    pub size: spec_fn(Seq<char>) -> u64,
    pub sets: spec_fn(Seq<Seq<char>>) -> bool,
}

/// Whether the facts cover all of the paths.
pub open spec fn covered(f: Facts, paths: Seq<Seq<char>>) -> bool {
    forall|i: int| 0 <= i < paths.len() ==> (f.covers)(#[trigger] paths[i])
}

/// Whether the facts cover the closure of every path that they cover.
pub open spec fn closed_under(f: Facts) -> bool {
    forall|p: Seq<char>| (f.covers)(p) ==> covered(f, #[trigger] (f.closure)(p))
}

/// The closures of paths, one after the other.
pub open spec fn closures(f: Facts, paths: Seq<Seq<char>>) -> Seq<Seq<char>>
    decreases paths.len(),
{
    if paths.len() == 0 {
        Seq::empty()
    } else {
        closures(f, paths.drop_last()) + (f.closure)(paths.last())
    }
}

/// The sizes of paths.
pub open spec fn sizes_by(f: Facts, paths: Seq<Seq<char>>) -> Seq<u64> {
    paths.map_values(|p: Seq<char>| (f.size)(p))
}

/// The union closure size of members: each path of the union of their closures counts once.
pub open spec fn closure_size(f: Facts, members: Seq<Seq<char>>) -> nat {
    total(sizes_by(f, sorted_set(closures(f, members))))
}

/// Whether a store tells the closure of paths by the facts.
pub open spec fn tells_closure(store: Store, f: Facts, paths: Seq<Seq<char>>) -> bool {
    let q = QueryView::Requisites(paths);
    printed(q, answer_of(store, q)) matches Ok(text) && lines_of(text).to_set() == closures(
        f,
        paths,
    ).to_set()
}

/// Whether a store tells the sizes of paths by the facts.
pub open spec fn tells_sizes(store: Store, f: Facts, paths: Seq<Seq<char>>) -> bool {
    let q = QueryView::Sizes(paths);
    printed(q, answer_of(store, q)) matches Ok(text) && parsed_sizes(
        lines_of(text),
        Seq::empty(),
    ) == Ok::<Seq<u64>, StoreErrorView>(sizes_by(f, paths))
}

/// Whether a store answers every question for the closure or for the sizes of paths that the facts
/// cover, whatever it was asked before, and by the facts. Of other paths nothing is said.
pub open spec fn honest(store: Store, f: Facts) -> bool {
    &&& closed_under(f)
    &&& forall|asked: Seq<QueryView>, paths: Seq<Seq<char>>|
        covered(f, paths) ==> #[trigger] tells_closure(later(store, asked), f, paths)
    &&& forall|asked: Seq<QueryView>, paths: Seq<Seq<char>>|
        covered(f, paths) ==> #[trigger] tells_sizes(later(store, asked), f, paths)
}

/// An honest store answers by the facts right now, and stays honest.
proof fn lemma_honest_later(store: Store, f: Facts, asked: Seq<QueryView>)
    requires
        honest(store, f),
    ensures
        forall|paths: Seq<Seq<char>>|
            covered(f, paths) ==> #[trigger] tells_closure(store, f, paths),
        forall|paths: Seq<Seq<char>>|
            covered(f, paths) ==> #[trigger] tells_sizes(store, f, paths),
        honest(later(store, asked), f),
{
    lemma_later_nothing(store);
    let none = Seq::<QueryView>::empty();
    assert forall|paths: Seq<Seq<char>>| covered(f, paths) implies #[trigger] tells_closure(
        store,
        f,
        paths,
    ) by {
        assert(tells_closure(later(store, none), f, paths));
    }
    assert forall|paths: Seq<Seq<char>>| covered(f, paths) implies #[trigger] tells_sizes(
        store,
        f,
        paths,
    ) by {
        assert(tells_sizes(later(store, none), f, paths));
    }
    let next = later(store, asked);
    assert forall|more: Seq<QueryView>, paths: Seq<Seq<char>>|
        covered(f, paths) implies #[trigger] tells_closure(later(next, more), f, paths) by {
        lemma_later_twice(store, asked, more);
        assert(tells_closure(later(store, asked + more), f, paths));
    }
    assert forall|more: Seq<QueryView>, paths: Seq<Seq<char>>|
        covered(f, paths) implies #[trigger] tells_sizes(later(next, more), f, paths) by {
        lemma_later_twice(store, asked, more);
        assert(tells_sizes(later(store, asked + more), f, paths));
    }
}

/// Whether paths can be told apart in a key: there is one at least, and none has a line feed in
/// it. No store path has.
pub open spec fn plain(members: Seq<Seq<char>>) -> bool {
    &&& members.len() > 0
    &&& forall|i: int, k: int|
        0 <= i < members.len() && 0 <= k < members[i].len() ==> #[trigger] members[i][k] != '\n'
}

/// Whether a group has these members, and the facts cover them.
pub open spec fn listed(f: Facts, members: Seq<Seq<char>>) -> bool {
    members.len() > 0 && (f.sets)(members) && covered(f, members)
}

/// Whether member sets that share a key share their closure size.
pub open spec fn keys_tell_apart(f: Facts) -> bool {
    forall|a: Seq<Seq<char>>, b: Seq<Seq<char>>|
        listed(f, a) && listed(f, b) && #[trigger] set_key(a) == #[trigger] set_key(b)
            ==> closure_size(f, a) == closure_size(f, b)
}

/// Whether members that share a key exist together.
pub open spec fn keys_tell_presence(f: Facts, here: spec_fn(Seq<Seq<char>>) -> bool) -> bool {
    forall|a: Seq<Seq<char>>, b: Seq<Seq<char>>|
        listed(f, a) && listed(f, b) && #[trigger] set_key(a) == #[trigger] set_key(b) ==> here(a)
            == here(b)
}

/// Whether known sizes are those of the facts.
pub open spec fn sound_sizes(known: Known, f: Facts) -> bool {
    forall|p: Seq<char>| #[trigger] known.contains_key(p) ==> known[p] == (f.size)(p)
}

/// Whether all that a cache knows is true.
pub open spec fn sound(cache: CacheView, f: Facts) -> bool {
    &&& sound_sizes(cache.sizes, f)
    &&& forall|m: Seq<Seq<char>>|
        listed(f, m) && cache.groups.contains_key(#[trigger] set_key(m))
            ==> cache.groups[set_key(m)] == closure_size(f, m)
}

/// A text without line feeds behind a line feed can be told from what is before it.
proof fn lemma_last_line(a: Seq<char>, x: Seq<char>, b: Seq<char>, y: Seq<char>)
    requires
        a + seq!['\n'] + x == b + seq!['\n'] + y,
        forall|k: int| 0 <= k < x.len() ==> #[trigger] x[k] != '\n',
        forall|k: int| 0 <= k < y.len() ==> #[trigger] y[k] != '\n',
    ensures
        a == b,
        x == y,
{
    let s = a + seq!['\n'] + x;
    let t = b + seq!['\n'] + y;
    assert(s.len() == a.len() + 1 + x.len());
    assert(t.len() == b.len() + 1 + y.len());
    assert(s[a.len() as int] == '\n');
    assert(t[b.len() as int] == '\n');
    if a.len() < b.len() {
        assert(s[b.len() as int] == x[b.len() - a.len() - 1]);
    } else if a.len() > b.len() {
        assert(t[a.len() as int] == y[a.len() - b.len() - 1]);
    }
    assert forall|i: int| 0 <= i < a.len() implies a[i] == b[i] by {
        assert(s[i] == a[i] && t[i] == b[i]);
    }
    assert(a =~= b);
    assert forall|i: int| 0 <= i < x.len() implies x[i] == y[i] by {
        assert(s[a.len() + 1 + i] == x[i] && t[b.len() + 1 + i] == y[i]);
    }
    assert(x =~= y);
}

proof fn lemma_newline()
    ensures
        "\n"@ == seq!['\n'],
{
    reveal_strlit("\n");
    assert("\n"@ =~= seq!['\n']);
}

/// The key of a member set holds the whole set: sets with one key are the same.
pub proof fn law_key_determines_members(a: Seq<Seq<char>>, b: Seq<Seq<char>>)
    requires
        plain(a),
        plain(b),
        set_key(a) == set_key(b),
    ensures
        a == b,
    decreases a.len(),
{
    lemma_newline();
    let sep = "\n"@;
    let x = a.last();
    let y = b.last();
    assert forall|k: int| 0 <= k < x.len() implies #[trigger] x[k] != '\n' by {
        assert(a[a.len() - 1][k] != '\n');
    }
    assert forall|k: int| 0 <= k < y.len() implies #[trigger] y[k] != '\n' by {
        assert(b[b.len() - 1][k] != '\n');
    }
    if a.len() == 1 && b.len() == 1 {
        assert(a =~= b);
    } else if a.len() == 1 {
        let front = joined(b.drop_last(), sep);
        assert(set_key(b) == front + sep + y);
        assert(set_key(b)[front.len() as int] == '\n');
        assert(x[front.len() as int] != '\n');
    } else if b.len() == 1 {
        let front = joined(a.drop_last(), sep);
        assert(set_key(a) == front + sep + x);
        assert(set_key(a)[front.len() as int] == '\n');
        assert(y[front.len() as int] != '\n');
    } else {
        let a0 = a.drop_last();
        let b0 = b.drop_last();
        lemma_last_line(joined(a0, sep), x, joined(b0, sep), y);
        assert forall|i: int, k: int| 0 <= i < a0.len() && 0 <= k < a0[i].len() implies
            #[trigger] a0[i][k] != '\n' by {
            assert(a[i][k] != '\n');
        }
        assert forall|i: int, k: int| 0 <= i < b0.len() && 0 <= k < b0[i].len() implies
            #[trigger] b0[i][k] != '\n' by {
            assert(b[i][k] != '\n');
        }
        law_key_determines_members(a0, b0);
        assert(a =~= a0.push(x));
        assert(b =~= b0.push(y));
    }
}

/// Member sets of which no path has a line feed in it are told apart by their keys.
pub proof fn law_plain_members_are_told_apart(f: Facts, here: spec_fn(Seq<Seq<char>>) -> bool)
    requires
        forall|m: Seq<Seq<char>>| #[trigger] listed(f, m) ==> plain(m),
    ensures
        keys_tell_apart(f),
        keys_tell_presence(f, here),
{
    assert forall|a: Seq<Seq<char>>, b: Seq<Seq<char>>|
        listed(f, a) && listed(f, b) && #[trigger] set_key(a) == #[trigger] set_key(
            b,
        ) implies closure_size(f, a) == closure_size(f, b) && here(a) == here(b) by {
        law_key_determines_members(a, b);
    }
}

proof fn lemma_covered_among(f: Facts, a: Seq<Seq<char>>, b: Seq<Seq<char>>)
    requires
        covered(f, b),
        forall|x: Seq<char>| #[trigger] a.contains(x) ==> b.contains(x),
    ensures
        covered(f, a),
{
    assert forall|i: int| 0 <= i < a.len() implies (f.covers)(#[trigger] a[i]) by {
        assert(a.contains(a[i]));
        let k = choose|k: int| 0 <= k < b.len() && b[k] == a[i];
        assert((f.covers)(b[k]));
    }
}

/// The facts cover the closures of the paths that they cover.
proof fn lemma_closures_covered(f: Facts, paths: Seq<Seq<char>>)
    requires
        closed_under(f),
        covered(f, paths),
    ensures
        covered(f, closures(f, paths)),
    decreases paths.len(),
{
    if paths.len() > 0 {
        let rest = paths.drop_last();
        assert forall|i: int| 0 <= i < rest.len() implies (f.covers)(#[trigger] rest[i]) by {
            assert(rest[i] == paths[i]);
        }
        lemma_closures_covered(f, rest);
        assert((f.covers)(paths[paths.len() - 1]));
        let a = closures(f, rest);
        let b = (f.closure)(paths.last());
        assert(covered(f, b));
        assert forall|i: int| 0 <= i < (a + b).len() implies (f.covers)(#[trigger] (a + b)[i]) by {
            if i < a.len() {
                assert((a + b)[i] == a[i]);
            } else {
                assert((a + b)[i] == b[i - a.len()]);
            }
        }
    }
}

/// The facts cover the closure of the paths that they cover, as it is measured.
proof fn lemma_closure_covered(f: Facts, paths: Seq<Seq<char>>)
    requires
        closed_under(f),
        covered(f, paths),
    ensures
        covered(f, sorted_set(closures(f, paths))),
{
    let all = closures(f, paths);
    lemma_closures_covered(f, paths);
    lemma_sorted_set_exists(all);
    assert forall|x: Seq<char>| #[trigger] sorted_set(all).contains(x) implies all.contains(x) by {
        assert(sorted_set(all).to_set().contains(x) == all.to_set().contains(x));
    }
    lemma_covered_among(f, sorted_set(all), all);
}

proof fn lemma_closures_add(f: Facts, a: Seq<Seq<char>>, b: Seq<Seq<char>>)
    ensures
        closures(f, a + b) == closures(f, a) + closures(f, b),
    decreases b.len(),
{
    if b.len() == 0 {
        assert(a + b =~= a);
        assert(closures(f, a) + closures(f, b) =~= closures(f, a));
    } else {
        let b0 = b.drop_last();
        lemma_closures_add(f, a, b0);
        assert((a + b).drop_last() =~= a + b0);
        assert((a + b).last() == b.last());
        assert(closures(f, a + b) =~= closures(f, a) + closures(f, b));
    }
}

/// The lines of an honest store for the closure of paths are the closure of the paths.
proof fn lemma_honest_lines(
    store: Store,
    f: Facts,
    paths: Seq<Seq<char>>,
    pos: int,
    found: Seq<Seq<char>>,
)
    requires
        honest(store, f),
        covered(f, paths),
        0 <= pos <= paths.len(),
    ensures
        ({
            let r = lines_from(false, paths, pos, found, store).result;
            r matches Ok(all) && all.to_set() == (found + closures(f, paths.skip(pos))).to_set()
        }),
    decreases paths.len() - pos,
{
    if pos < paths.len() {
        let end = chunk_end(paths.len() as int, pos);
        let chunk = paths.subrange(pos, end);
        let q = QueryView::Requisites(chunk);
        assert(lines_query(false, chunk) == q);
        lemma_honest_later(store, f, seq![q]);
        assert forall|i: int| 0 <= i < chunk.len() implies (f.covers)(#[trigger] chunk[i]) by {
            assert(chunk[i] == paths[pos + i]);
        }
        assert(tells_closure(store, f, chunk));
        let text = printed(q, answer_of(store, q))->Ok_0;
        let new = lines_of(text);
        lemma_honest_lines(later(store, seq![q]), f, paths, end, found + new);
        assert(paths.skip(pos) =~= chunk + paths.skip(end));
        lemma_closures_add(f, chunk, paths.skip(end));
        let tail = closures(f, paths.skip(end));
        let a = found + new + tail;
        let b = found + (closures(f, chunk) + tail);
        assert forall|x: Seq<char>| a.to_set().contains(x) <==> b.to_set().contains(x) by {
            lemma_contains_add(found + new, tail, x);
            lemma_contains_add(found, new, x);
            lemma_contains_add(found, closures(f, chunk) + tail, x);
            lemma_contains_add(closures(f, chunk), tail, x);
            assert(new.to_set().contains(x) == closures(f, chunk).to_set().contains(x));
        }
        assert(a.to_set() =~= b.to_set());
    } else {
        assert(paths.skip(pos) =~= Seq::<Seq<char>>::empty());
        assert(closures(f, Seq::empty()) == Seq::<Seq<char>>::empty());
        assert(found + closures(f, paths.skip(pos)) =~= found);
    }
}

proof fn lemma_contains_add(a: Seq<Seq<char>>, b: Seq<Seq<char>>, x: Seq<char>)
    ensures
        (a + b).contains(x) == (a.contains(x) || b.contains(x)),
{
    if a.contains(x) {
        let i = choose|i: int| 0 <= i < a.len() && a[i] == x;
        assert((a + b)[i] == x);
    }
    if b.contains(x) {
        let i = choose|i: int| 0 <= i < b.len() && b[i] == x;
        assert((a + b)[a.len() + i] == x);
    }
    if (a + b).contains(x) {
        let i = choose|i: int| 0 <= i < (a + b).len() && (a + b)[i] == x;
        if i < a.len() {
            assert(a[i] == x);
        } else {
            assert(b[i - a.len()] == x);
        }
    }
}

/// Sizes that are read behind others come behind them.
proof fn lemma_parsed_behind(lines: Seq<Seq<char>>, a: Seq<u64>, b: Seq<u64>, v: Seq<u64>)
    requires
        parsed_sizes(lines, b) == Ok::<Seq<u64>, StoreErrorView>(v),
    ensures
        parsed_sizes(lines, a + b) == Ok::<Seq<u64>, StoreErrorView>(a + v),
    decreases lines.len(),
{
    if lines.len() > 0 {
        let n = crate::number::number_of(crate::text::trimmed(lines[0]))->0;
        lemma_parsed_behind(lines.drop_first(), a, b.push(n), v);
        assert((a + b).push(n) =~= a + b.push(n));
    }
}

/// An honest store gives the sizes of the paths.
proof fn lemma_honest_sizes(
    store: Store,
    f: Facts,
    paths: Seq<Seq<char>>,
    pos: int,
    found: Seq<u64>,
)
    requires
        honest(store, f),
        covered(f, paths),
        0 <= pos <= paths.len(),
        found == sizes_by(f, paths.take(pos)),
    ensures
        sizes_from(paths, pos, found, store).result == Ok::<Seq<u64>, StoreErrorView>(
            sizes_by(f, paths),
        ),
    decreases paths.len() - pos,
{
    if pos < paths.len() {
        let end = chunk_end(paths.len() as int, pos);
        let chunk = paths.subrange(pos, end);
        let q = QueryView::Sizes(chunk);
        lemma_honest_later(store, f, seq![q]);
        assert forall|i: int| 0 <= i < chunk.len() implies (f.covers)(#[trigger] chunk[i]) by {
            assert(chunk[i] == paths[pos + i]);
        }
        assert(tells_sizes(store, f, chunk));
        let text = printed(q, answer_of(store, q))->Ok_0;
        lemma_parsed_behind(lines_of(text), found, Seq::empty(), sizes_by(f, chunk));
        assert(found + Seq::<u64>::empty() =~= found);
        assert(found + sizes_by(f, chunk) =~= sizes_by(f, paths.take(end)));
        lemma_honest_sizes(later(store, seq![q]), f, paths, end, found + sizes_by(f, chunk));
    } else {
        assert(paths.take(pos) =~= paths);
    }
}

/// Whether every path has in `g` the size that is known of it, and where none is known the one that
/// it has in `f`.
pub open spec fn fills_in(known: Known, f: Facts, g: Facts) -> bool {
    &&& g.closure == f.closure
    &&& forall|p: Seq<char>|
        (g.size)(p) == if #[trigger] known.contains_key(p) {
            known[p]
        } else {
            (f.size)(p)
        }
}

proof fn lemma_same_closures(f: Facts, g: Facts, paths: Seq<Seq<char>>)
    requires
        g.closure == f.closure,
    ensures
        closures(g, paths) == closures(f, paths),
    decreases paths.len(),
{
    if paths.len() > 0 {
        lemma_same_closures(f, g, paths.drop_last());
    }
}

/// Filling in the true sizes of paths that are not known leaves the size of every path as it was,
/// and makes the paths known.
proof fn lemma_filled(known: Known, f: Facts, g: Facts, paths: Seq<Seq<char>>)
    requires
        fills_in(known, f, g),
        forall|i: int| 0 <= i < paths.len() ==> !known.contains_key(#[trigger] paths[i]),
    ensures
        ({
            let more = filled(known, paths, sizes_by(f, paths));
            &&& fills_in(more, f, g)
            &&& forall|p: Seq<char>|
                #[trigger] more.contains_key(p) <==> (known.contains_key(p) || paths.contains(p))
        }),
    decreases paths.len(),
{
    if paths.len() > 0 {
        let rest = paths.drop_last();
        let l = paths.last();
        assert forall|i: int| 0 <= i < rest.len() implies !known.contains_key(
            #[trigger] rest[i],
        ) by {
            assert(rest[i] == paths[i]);
        }
        lemma_filled(known, f, g, rest);
        assert(sizes_by(f, paths).drop_last() =~= sizes_by(f, rest));
        assert(!known.contains_key(paths[paths.len() - 1]));
        let less = filled(known, rest, sizes_by(f, rest));
        let more = filled(known, paths, sizes_by(f, paths));
        assert(more == less.insert(l, (f.size)(l)));
        assert forall|p: Seq<char>| #[trigger] more.contains_key(p) <==> (known.contains_key(p)
            || paths.contains(p)) by {
            assert(less.contains_key(p) <==> (known.contains_key(p) || rest.contains(p)));
            assert(paths =~= rest + seq![l]);
            lemma_contains_add(rest, seq![l], p);
            if p == l {
                assert(seq![l][0] == p);
            }
        }
        assert forall|p: Seq<char>|
            (g.size)(p) == if #[trigger] more.contains_key(p) {
                more[p]
            } else {
                (f.size)(p)
            } by {
            assert(less.contains_key(p) || !less.contains_key(p));
            assert(known.contains_key(p) || !known.contains_key(p));
        }
    }
}

/// Measuring paths gives their known sizes, and the true ones of those that are not known.
proof fn lemma_honest_measure(
    store: Store,
    f: Facts,
    g: Facts,
    paths: Seq<Seq<char>>,
    known: Known,
)
    requires
        honest(store, f),
        fills_in(known, f, g),
        covered(f, paths),
    ensures
        ({
            let m = measuring(paths, known, store).result;
            &&& m.sizes == Ok::<Seq<u64>, StoreErrorView>(sizes_by(g, paths))
            &&& fills_in(m.known, f, g)
        }),
{
    let missing = missing_of(paths, known);
    let p = |p: Seq<char>| !known.contains_key(p);
    assert forall|x: Seq<char>| #[trigger] missing.contains(x) implies paths.contains(x)
        && !known.contains_key(x) by {
        lemma_filter_holds(paths, p, x);
    }
    assert forall|i: int| 0 <= i < missing.len() implies !known.contains_key(
        #[trigger] missing[i],
    ) by {
        assert(missing.contains(missing[i]));
    }
    lemma_covered_among(f, missing, paths);
    assert(sizes_by(f, missing.take(0)) =~= Seq::<u64>::empty());
    lemma_honest_sizes(store, f, missing, 0, Seq::empty());
    lemma_filled(known, f, g, missing);
    let more = filled(known, missing, sizes_by(f, missing));
    assert forall|i: int| 0 <= i < paths.len() implies sizes_in(paths, more)[i] == sizes_by(
        g,
        paths,
    )[i] by {
        if !known.contains_key(paths[i]) {
            paths.lemma_filter_contains(p, i);
            assert(missing.contains(paths[i]));
        }
        assert(more.contains_key(paths[i]));
    }
    assert(sizes_in(paths, more) =~= sizes_by(g, paths));
}

/// With an honest store a group that has to be measured has its closure size, by what is known and
/// else by what is true, and the cache then knows it.
proof fn lemma_honest_cold(
    store: Store,
    f: Facts,
    g: Facts,
    members: Seq<Seq<char>>,
    cache: CacheView,
)
    requires
        honest(store, f),
        fills_in(cache.sizes, f, g),
        covered(f, members),
        closure_size(g, members) <= u64::MAX,
    ensures
        ({
            let r = cold(members, cache, store).result;
            &&& r.0 == Tally::Size(closure_size(g, members) as u64)
            &&& fills_in(r.1.sizes, f, g)
            &&& r.1.groups == cache.groups.insert(
                set_key(members),
                closure_size(g, members) as u64,
            )
        }),
{
    let key = set_key(members);
    let run = lines_from(false, members, 0, Seq::empty(), store);
    lemma_honest_lines(store, f, members, 0, Seq::empty());
    let all = run.result->Ok_0;
    assert(members.skip(0) =~= members);
    assert(Seq::<Seq<char>>::empty() + closures(f, members) =~= closures(f, members));
    lemma_sorted_set_of_set(all, closures(f, members));
    lemma_closure_covered(f, members);
    lemma_same_closures(f, g, members);
    let reqs = sorted_set(all);
    let next = later(store, run.asked);
    lemma_honest_later(store, f, run.asked);
    lemma_honest_measure(next, f, g, reqs, cache.sizes);
    let m = measuring(reqs, cache.sizes, next).result;
    let c = closed(m, key, cache);
    assert(c.0 == Tally::Size(closure_size(g, members) as u64));
    assert(cold(members, cache, store).result == c);
}

/// With an honest store a group that has to be measured leaves the sizes of its closure in the
/// cache, and those that were there.
pub proof fn lemma_cold_remembers(
    store: Store,
    f: Facts,
    members: Seq<Seq<char>>,
    cache: CacheView,
    p: Seq<char>,
)
    requires
        honest(store, f),
        sound_sizes(cache.sizes, f),
        covered(f, members),
        closure_size(f, members) <= u64::MAX,
        closures(f, members).contains(p) || cache.sizes.contains_key(p),
    ensures
        ({
            let r = cold(members, cache, store).result;
            r.1.sizes.contains_key(p) && r.1.sizes[p] == (f.size)(p)
        }),
{
    let run = lines_from(false, members, 0, Seq::empty(), store);
    lemma_honest_lines(store, f, members, 0, Seq::empty());
    let all = run.result->Ok_0;
    assert(members.skip(0) =~= members);
    assert(Seq::<Seq<char>>::empty() + closures(f, members) =~= closures(f, members));
    lemma_sorted_set_of_set(all, closures(f, members));
    lemma_closure_covered(f, members);
    let reqs = sorted_set(all);
    let next = later(store, run.asked);
    lemma_honest_later(store, f, run.asked);
    lemma_honest_measure(next, f, f, reqs, cache.sizes);
    lemma_honest_cold(store, f, f, members, cache);
    let m = measuring(reqs, cache.sizes, next).result;
    if closures(f, members).contains(p) {
        lemma_sorted_set_exists(closures(f, members));
        assert(reqs.to_set().contains(p) == closures(f, members).to_set().contains(p));
        assert(reqs.contains(p));
    }
    lemma_honest_measure_keeps(next, f, reqs, cache.sizes, p);
    assert(m.known.contains_key(p));
}

proof fn lemma_honest_measure_keeps(
    store: Store,
    f: Facts,
    paths: Seq<Seq<char>>,
    known: Known,
    p: Seq<char>,
)
    requires
        honest(store, f),
        fills_in(known, f, f),
        covered(f, paths),
        paths.contains(p) || known.contains_key(p),
    ensures
        measuring(paths, known, store).result.known.contains_key(p),
{
    let missing = missing_of(paths, known);
    let keep = |p: Seq<char>| !known.contains_key(p);
    assert forall|x: Seq<char>| #[trigger] missing.contains(x) <==> (paths.contains(x)
        && !known.contains_key(x)) by {
        lemma_filter_holds(paths, keep, x);
    }
    assert forall|i: int| 0 <= i < missing.len() implies !known.contains_key(
        #[trigger] missing[i],
    ) by {
        assert(missing.contains(missing[i]));
    }
    lemma_covered_among(f, missing, paths);
    assert(sizes_by(f, missing.take(0)) =~= Seq::<u64>::empty());
    lemma_honest_sizes(store, f, missing, 0, Seq::empty());
    lemma_filled(known, f, f, missing);
    assert(known.contains_key(p) || missing.contains(p));
}

proof fn lemma_no_members(f: Facts)
    ensures
        closure_size(f, Seq::empty()) == 0,
{
    let none = Seq::<Seq<char>>::empty();
    assert(closures(f, none) == none);
    lemma_sorted_set_exists(none);
    let s = sorted_set(none);
    if s.len() > 0 {
        assert(s.to_set().contains(s[0]));
        assert(none.contains(s[0]));
    }
    assert(sizes_by(f, s) =~= Seq::<u64>::empty());
}

/// With an honest store and a sound cache the size of a group is its closure size, and the cache
/// stays sound.
proof fn lemma_honest_group(store: Store, f: Facts, members: Seq<Seq<char>>, cache: CacheView)
    requires
        honest(store, f),
        sound(cache, f),
        keys_tell_apart(f),
        members.len() == 0 || listed(f, members),
        closure_size(f, members) <= u64::MAX,
    ensures
        ({
            let r = group_run(members, cache, store).result;
            &&& r.0 == Tally::Size(closure_size(f, members) as u64)
            &&& sound(r.1, f)
            &&& members.len() > 0 ==> r.1.groups.contains_key(set_key(members))
            &&& forall|key: Seq<char>|
                cache.groups.contains_key(key) ==> #[trigger] r.1.groups.contains_key(key)
        }),
{
    if members.len() == 0 {
        lemma_no_members(f);
        assert(members =~= Seq::<Seq<char>>::empty());
    } else {
        let q = QueryView::Present(members);
        let known = cache.groups.contains_key(set_key(members));
        let next = if known {
            later(store, seq![q])
        } else {
            store
        };
        lemma_honest_later(store, f, seq![q]);
        lemma_honest_cold(next, f, f, members, cache);
        let c = cold(members, cache, next).result.1;
        assert forall|other: Seq<Seq<char>>|
            listed(f, other) && c.groups.contains_key(#[trigger] set_key(other)) implies
            c.groups[set_key(other)] == closure_size(f, other) by {
            if set_key(other) == set_key(members) {
                assert(listed(f, members));
            }
        }
        assert(sound(c, f));
    }
}

/// Whether a cache knows the union closure size of every group from `i` on that has members.
pub open spec fn knows(cache: CacheView, f: Facts, jobs: Seq<JobView>, i: int) -> bool {
    forall|k: int|
        i <= k < jobs.len() && (#[trigger] jobs[k]).members.len() > 0 ==> {
            &&& cache.groups.contains_key(set_key(jobs[k].members))
            &&& cache.groups[set_key(jobs[k].members)] == closure_size(f, jobs[k].members)
        }
}

/// With a store that answers by the facts and a cache of which all is true, the size of every
/// group is its union closure size; nothing is warned of; all that the cache knows then is still
/// true; and it knows the size of every group that has members.
pub proof fn law_sizes_are_closure_sizes(
    store: Store,
    f: Facts,
    jobs: Seq<JobView>,
    i: int,
    out: Seq<u64>,
    warnings: Seq<Seq<char>>,
    cache: CacheView,
)
    requires
        honest(store, f),
        sound(cache, f),
        keys_tell_apart(f),
        0 <= i <= jobs.len(),
        forall|k: int|
            i <= k < jobs.len() ==> ((#[trigger] jobs[k]).members.len() == 0 || listed(
                f,
                jobs[k].members,
            )),
        forall|k: int|
            i <= k < jobs.len() ==> closure_size(f, (#[trigger] jobs[k]).members) <= u64::MAX,
    ensures
        ({
            let r = groups_from(jobs, i, out, warnings, cache, store).result;
            &&& r.sizes == Some(
                out + jobs.skip(i).map_values(|j: JobView| closure_size(f, j.members) as u64),
            )
            &&& r.warnings == warnings
            &&& sound(r.cache, f)
            &&& knows(r.cache, f, jobs, i)
        }),
    decreases jobs.len() - i,
{
    lemma_run_leaves_warm(store, f, jobs, i, out, warnings, cache);
    let size = |j: JobView| closure_size(f, j.members) as u64;
    if i < jobs.len() {
        lemma_honest_group(store, f, jobs[i].members, cache);
        let g = group_run(jobs[i].members, cache, store);
        let n = size(jobs[i]);
        let next = later(store, g.asked);
        lemma_honest_later(store, f, g.asked);
        law_sizes_are_closure_sizes(next, f, jobs, i + 1, out.push(n), warnings, g.result.1);
        assert(out + jobs.skip(i).map_values(size) =~= out.push(n) + jobs.skip(i + 1).map_values(
            size,
        ));
    } else {
        assert(out + jobs.skip(i).map_values(size) =~= out);
    }
}

/// A cache of which all is true does not show in the sizes: with stores that answer by the same
/// facts, a run with it and a run that bypasses the cache both give the union closure size of every
/// group and warn of nothing; and both caches know these sizes then.
pub proof fn law_cache_does_not_show(
    store: Store,
    other: Store,
    f: Facts,
    jobs: Seq<JobView>,
    cache: CacheView,
)
    requires
        honest(store, f),
        honest(other, f),
        sound(cache, f),
        keys_tell_apart(f),
        forall|k: int|
            0 <= k < jobs.len() ==> ((#[trigger] jobs[k]).members.len() == 0 || listed(
                f,
                jobs[k].members,
            )),
        forall|k: int|
            0 <= k < jobs.len() ==> closure_size(f, (#[trigger] jobs[k]).members) <= u64::MAX,
    ensures
        ({
            let with = groups_from(jobs, 0, Seq::empty(), Seq::empty(), cache, store).result;
            let without = groups_from(jobs, 0, Seq::empty(), Seq::empty(), blank(), other).result;
            &&& with.sizes == Some(closure_sizes(f, jobs))
            &&& without.sizes == with.sizes
            &&& with.warnings == Seq::<Seq<char>>::empty()
            &&& without.warnings == with.warnings
            &&& knows(with.cache, f, jobs, 0)
            &&& knows(without.cache, f, jobs, 0)
        }),
{
    law_sizes_are_closure_sizes(store, f, jobs, 0, Seq::empty(), Seq::empty(), cache);
    law_sizes_are_closure_sizes(other, f, jobs, 0, Seq::empty(), Seq::empty(), blank());
    assert(jobs.skip(0) =~= jobs);
    assert(Seq::<u64>::empty() + closure_sizes(f, jobs) =~= closure_sizes(f, jobs));
}

/// With a store that answers by the facts, a run leaves a cache that knows its groups, and
/// forgets none.
proof fn lemma_run_leaves_warm(
    store: Store,
    f: Facts,
    jobs: Seq<JobView>,
    i: int,
    out: Seq<u64>,
    warnings: Seq<Seq<char>>,
    cache: CacheView,
)
    requires
        honest(store, f),
        sound(cache, f),
        keys_tell_apart(f),
        0 <= i <= jobs.len(),
        forall|k: int|
            i <= k < jobs.len() ==> ((#[trigger] jobs[k]).members.len() == 0 || listed(
                f,
                jobs[k].members,
            )),
        forall|k: int|
            i <= k < jobs.len() ==> closure_size(f, (#[trigger] jobs[k]).members) <= u64::MAX,
    ensures
        ({
            let left = groups_from(jobs, i, out, warnings, cache, store).result.cache;
            &&& forall|k: int|
                i <= k < jobs.len() && (#[trigger] jobs[k]).members.len() > 0
                    ==> left.groups.contains_key(set_key(jobs[k].members))
            &&& forall|key: Seq<char>|
                cache.groups.contains_key(key) ==> #[trigger] left.groups.contains_key(key)
        }),
    decreases jobs.len() - i,
{
    if i < jobs.len() {
        let members = jobs[i].members;
        lemma_honest_group(store, f, members, cache);
        let g = group_run(members, cache, store);
        let n = closure_size(f, members) as u64;
        let next = later(store, g.asked);
        lemma_honest_later(store, f, g.asked);
        lemma_run_leaves_warm(next, f, jobs, i + 1, out.push(n), warnings, g.result.1);
    }
}

/// A second run is warm: when a run is repeated on the cache that the first one left, with the same
/// store, which answers by the facts, and the members of the groups still exist, it gives the same
/// sizes and asks the Nix store nothing.
pub proof fn law_second_run_is_warm(store: Store, f: Facts, jobs: Seq<JobView>, cache: CacheView)
    requires
        honest(store, f),
        sound(cache, f),
        keys_tell_apart(f),
        forall|k: int| 0 <= k < jobs.len() ==> keeps(store, (#[trigger] jobs[k]).members),
        forall|k: int|
            0 <= k < jobs.len() ==> ((#[trigger] jobs[k]).members.len() == 0 || listed(
                f,
                jobs[k].members,
            )),
        forall|k: int|
            0 <= k < jobs.len() ==> closure_size(f, (#[trigger] jobs[k]).members) <= u64::MAX,
    ensures
        ({
            let first = groups_from(jobs, 0, Seq::empty(), Seq::empty(), cache, store);
            let left = first.result.cache;
            let next = later(store, first.asked);
            let second = groups_from(jobs, 0, Seq::empty(), Seq::empty(), left, next);
            &&& forall|k: int|
                0 <= k < second.asked.len() ==> !(#[trigger] second.asked[k]).asks_nix()
            &&& second.result.sizes == first.result.sizes
            &&& second.result.warnings == first.result.warnings
            &&& second.result.cache == left
        }),
{
    let first = groups_from(jobs, 0, Seq::empty(), Seq::empty(), cache, store);
    let left = first.result.cache;
    law_sizes_are_closure_sizes(store, f, jobs, 0, Seq::empty(), Seq::empty(), cache);
    let next = later(store, first.asked);
    lemma_honest_later(store, f, first.asked);
    law_sizes_are_closure_sizes(next, f, jobs, 0, Seq::empty(), Seq::empty(), left);
    assert forall|k: int| 0 <= k < jobs.len() implies keeps(
        next,
        (#[trigger] jobs[k]).members,
    ) by {
        lemma_keeps_later(store, jobs[k].members, first.asked);
    }
    law_warm_run_asks_nix_nothing(jobs, 0, Seq::empty(), Seq::empty(), left, next);
}

// ---------------------------------------------------------------------------------------------
// Any cache
// ---------------------------------------------------------------------------------------------

/// Whether a store tells that paths exist where they do, and only there, whatever it was asked
/// before.
pub open spec fn tells_presence(store: Store, here: spec_fn(Seq<Seq<char>>) -> bool) -> bool {
    forall|asked: Seq<QueryView>, paths: Seq<Seq<char>>|
        #[trigger] tells_present(later(store, asked), paths) == here(paths)
}

proof fn lemma_presence_later(
    store: Store,
    here: spec_fn(Seq<Seq<char>>) -> bool,
    asked: Seq<QueryView>,
)
    requires
        tells_presence(store, here),
    ensures
        forall|paths: Seq<Seq<char>>| #[trigger] tells_present(store, paths) == here(paths),
        tells_presence(later(store, asked), here),
{
    lemma_later_nothing(store);
    assert forall|paths: Seq<Seq<char>>|
        #[trigger] tells_present(store, paths) == here(paths) by {
        assert(tells_present(later(store, Seq::empty()), paths) == here(paths));
    }
    assert forall|more: Seq<QueryView>, paths: Seq<Seq<char>>|
        #[trigger] tells_present(later(later(store, asked), more), paths) == here(paths) by {
        lemma_later_twice(store, asked, more);
        assert(tells_present(later(store, asked + more), paths) == here(paths));
    }
}

/// The facts as they look through known sizes: each path has the size that is known of it, and its
/// own where none is known.
pub open spec fn through(known: Known, f: Facts) -> Facts {
    Facts {
        size: |p: Seq<char>|
            if known.contains_key(p) {
                known[p]
            } else {
                (f.size)(p)
            },
        ..f
    }
}

/// The size of members that known group sizes tell: the known one where the members exist, and else
/// their closure size.
pub open spec fn group_size(
    f: Facts,
    here: spec_fn(Seq<Seq<char>>) -> bool,
    groups: Map<Seq<char>, u64>,
    members: Seq<Seq<char>>,
) -> nat {
    let key = set_key(members);
    if members.len() > 0 && groups.contains_key(key) && here(members) {
        groups[key] as nat
    } else {
        closure_size(f, members)
    }
}

/// The size of members that a cache tells, be it true or not: what it knows of them where they
/// exist, and else their union closure size, in which a path has the size that the cache knows of
/// it, and its own where it knows none.
pub open spec fn cached_group_size(
    f: Facts,
    here: spec_fn(Seq<Seq<char>>) -> bool,
    cache: CacheView,
    members: Seq<Seq<char>>,
) -> nat {
    group_size(through(cache.sizes, f), here, cache.groups, members)
}

/// The sizes of groups that a cache tells.
pub open spec fn cached_group_sizes(
    f: Facts,
    here: spec_fn(Seq<Seq<char>>) -> bool,
    cache: CacheView,
    jobs: Seq<JobView>,
) -> Seq<u64> {
    jobs.map_values(|j: JobView| cached_group_size(f, here, cache, j.members) as u64)
}

/// Whether a cache tells of all groups what another does.
pub open spec fn tells_same(
    cache: CacheView,
    start: CacheView,
    f: Facts,
    here: spec_fn(Seq<Seq<char>>) -> bool,
) -> bool {
    let g = through(start.sizes, f);
    &&& fills_in(cache.sizes, f, g)
    &&& forall|m: Seq<Seq<char>>|
        listed(f, m) ==> group_size(g, here, cache.groups, m) == #[trigger] group_size(
            g,
            here,
            start.groups,
            m,
        )
}

/// The size of a group is the one that the cache told at the start, and the cache goes on telling
/// what it told then.
proof fn lemma_steady_group(
    store: Store,
    f: Facts,
    here: spec_fn(Seq<Seq<char>>) -> bool,
    start: CacheView,
    members: Seq<Seq<char>>,
    cache: CacheView,
)
    requires
        honest(store, f),
        tells_presence(store, here),
        tells_same(cache, start, f, here),
        keys_tell_apart(through(start.sizes, f)),
        keys_tell_presence(f, here),
        members.len() == 0 || listed(f, members),
        cached_group_size(f, here, start, members) <= u64::MAX,
    ensures
        ({
            let r = group_run(members, cache, store).result;
            &&& r.0 == Tally::Size(cached_group_size(f, here, start, members) as u64)
            &&& tells_same(r.1, start, f, here)
        }),
{
    let g = through(start.sizes, f);
    if members.len() == 0 {
        lemma_no_members(g);
        assert(members =~= Seq::<Seq<char>>::empty());
    } else {
        let q = QueryView::Present(members);
        let key = set_key(members);
        let known = cache.groups.contains_key(key);
        lemma_presence_later(store, here, seq![q]);
        assert(tells_present(store, members) == here(members));
        let size = group_size(g, here, start.groups, members);
        assert(group_size(g, here, cache.groups, members) == size);
        if !(known && here(members)) {
            let next = if known {
                later(store, seq![q])
            } else {
                store
            };
            lemma_honest_later(store, f, seq![q]);
            lemma_honest_cold(next, f, g, members, cache);
            let c = cold(members, cache, next).result.1;
            assert forall|m: Seq<Seq<char>>| listed(f, m) implies group_size(
                g,
                here,
                c.groups,
                m,
            ) == #[trigger] group_size(g, here, start.groups, m) by {
                assert(group_size(g, here, cache.groups, m) == group_size(
                    g,
                    here,
                    start.groups,
                    m,
                ));
                if set_key(m) == key {
                    assert(listed(g, m) && listed(g, members));
                    assert(here(m) == here(members));
                    assert(closure_size(g, m) == closure_size(g, members));
                }
            }
            assert(tells_same(c, start, f, here));
        }
    }
}

/// What any cache shows, be it true or not: with a store that answers by the facts, and in which
/// members stay or stay away, the size of every group is the one that the cache tells at the start
/// of the run, whatever the groups before it were; nothing is warned of; and in the end the cache
/// tells of every group what it told at the start.
pub proof fn law_sizes_are_what_the_cache_tells(
    store: Store,
    f: Facts,
    here: spec_fn(Seq<Seq<char>>) -> bool,
    start: CacheView,
    jobs: Seq<JobView>,
    i: int,
    out: Seq<u64>,
    warnings: Seq<Seq<char>>,
    cache: CacheView,
)
    requires
        honest(store, f),
        tells_presence(store, here),
        tells_same(cache, start, f, here),
        keys_tell_apart(through(start.sizes, f)),
        keys_tell_presence(f, here),
        0 <= i <= jobs.len(),
        forall|k: int|
            i <= k < jobs.len() ==> ((#[trigger] jobs[k]).members.len() == 0 || listed(
                f,
                jobs[k].members,
            )),
        forall|k: int|
            i <= k < jobs.len() ==> cached_group_size(f, here, start, (#[trigger] jobs[k]).members)
                <= u64::MAX,
    ensures
        ({
            let r = groups_from(jobs, i, out, warnings, cache, store).result;
            &&& r.sizes == Some(out + cached_group_sizes(f, here, start, jobs.skip(i)))
            &&& r.warnings == warnings
            &&& tells_same(r.cache, start, f, here)
        }),
    decreases jobs.len() - i,
{
    let rest = cached_group_sizes(f, here, start, jobs.skip(i));
    if i < jobs.len() {
        lemma_steady_group(store, f, here, start, jobs[i].members, cache);
        let g = group_run(jobs[i].members, cache, store);
        let n = cached_group_size(f, here, start, jobs[i].members) as u64;
        let next = later(store, g.asked);
        lemma_honest_later(store, f, g.asked);
        lemma_presence_later(store, here, g.asked);
        law_sizes_are_what_the_cache_tells(
            next,
            f,
            here,
            start,
            jobs,
            i + 1,
            out.push(n),
            warnings,
            g.result.1,
        );
        assert(out + rest =~= out.push(n) + cached_group_sizes(f, here, start, jobs.skip(i + 1)));
    } else {
        assert(out + rest =~= out);
    }
}

/// A cache of which all is true tells the union closure size of every group.
pub proof fn law_true_caches_tell_closure_sizes(
    f: Facts,
    here: spec_fn(Seq<Seq<char>>) -> bool,
    cache: CacheView,
    members: Seq<Seq<char>>,
)
    requires
        sound(cache, f),
        members.len() == 0 || listed(f, members),
    ensures
        cached_group_size(f, here, cache, members) == closure_size(f, members),
{
    let g = through(cache.sizes, f);
    lemma_same_closures(f, g, members);
    let all = sorted_set(closures(f, members));
    assert(sizes_by(g, all) =~= sizes_by(f, all));
}

// ---------------------------------------------------------------------------------------------
// The figures of a summary
// ---------------------------------------------------------------------------------------------

proof fn lemma_total_without(f: Facts, b: Seq<Seq<char>>, i: int)
    requires
        0 <= i < b.len(),
    ensures
        total(sizes_by(f, b)) == total(sizes_by(f, b.remove(i))) + (f.size)(b[i]),
    decreases b.len(),
{
    let c = b.remove(i);
    assert(sizes_by(f, b).drop_last() =~= sizes_by(f, b.drop_last()));
    if i == b.len() - 1 {
        assert(c =~= b.drop_last());
    } else {
        lemma_total_without(f, b.drop_last(), i);
        assert(c.drop_last() =~= b.drop_last().remove(i));
        assert(sizes_by(f, c).drop_last() =~= sizes_by(f, c.drop_last()));
        assert(c.last() == b.last());
    }
}

/// The total size of paths that are listed once each does not depend on their order.
proof fn lemma_total_of_set(f: Facts, a: Seq<Seq<char>>, b: Seq<Seq<char>>)
    requires
        a.no_duplicates(),
        b.no_duplicates(),
        forall|x: Seq<char>| #[trigger] a.contains(x) <==> b.contains(x),
    ensures
        total(sizes_by(f, a)) == total(sizes_by(f, b)),
    decreases a.len(),
{
    if a.len() == 0 {
        if b.len() > 0 {
            assert(b.contains(b[0]));
            assert(a.contains(b[0]));
        }
        assert(sizes_by(f, a) =~= sizes_by(f, b));
    } else {
        let x = a.last();
        let rest = a.drop_last();
        assert(a.contains(x));
        let i = choose|i: int| 0 <= i < b.len() && b[i] == x;
        let c = b.remove(i);
        assert forall|y: Seq<char>| #[trigger] rest.contains(y) <==> c.contains(y) by {
            if rest.contains(y) {
                let j = choose|j: int| 0 <= j < rest.len() && rest[j] == y;
                assert(a[j] == y);
                assert(a.contains(y));
                let k = choose|k: int| 0 <= k < b.len() && b[k] == y;
                assert(k != i);
                if k < i {
                    assert(c[k] == y);
                } else {
                    assert(c[k - 1] == y);
                }
            }
            if c.contains(y) {
                let k = choose|k: int| 0 <= k < c.len() && c[k] == y;
                let k2 = if k < i {
                    k
                } else {
                    k + 1
                };
                assert(b[k2] == y);
                assert(b.contains(y));
                assert(a.contains(y));
                let j = choose|j: int| 0 <= j < a.len() && a[j] == y;
                assert(j != a.len() - 1);
                assert(rest[j] == y);
            }
        }
        lemma_total_of_set(f, rest, c);
        lemma_total_without(f, b, i);
        lemma_total_without(f, a, a.len() - 1);
        assert(a.remove(a.len() - 1) =~= rest);
    }
}

proof fn lemma_total_of_both(f: Facts, a: Seq<Seq<char>>, b: Seq<Seq<char>>)
    ensures
        total(sizes_by(f, a + b)) == total(sizes_by(f, a)) + total(sizes_by(f, b)),
    decreases b.len(),
{
    if b.len() == 0 {
        assert(a + b =~= a);
        assert(sizes_by(f, b) =~= Seq::<u64>::empty());
    } else {
        lemma_total_of_both(f, a, b.drop_last());
        assert((a + b).drop_last() =~= a + b.drop_last());
        assert(sizes_by(f, a + b).drop_last() =~= sizes_by(f, (a + b).drop_last()));
        assert(sizes_by(f, b).drop_last() =~= sizes_by(f, b.drop_last()));
    }
}

/// What is in a list and not in another comes behind that other without a path twice, and the two
/// hold what either list holds.
proof fn lemma_split(s: Seq<Seq<char>>, u: Seq<Seq<char>>)
    ensures
        ({
            let all = sorted_set(s) + minus(sorted_set(u), sorted_set(s));
            &&& all.no_duplicates()
            &&& forall|x: Seq<char>|
                #[trigger] all.contains(x) <==> sorted_set(s + u).contains(x)
            &&& sorted_set(s + u).no_duplicates()
        }),
{
    lemma_sorted_set_exists(s);
    lemma_sorted_set_exists(u);
    lemma_sorted_set_exists(s + u);
    let a = sorted_set(s);
    let b = sorted_set(u);
    let keep = |p: Seq<char>| !a.contains(p);
    let c = minus(b, a);
    let all = a + c;
    let r = sorted_set(s + u);
    assert(c == b.filter(keep));
    lemma_filter_no_duplicates(b, keep);
    assert forall|i: int, j: int| 0 <= i < all.len() && 0 <= j < all.len() && i != j implies all[i]
        != all[j] by {
        if i < a.len() && j >= a.len() {
            b.lemma_filter_pred(keep, j - a.len());
            assert(a.contains(a[i]));
        }
        if j < a.len() && i >= a.len() {
            b.lemma_filter_pred(keep, i - a.len());
            assert(a.contains(a[j]));
        }
    }
    assert forall|x: Seq<char>| #[trigger] all.contains(x) <==> r.contains(x) by {
        lemma_contains_add(a, c, x);
        lemma_contains_add(s, u, x);
        assert(a.to_set().contains(x) == s.to_set().contains(x));
        assert(b.to_set().contains(x) == u.to_set().contains(x));
        assert(r.to_set().contains(x) == (s + u).to_set().contains(x));
        lemma_filter_holds(b, keep, x);
    }
}

proof fn lemma_filter_holds(b: Seq<Seq<char>>, keep: spec_fn(Seq<char>) -> bool, x: Seq<char>)
    ensures
        b.filter(keep).contains(x) <==> (b.contains(x) && keep(x)),
    decreases b.len(),
{
    reveal(Seq::filter);
    if b.len() > 0 {
        let rest = b.drop_last();
        let l = b.last();
        lemma_filter_holds(rest, keep, x);
        assert(b =~= rest + seq![l]);
        lemma_contains_add(rest, seq![l], x);
        assert(seq![l].contains(x) <==> x == l) by {
            assert(seq![l][0] == l);
        }
        if keep(l) {
            assert(b.filter(keep) =~= rest.filter(keep) + seq![l]);
            lemma_contains_add(rest.filter(keep), seq![l], x);
        }
    }
}

proof fn lemma_filter_no_duplicates(b: Seq<Seq<char>>, keep: spec_fn(Seq<char>) -> bool)
    requires
        b.no_duplicates(),
    ensures
        b.filter(keep).no_duplicates(),
    decreases b.len(),
{
    reveal(Seq::filter);
    if b.len() > 0 {
        let rest = b.drop_last();
        let l = b.last();
        lemma_filter_no_duplicates(rest, keep);
        lemma_filter_holds(rest, keep, l);
        if keep(l) {
            let r = rest.filter(keep);
            assert forall|i: int| 0 <= i < r.len() implies r[i] != l by {
                if r[i] == l {
                    assert(r.contains(l));
                    let j = choose|j: int| 0 <= j < rest.len() && rest[j] == l;
                    assert(b[j] == b[b.len() - 1]);
                }
            }
        }
    }
}

/// The closure sizes of groups, added up.
pub open spec fn closure_sizes(f: Facts, jobs: Seq<JobView>) -> Seq<u64> {
    jobs.map_values(|j: JobView| closure_size(f, j.members) as u64)
}

/// Whether the figures of a summary can be told: the facts list its groups and cover its roots, and
/// no sum is above `u64::MAX`.
pub open spec fn tellable(f: Facts, plan: PlanView) -> bool {
    &&& covered(f, plan.system)
    &&& covered(f, plan.user)
    &&& forall|k: int|
        0 <= k < plan.jobs.len() ==> ((#[trigger] plan.jobs[k]).members.len() == 0 || listed(
            f,
            plan.jobs[k].members,
        ))
    &&& forall|k: int|
        0 <= k < plan.jobs.len() ==> closure_size(f, (#[trigger] plan.jobs[k]).members) <= u64::MAX
    &&& total(closure_sizes(f, plan.jobs)) <= u64::MAX
    &&& closure_size(f, plan.system + plan.user) <= u64::MAX
}

/// Whether a summary holds the figures that the facts give: what may be reclaimed is the sum of the
/// closure sizes of the groups that may be deleted; what the system pins is the union closure size
/// of its roots; and together with what the users pin it is the union closure size of all roots, so
/// no path is counted twice.
pub open spec fn true_figures(s: Summary, f: Facts, plan: PlanView) -> bool {
    &&& s.reclaimable_bytes == total(closure_sizes(f, plan.jobs))
    &&& s.pinned.system_bytes == closure_size(f, plan.system)
    &&& s.pinned.system_bytes + s.pinned.user_bytes == closure_size(f, plan.system + plan.user)
}

/// With an honest store, what is pinned is the closure size of the roots, by what is known and else
/// by what is true.
proof fn lemma_pinned_figures(store: Store, f: Facts, g: Facts, plan: PlanView, p: Progress)
    requires
        honest(store, f),
        fills_in(p.cache.sizes, f, g),
        covered(f, plan.system),
        covered(f, plan.user),
        closure_size(g, plan.system + plan.user) <= u64::MAX,
    ensures
        ({
            let r = pinned_run(plan.system, plan.user, p, store).result;
            &&& r.outcome matches Outcome::Told(s) && {
                &&& s.now == p.now
                &&& s.collectable_bytes == p.collectable
                &&& s.reclaimable_bytes == p.reclaimable
                &&& s.pinned.system_bytes == closure_size(g, plan.system)
                &&& s.pinned.system_bytes + s.pinned.user_bytes == closure_size(
                    g,
                    plan.system + plan.user,
                )
            }
            &&& r.warnings == p.warnings
            &&& r.cache.groups == p.cache.groups
            &&& fills_in(r.cache.sizes, f, g)
        }),
{
    let none = Seq::<Seq<char>>::empty();
    let known = p.cache.sizes;
    let system = lines_from(false, plan.system, 0, Seq::empty(), store);
    let s = system.result->Ok_0;
    lemma_honest_lines(store, f, plan.system, 0, Seq::empty());
    let s2 = later(store, system.asked);
    lemma_honest_later(store, f, system.asked);
    assert(plan.system.skip(0) =~= plan.system);
    assert(none + closures(f, plan.system) =~= closures(f, plan.system));
    lemma_sorted_set_of_set(s, closures(f, plan.system));
    lemma_same_closures(f, g, plan.system);
    let user = lines_from(false, plan.user, 0, Seq::empty(), s2);
    let u = user.result->Ok_0;
    lemma_honest_lines(s2, f, plan.user, 0, Seq::empty());
    let s3 = later(s2, user.asked);
    lemma_honest_later(s2, f, user.asked);
    assert(plan.user.skip(0) =~= plan.user);
    assert(none + closures(f, plan.user) =~= closures(f, plan.user));
    lemma_sorted_set_of_set(u, closures(f, plan.user));
    lemma_same_closures(f, g, plan.user);

    let base = sorted_set(s);
    let beyond = minus(sorted_set(u), base);
    lemma_closures_add(g, plan.system, plan.user);
    lemma_split(closures(f, plan.system), closures(f, plan.user));
    let whole = sorted_set(closures(f, plan.system) + closures(f, plan.user));
    lemma_total_of_set(g, base + beyond, whole);
    lemma_total_of_both(g, base, beyond);

    lemma_closure_covered(f, plan.system);
    lemma_closure_covered(f, plan.user);
    let keep = |p: Seq<char>| !base.contains(p);
    assert forall|x: Seq<char>| #[trigger] beyond.contains(x) implies sorted_set(u).contains(x) by {
        lemma_filter_holds(sorted_set(u), keep, x);
    }
    lemma_covered_among(f, beyond, sorted_set(u));
    lemma_honest_measure(s3, f, g, base, known);
    let m = measuring(base, known, s3);
    lemma_honest_later(s3, f, m.asked);
    lemma_honest_measure(later(s3, m.asked), f, g, beyond, m.result.known);
}

proof fn lemma_figures(store: Store, f: Facts, plan: PlanView, p: Progress)
    requires
        honest(store, f),
        sound(p.cache, f),
        keys_tell_apart(f),
        tellable(f, plan),
    ensures
        ({
            let r = reclaimable_run(plan, p, store).result;
            &&& r.outcome matches Outcome::Told(s) && {
                &&& s.now == p.now
                &&& s.collectable_bytes == p.collectable
                &&& true_figures(s, f, plan)
            }
            &&& r.warnings == Seq::<Seq<char>>::empty()
            &&& sound(r.cache, f)
        }),
{
    let none = Seq::<Seq<char>>::empty();
    let g = groups_from(plan.jobs, 0, Seq::empty(), none, p.cache, store);
    law_sizes_are_closure_sizes(store, f, plan.jobs, 0, Seq::empty(), none, p.cache);
    assert(plan.jobs.skip(0) =~= plan.jobs);
    let v = closure_sizes(f, plan.jobs);
    assert(Seq::<u64>::empty() + v =~= v);
    lemma_honest_later(store, f, g.asked);
    let q = Progress {
        reclaimable: total(v) as u64,
        warnings: none,
        cache: g.result.cache,
        ..p
    };
    lemma_pinned_figures(later(store, g.asked), f, f, plan, q);
    let r = pinned_run(plan.system, plan.user, q, later(store, g.asked)).result;
    assert(sound(r.cache, f));
}

/// The figures of a summary are what they are said to be: with a store that answers by the facts
/// and a cache of which all is true, they are those that the facts give, nothing is warned of, and
/// all that the cache knows then is still true.
pub proof fn law_summary_counts_each_path_once(
    store: Store,
    f: Facts,
    plan: PlanView,
    cache: CacheView,
    now: u64,
)
    requires
        honest(store, f),
        sound(cache, f),
        keys_tell_apart(f),
        tellable(f, plan),
    ensures
        ({
            let r = survey_run(plan, cache, now, false, store).result;
            &&& r.outcome matches Outcome::Told(s) && {
                &&& s.now == now
                &&& s.collectable_bytes is None
                &&& true_figures(s, f, plan)
            }
            &&& r.warnings == Seq::<Seq<char>>::empty()
            &&& sound(r.cache, f)
        }),
{
    lemma_figures(
        store,
        f,
        plan,
        Progress { now, collectable: None, reclaimable: 0, warnings: Seq::empty(), cache },
    );
}

/// Whether a store tells these paths as dead.
pub open spec fn tells_dead(store: Store, dead: Seq<Seq<char>>) -> bool {
    let q = QueryView::Dead;
    printed(q, answer_of(store, q)) matches Ok(text) && dead_of(lines_of(text)) == dead
}

/// Whether a store tells which of the paths are invalid.
pub open spec fn tells_invalid(
    store: Store,
    invalid: spec_fn(Seq<char>) -> bool,
    paths: Seq<Seq<char>>,
) -> bool {
    let q = QueryView::Invalid(paths);
    printed(q, answer_of(store, q)) matches Ok(text) && forall|x: Seq<char>|
        #[trigger] lines_of(text).contains(x) <==> (paths.contains(x) && invalid(x))
}

/// Whether a store tells which paths are invalid, whatever it was asked before.
pub open spec fn tells_validity(store: Store, invalid: spec_fn(Seq<char>) -> bool) -> bool {
    forall|asked: Seq<QueryView>, paths: Seq<Seq<char>>|
        #[trigger] tells_invalid(later(store, asked), invalid, paths)
}

proof fn lemma_validity_later(
    store: Store,
    invalid: spec_fn(Seq<char>) -> bool,
    asked: Seq<QueryView>,
)
    requires
        tells_validity(store, invalid),
    ensures
        forall|paths: Seq<Seq<char>>| #[trigger] tells_invalid(store, invalid, paths),
        tells_validity(later(store, asked), invalid),
{
    lemma_later_nothing(store);
    assert forall|paths: Seq<Seq<char>>| #[trigger] tells_invalid(store, invalid, paths) by {
        assert(tells_invalid(later(store, Seq::empty()), invalid, paths));
    }
    assert forall|more: Seq<QueryView>, paths: Seq<Seq<char>>|
        #[trigger] tells_invalid(later(later(store, asked), more), invalid, paths) by {
        lemma_later_twice(store, asked, more);
        assert(tells_invalid(later(store, asked + more), invalid, paths));
    }
}

proof fn lemma_invalid_lines(
    store: Store,
    invalid: spec_fn(Seq<char>) -> bool,
    paths: Seq<Seq<char>>,
    pos: int,
    found: Seq<Seq<char>>,
)
    requires
        tells_validity(store, invalid),
        0 <= pos <= paths.len(),
    ensures
        ({
            let r = lines_from(true, paths, pos, found, store).result;
            r matches Ok(all) && forall|x: Seq<char>|
                #[trigger] all.contains(x) <==> (found.contains(x) || (paths.skip(pos).contains(x)
                    && invalid(x)))
        }),
    decreases paths.len() - pos,
{
    if pos < paths.len() {
        let end = chunk_end(paths.len() as int, pos);
        let chunk = paths.subrange(pos, end);
        let q = QueryView::Invalid(chunk);
        assert(lines_query(true, chunk) == q);
        lemma_validity_later(store, invalid, seq![q]);
        assert(tells_invalid(store, invalid, chunk));
        let new = lines_of(printed(q, answer_of(store, q))->Ok_0);
        lemma_invalid_lines(later(store, seq![q]), invalid, paths, end, found + new);
        assert(paths.skip(pos) =~= chunk + paths.skip(end));
        let all = lines_from(true, paths, pos, found, store).result->Ok_0;
        assert forall|x: Seq<char>| #[trigger] all.contains(x) <==> (found.contains(x) || (
        paths.skip(pos).contains(x) && invalid(x))) by {
            lemma_contains_add(found, new, x);
            lemma_contains_add(chunk, paths.skip(end), x);
        }
    }
}

proof fn lemma_same_filter(
    s: Seq<Seq<char>>,
    a: spec_fn(Seq<char>) -> bool,
    b: spec_fn(Seq<char>) -> bool,
)
    requires
        forall|i: int| 0 <= i < s.len() ==> a(#[trigger] s[i]) == b(s[i]),
    ensures
        s.filter(a) == s.filter(b),
    decreases s.len(),
{
    reveal(Seq::filter);
    if s.len() > 0 {
        let rest = s.drop_last();
        assert forall|i: int| 0 <= i < rest.len() implies a(#[trigger] rest[i]) == b(rest[i]) by {
            assert(rest[i] == s[i]);
        }
        lemma_same_filter(rest, a, b);
        assert(a(s[s.len() - 1]) == b(s[s.len() - 1]));
    }
}

/// The dead paths that are not already invalid.
pub open spec fn live_dead(
    dead: Seq<Seq<char>>,
    invalid: spec_fn(Seq<char>) -> bool,
) -> Seq<Seq<char>> {
    dead.filter(|p: Seq<char>| !invalid(p))
}

/// With an honest store, what can be collected is the total size of the dead paths that are not
/// already invalid, by what is known and else by what is true; the rest of the survey goes on from
/// there.
proof fn lemma_dead_figures(
    store: Store,
    f: Facts,
    g: Facts,
    plan: PlanView,
    p: Progress,
    dead: Seq<Seq<char>>,
    invalid: spec_fn(Seq<char>) -> bool,
) -> (r: (Known, Seq<QueryView>))
    requires
        honest(store, f),
        fills_in(p.cache.sizes, f, g),
        tells_dead(store, dead),
        tells_validity(store, invalid),
        covered(f, live_dead(dead, invalid)),
        total(sizes_by(g, live_dead(dead, invalid))) <= u64::MAX,
    ensures
        fills_in(r.0, f, g),
        collectable_run(plan, p, store).result == reclaimable_run(
            plan,
            Progress {
                collectable: Some(total(sizes_by(g, live_dead(dead, invalid))) as u64),
                ..knowing(p, r.0)
            },
            later(store, r.1),
        ).result,
{
    let live = live_dead(dead, invalid);
    let s1 = later(store, seq![QueryView::Dead]);
    lemma_honest_later(store, f, seq![QueryView::Dead]);
    lemma_validity_later(store, invalid, seq![QueryView::Dead]);
    lemma_invalid_lines(s1, invalid, dead, 0, Seq::empty());
    assert(dead.skip(0) =~= dead);
    let told = lines_from(true, dead, 0, Seq::empty(), s1);
    let gone = told.result->Ok_0;
    let s2 = later(s1, told.asked);
    lemma_honest_later(s1, f, told.asked);
    let a = |p: Seq<char>| !gone.contains(p);
    let b = |p: Seq<char>| !invalid(p);
    assert forall|i: int| 0 <= i < dead.len() implies a(#[trigger] dead[i]) == b(dead[i]) by {
        assert(dead.contains(dead[i]));
        assert(!Seq::<Seq<char>>::empty().contains(dead[i]));
    }
    lemma_same_filter(dead, a, b);
    assert(minus(dead, gone) == live);
    lemma_honest_measure(s2, f, g, live, p.cache.sizes);
    let m = measuring(live, p.cache.sizes, s2);
    lemma_later_twice(store, seq![QueryView::Dead], told.asked);
    lemma_later_twice(store, seq![QueryView::Dead] + told.asked, m.asked);
    (m.result.known, seq![QueryView::Dead] + told.asked + m.asked)
}

/// What can be collected is the total size of the dead paths that are not already invalid, and to
/// ask for it changes none of the other figures.
pub proof fn law_collectable_is_the_dead_paths(
    store: Store,
    f: Facts,
    plan: PlanView,
    cache: CacheView,
    now: u64,
    dead: Seq<Seq<char>>,
    invalid: spec_fn(Seq<char>) -> bool,
)
    requires
        honest(store, f),
        sound(cache, f),
        keys_tell_apart(f),
        tellable(f, plan),
        tells_dead(store, dead),
        tells_validity(store, invalid),
        covered(f, live_dead(dead, invalid)),
        total(sizes_by(f, live_dead(dead, invalid))) <= u64::MAX,
    ensures
        ({
            let r = survey_run(plan, cache, now, true, store).result;
            &&& r.outcome matches Outcome::Told(s) && {
                &&& s.now == now
                &&& s.collectable_bytes matches Some(n) && n == total(
                    sizes_by(f, live_dead(dead, invalid)),
                )
                &&& true_figures(s, f, plan)
            }
            &&& r.warnings == Seq::<Seq<char>>::empty()
            &&& sound(r.cache, f)
        }),
{
    let p = Progress { now, collectable: None, reclaimable: 0, warnings: Seq::empty(), cache };
    let (known, asked) = lemma_dead_figures(store, f, f, plan, p, dead, invalid);
    lemma_honest_later(store, f, asked);
    let q = Progress {
        collectable: Some(total(sizes_by(f, live_dead(dead, invalid))) as u64),
        ..knowing(p, known)
    };
    lemma_figures(later(store, asked), f, plan, q);
}

/// Whether the figures that a summary draws from a cache, be it true or not, can be told: the facts
/// list its groups and cover its roots, and no sum is above `u64::MAX`.
pub open spec fn cache_tellable(
    f: Facts,
    here: spec_fn(Seq<Seq<char>>) -> bool,
    cache: CacheView,
    plan: PlanView,
) -> bool {
    &&& covered(f, plan.system)
    &&& covered(f, plan.user)
    &&& forall|k: int|
        0 <= k < plan.jobs.len() ==> ((#[trigger] plan.jobs[k]).members.len() == 0 || listed(
            f,
            plan.jobs[k].members,
        ))
    &&& forall|k: int|
        0 <= k < plan.jobs.len() ==> cached_group_size(
            f,
            here,
            cache,
            (#[trigger] plan.jobs[k]).members,
        ) <= u64::MAX
    &&& total(cached_group_sizes(f, here, cache, plan.jobs)) <= u64::MAX
    &&& closure_size(through(cache.sizes, f), plan.system + plan.user) <= u64::MAX
}

/// Whether a summary holds the figures that a cache tells, be it true or not.
pub open spec fn cached_figures(
    s: Summary,
    f: Facts,
    here: spec_fn(Seq<Seq<char>>) -> bool,
    cache: CacheView,
    plan: PlanView,
) -> bool {
    let g = through(cache.sizes, f);
    &&& s.reclaimable_bytes == total(cached_group_sizes(f, here, cache, plan.jobs))
    &&& s.pinned.system_bytes == closure_size(g, plan.system)
    &&& s.pinned.system_bytes + s.pinned.user_bytes == closure_size(g, plan.system + plan.user)
}

/// Whether what can be collected can be told, if it is wanted: the store tells which paths are dead
/// and which of them are already invalid, the facts cover the others, and their total size is not
/// above `u64::MAX`.
pub open spec fn dead_tellable(
    store: Store,
    f: Facts,
    known: Known,
    want: bool,
    dead: Seq<Seq<char>>,
    invalid: spec_fn(Seq<char>) -> bool,
) -> bool {
    want ==> {
        &&& tells_dead(store, dead)
        &&& tells_validity(store, invalid)
        &&& covered(f, live_dead(dead, invalid))
        &&& total(sizes_by(through(known, f), live_dead(dead, invalid))) <= u64::MAX
    }
}

proof fn lemma_cached_figures(
    store: Store,
    f: Facts,
    here: spec_fn(Seq<Seq<char>>) -> bool,
    start: CacheView,
    plan: PlanView,
    p: Progress,
)
    requires
        honest(store, f),
        tells_presence(store, here),
        tells_same(p.cache, start, f, here),
        keys_tell_apart(through(start.sizes, f)),
        keys_tell_presence(f, here),
        cache_tellable(f, here, start, plan),
    ensures
        ({
            let r = reclaimable_run(plan, p, store).result;
            &&& r.outcome matches Outcome::Told(s) && {
                &&& s.now == p.now
                &&& s.collectable_bytes == p.collectable
                &&& cached_figures(s, f, here, start, plan)
            }
            &&& r.warnings == Seq::<Seq<char>>::empty()
            &&& tells_same(r.cache, start, f, here)
        }),
{
    let none = Seq::<Seq<char>>::empty();
    let jobs = plan.jobs;
    let run = groups_from(jobs, 0, Seq::empty(), none, p.cache, store);
    law_sizes_are_what_the_cache_tells(
        store,
        f,
        here,
        start,
        jobs,
        0,
        Seq::empty(),
        none,
        p.cache,
    );
    assert(jobs.skip(0) =~= jobs);
    let v = cached_group_sizes(f, here, start, jobs);
    assert(Seq::<u64>::empty() + v =~= v);
    lemma_honest_later(store, f, run.asked);
    let q = Progress {
        reclaimable: total(v) as u64,
        warnings: none,
        cache: run.result.cache,
        ..p
    };
    lemma_pinned_figures(later(store, run.asked), f, through(start.sizes, f), plan, q);
}

/// What any cache shows in a summary, be it true or not: what may be reclaimed is the sum of the
/// sizes that the cache tells of the groups that may be deleted, and what can be collected and what
/// is pinned are sums in which a path has the size that the cache knows of it, and its own where it
/// knows none.
pub proof fn law_summary_is_what_the_cache_tells(
    store: Store,
    f: Facts,
    here: spec_fn(Seq<Seq<char>>) -> bool,
    plan: PlanView,
    cache: CacheView,
    now: u64,
    want: bool,
    dead: Seq<Seq<char>>,
    invalid: spec_fn(Seq<char>) -> bool,
)
    requires
        honest(store, f),
        tells_presence(store, here),
        keys_tell_apart(through(cache.sizes, f)),
        keys_tell_presence(f, here),
        cache_tellable(f, here, cache, plan),
        dead_tellable(store, f, cache.sizes, want, dead, invalid),
    ensures
        ({
            let r = survey_run(plan, cache, now, want, store).result;
            &&& r.outcome matches Outcome::Told(s) && {
                &&& s.now == now
                &&& s.collectable_bytes == if want {
                    Some(
                        total(
                            sizes_by(through(cache.sizes, f), live_dead(dead, invalid)),
                        ) as u64,
                    )
                } else {
                    None
                }
                &&& cached_figures(s, f, here, cache, plan)
            }
            &&& r.warnings == Seq::<Seq<char>>::empty()
            &&& tells_same(r.cache, cache, f, here)
        }),
{
    let g = through(cache.sizes, f);
    let p = Progress { now, collectable: None, reclaimable: 0, warnings: Seq::empty(), cache };
    if want {
        let (known, asked) = lemma_dead_figures(store, f, g, plan, p, dead, invalid);
        lemma_honest_later(store, f, asked);
        lemma_presence_later(store, here, asked);
        let q = Progress {
            collectable: Some(total(sizes_by(g, live_dead(dead, invalid))) as u64),
            ..knowing(p, known)
        };
        lemma_cached_figures(later(store, asked), f, here, cache, plan, q);
    } else {
        lemma_cached_figures(store, f, here, cache, plan, p);
    }
}

/// A cache of which all is true does not show in the figures of a summary: with stores that answer
/// by the same facts, a survey with it ends as one that bypasses the cache.
pub proof fn law_cache_does_not_show_in_summary(
    store: Store,
    other: Store,
    f: Facts,
    plan: PlanView,
    cache: CacheView,
    now: u64,
)
    requires
        honest(store, f),
        honest(other, f),
        sound(cache, f),
        keys_tell_apart(f),
        tellable(f, plan),
    ensures
        survey_run(plan, cache, now, false, store).result.outcome == survey_run(
            plan,
            blank(),
            now,
            false,
            other,
        ).result.outcome,
{
    law_summary_counts_each_path_once(store, f, plan, cache, now);
    law_summary_counts_each_path_once(other, f, plan, blank(), now);
}

/// Whether none of the questions asks for a scan of the store for dead paths.
pub open spec fn no_scan(asked: Seq<QueryView>) -> bool {
    forall|k: int| 0 <= k < asked.len() ==> !(#[trigger] asked[k] is Dead || asked[k] is Invalid)
}

proof fn lemma_no_scan_add(a: Seq<QueryView>, b: Seq<QueryView>)
    requires
        no_scan(a),
        no_scan(b),
    ensures
        no_scan(a + b),
{
    let s = a + b;
    assert forall|k: int| 0 <= k < s.len() implies !(#[trigger] s[k] is Dead
        || s[k] is Invalid) by {
        if k < a.len() {
            assert(s[k] == a[k]);
        } else {
            assert(s[k] == b[k - a.len()]);
        }
    }
}

proof fn lemma_closure_no_scan(
    paths: Seq<Seq<char>>,
    pos: int,
    found: Seq<Seq<char>>,
    store: Store,
)
    requires
        0 <= pos,
    ensures
        no_scan(lines_from(false, paths, pos, found, store).asked),
    decreases paths.len() - pos,
{
    if pos < paths.len() {
        let end = chunk_end(paths.len() as int, pos);
        let q = lines_query(false, paths.subrange(pos, end));
        let next = later(store, seq![q]);
        match printed(q, answer_of(store, q)) {
            Err(e) => {},
            Ok(text) => {
                lemma_closure_no_scan(paths, end, found + lines_of(text), next);
                lemma_no_scan_add(
                    seq![q],
                    lines_from(false, paths, end, found + lines_of(text), next).asked,
                );
            },
        }
    }
}

proof fn lemma_sizes_no_scan(paths: Seq<Seq<char>>, pos: int, found: Seq<u64>, store: Store)
    requires
        0 <= pos,
    ensures
        no_scan(sizes_from(paths, pos, found, store).asked),
    decreases paths.len() - pos,
{
    if pos < paths.len() {
        let end = chunk_end(paths.len() as int, pos);
        let q = QueryView::Sizes(paths.subrange(pos, end));
        let next = later(store, seq![q]);
        match printed(q, answer_of(store, q)) {
            Err(e) => {},
            Ok(text) => match parsed_sizes(lines_of(text), found) {
                Err(e) => {},
                Ok(more) => {
                    lemma_sizes_no_scan(paths, end, more, next);
                    lemma_no_scan_add(seq![q], sizes_from(paths, end, more, next).asked);
                },
            },
        }
    }
}

proof fn lemma_measuring_no_scan(paths: Seq<Seq<char>>, known: Known, store: Store)
    ensures
        no_scan(measuring(paths, known, store).asked),
{
    lemma_sizes_no_scan(missing_of(paths, known), 0, Seq::empty(), store);
}

proof fn lemma_cold_no_scan(members: Seq<Seq<char>>, cache: CacheView, store: Store)
    ensures
        no_scan(cold(members, cache, store).asked),
{
    lemma_closure_no_scan(members, 0, Seq::empty(), store);
    let c = lines_from(false, members, 0, Seq::empty(), store);
    match c.result {
        Err(e) => {},
        Ok(all) => {
            let next = later(store, c.asked);
            lemma_measuring_no_scan(sorted_set(all), cache.sizes, next);
            lemma_no_scan_add(c.asked, measuring(sorted_set(all), cache.sizes, next).asked);
        },
    }
}

proof fn lemma_groups_no_scan(
    jobs: Seq<JobView>,
    i: int,
    out: Seq<u64>,
    warnings: Seq<Seq<char>>,
    cache: CacheView,
    store: Store,
)
    requires
        0 <= i,
    ensures
        no_scan(groups_from(jobs, i, out, warnings, cache, store).asked),
    decreases jobs.len() - i,
{
    if i < jobs.len() {
        let members = jobs[i].members;
        let g = group_run(members, cache, store);
        let q = QueryView::Present(members);
        lemma_cold_no_scan(members, cache, store);
        lemma_cold_no_scan(members, cache, later(store, seq![q]));
        lemma_no_scan_add(seq![q], cold(members, cache, later(store, seq![q])).asked);
        assert(no_scan(g.asked));
        let next = later(store, g.asked);
        let rest = groups_after(g.result, jobs, i, out, warnings, next);
        match g.result.0 {
            Tally::Overflow => {},
            Tally::Size(n) => {
                lemma_groups_no_scan(jobs, i + 1, out.push(n), warnings, g.result.1, next);
            },
            Tally::Failed(e) => {
                lemma_groups_no_scan(
                    jobs,
                    i + 1,
                    out.push(0),
                    warnings.push(warning(jobs[i].loc, e.message)),
                    g.result.1,
                    next,
                );
            },
        }
        lemma_no_scan_add(g.asked, rest.asked);
    }
}

proof fn lemma_pinned_no_scan(
    system: Seq<Seq<char>>,
    user: Seq<Seq<char>>,
    p: Progress,
    store: Store,
)
    ensures
        ({
            let run = pinned_run(system, user, p, store);
            &&& no_scan(run.asked)
            &&& run.result.outcome matches Outcome::Told(s) ==> s.collectable_bytes
                == p.collectable
        }),
{
    let sys = lines_from(false, system, 0, Seq::empty(), store);
    lemma_closure_no_scan(system, 0, Seq::empty(), store);
    if let Ok(s) = sys.result {
        let s1 = later(store, sys.asked);
        let usr = lines_from(false, user, 0, Seq::empty(), s1);
        lemma_closure_no_scan(user, 0, Seq::empty(), s1);
        let closed = user_closed(usr, s, p, s1);
        if let Ok(u) = usr.result {
            let base = sorted_set(s);
            let beyond = minus(sorted_set(u), base);
            let s2 = later(s1, usr.asked);
            let m = measuring(base, p.cache.sizes, s2);
            lemma_measuring_no_scan(base, p.cache.sizes, s2);
            let q = knowing(p, m.result.known);
            let s3 = later(s2, m.asked);
            lemma_measuring_no_scan(beyond, q.cache.sizes, s3);
            let n = measuring(beyond, q.cache.sizes, s3);
            let sized = system_sized(m, beyond, p, s2);
            if let Tally::Size(t) = tally_of(m.result.sizes) {
                assert(no_scan(user_sized(n, t, q).asked)) by {
                    assert(user_sized(n, t, q).asked =~= n.asked);
                }
                lemma_no_scan_add(m.asked, user_sized(n, t, q).asked);
            } else {
                assert(sized.asked =~= m.asked);
            }
            lemma_no_scan_add(usr.asked, sized.asked);
        } else {
            assert(closed.asked =~= usr.asked);
        }
        lemma_no_scan_add(sys.asked, closed.asked);
    } else {
        assert(pinned_run(system, user, p, store).asked =~= sys.asked);
    }
}

/// The store is scanned for dead paths only where that is asked for: otherwise no question asks
/// for it, and there is no figure for it.
pub proof fn law_dead_paths_only_on_request(
    plan: PlanView,
    cache: CacheView,
    now: u64,
    store: Store,
)
    ensures
        ({
            let run = survey_run(plan, cache, now, false, store);
            &&& no_scan(run.asked)
            &&& run.result.outcome matches Outcome::Told(s) ==> s.collectable_bytes is None
        }),
{
    let p = Progress { now, collectable: None, reclaimable: 0, warnings: Seq::empty(), cache };
    let g = groups_from(plan.jobs, 0, Seq::empty(), Seq::empty(), cache, store);
    lemma_groups_no_scan(plan.jobs, 0, Seq::empty(), Seq::empty(), cache, store);
    let q = Progress { warnings: g.result.warnings, cache: g.result.cache, ..p };
    let run = survey_run(plan, cache, now, false, store);
    if g.result.sizes is Some && total(g.result.sizes->0) <= u64::MAX {
        let r = Progress { reclaimable: total(g.result.sizes->0) as u64, ..q };
        let next = later(store, g.asked);
        lemma_pinned_no_scan(plan.system, plan.user, r, next);
        lemma_no_scan_add(g.asked, pinned_run(plan.system, plan.user, r, next).asked);
    } else {
        assert(run.asked =~= g.asked);
    }
}

// ---------------------------------------------------------------------------------------------
// What a run leaves in the cache
// ---------------------------------------------------------------------------------------------

/// Whether one cache knows all path sizes that another knows.
pub open spec fn keeps_sizes(before: CacheView, after: CacheView) -> bool {
    forall|p: Seq<char>| #[trigger]
        before.sizes.contains_key(p) ==> after.sizes.contains_key(p) && after.sizes[p]
            == before.sizes[p]
}

proof fn lemma_filled_keeps(known: Known, paths: Seq<Seq<char>>, sizes: Seq<u64>, p: Seq<char>)
    requires
        known.contains_key(p),
        !paths.contains(p),
    ensures
        filled(known, paths, sizes).contains_key(p),
        filled(known, paths, sizes)[p] == known[p],
    decreases paths.len(),
{
    if paths.len() > 0 {
        assert(paths[paths.len() - 1] == paths.last());
        let rest = paths.drop_last();
        if rest.contains(p) {
            let i = choose|i: int| 0 <= i < rest.len() && rest[i] == p;
            assert(paths[i] == p);
        }
        lemma_filled_keeps(known, rest, sizes.drop_last(), p);
    }
}

proof fn lemma_measure_keeps(paths: Seq<Seq<char>>, cache: CacheView, store: Store)
    ensures
        keeps_sizes(
            cache,
            CacheView {
                sizes: measuring(paths, cache.sizes, store).result.known,
                groups: cache.groups,
            },
        ),
{
    let known = cache.sizes;
    let m = measuring(paths, known, store).result;
    assert forall|p: Seq<char>| #[trigger] known.contains_key(p) implies m.known.contains_key(p)
        && m.known[p] == known[p] by {
        let keep = |p: Seq<char>| !known.contains_key(p);
        let missing = missing_of(paths, known);
        lemma_filter_holds(paths, keep, p);
        if let Ok(v) = sizes_from(missing, 0, Seq::empty(), store).result {
            lemma_filled_keeps(known, missing, v, p);
        }
    }
}

proof fn lemma_group_keeps(members: Seq<Seq<char>>, cache: CacheView, store: Store)
    ensures
        keeps_sizes(cache, group_run(members, cache, store).result.1),
{
    let q = QueryView::Present(members);
    lemma_cold_keeps(members, cache, store);
    lemma_cold_keeps(members, cache, later(store, seq![q]));
}

proof fn lemma_cold_keeps(members: Seq<Seq<char>>, cache: CacheView, store: Store)
    ensures
        keeps_sizes(cache, cold(members, cache, store).result.1),
{
    let c = lines_from(false, members, 0, Seq::empty(), store);
    if let Ok(all) = c.result {
        lemma_measure_keeps(sorted_set(all), cache, later(store, c.asked));
    }
}

proof fn lemma_groups_keep(
    jobs: Seq<JobView>,
    i: int,
    out: Seq<u64>,
    warnings: Seq<Seq<char>>,
    cache: CacheView,
    store: Store,
)
    requires
        0 <= i <= jobs.len(),
    ensures
        keeps_sizes(cache, groups_from(jobs, i, out, warnings, cache, store).result.cache),
    decreases jobs.len() - i,
{
    if i < jobs.len() {
        let g = group_run(jobs[i].members, cache, store);
        lemma_group_keeps(jobs[i].members, cache, store);
        let next = later(store, g.asked);
        match g.result.0 {
            Tally::Overflow => {},
            Tally::Size(n) => {
                lemma_groups_keep(jobs, i + 1, out.push(n), warnings, g.result.1, next);
            },
            Tally::Failed(e) => {
                let line = warning(jobs[i].loc, e.message);
                lemma_groups_keep(
                    jobs,
                    i + 1,
                    out.push(0),
                    warnings.push(line),
                    g.result.1,
                    next,
                );
            },
        }
    }
}

proof fn lemma_pinned_keeps(
    system: Seq<Seq<char>>,
    user: Seq<Seq<char>>,
    p: Progress,
    store: Store,
)
    ensures
        keeps_sizes(p.cache, pinned_run(system, user, p, store).result.cache),
{
    let c = lines_from(false, system, 0, Seq::empty(), store);
    let s2 = later(store, c.asked);
    let d = lines_from(false, user, 0, Seq::empty(), s2);
    let s3 = later(s2, d.asked);
    if c.result is Ok && d.result is Ok {
        let base = sorted_set(c.result->Ok_0);
        let beyond = minus(sorted_set(d.result->Ok_0), base);
        let m = measuring(base, p.cache.sizes, s3);
        lemma_measure_keeps(base, p.cache, s3);
        let q = knowing(p, m.result.known);
        lemma_measure_keeps(beyond, q.cache, later(s3, m.asked));
    }
}

proof fn lemma_reclaimable_keeps(plan: PlanView, p: Progress, store: Store)
    ensures
        keeps_sizes(p.cache, reclaimable_run(plan, p, store).result.cache),
{
    let none = Seq::<Seq<char>>::empty();
    let g = groups_from(plan.jobs, 0, Seq::empty(), none, p.cache, store);
    lemma_groups_keep(plan.jobs, 0, Seq::empty(), none, p.cache, store);
    if let Some(v) = g.result.sizes {
        let q = Progress {
            reclaimable: total(v) as u64,
            warnings: g.result.warnings,
            cache: g.result.cache,
            ..p
        };
        lemma_pinned_keeps(plan.system, plan.user, q, later(store, g.asked));
    }
}

/// No run forgets a path size that the cache knew, or changes it, whatever the store answers.
pub proof fn law_runs_forget_nothing(
    plan: PlanView,
    cache: CacheView,
    now: u64,
    want_collectable: bool,
    store: Store,
    p: Seq<char>,
)
    requires
        cache.sizes.contains_key(p),
    ensures
        ({
            let known = survey_run(plan, cache, now, want_collectable, store).result.cache.sizes;
            known.contains_key(p) && known[p] == cache.sizes[p]
        }),
        ({
            let none = Seq::<Seq<char>>::empty();
            let run = groups_from(plan.jobs, 0, Seq::empty(), none, cache, store);
            let known = run.result.cache.sizes;
            known.contains_key(p) && known[p] == cache.sizes[p]
        }),
{
    let none = Seq::<Seq<char>>::empty();
    let start = Progress { now, collectable: None, reclaimable: 0, warnings: none, cache };
    lemma_groups_keep(plan.jobs, 0, Seq::empty(), none, cache, store);
    lemma_reclaimable_keeps(plan, start, store);
    let q = QueryView::Dead;
    if let Ok(text) = printed(q, answer_of(store, q)) {
        let dead = dead_of(lines_of(text));
        let s1 = later(store, seq![q]);
        let c = lines_from(true, dead, 0, Seq::empty(), s1);
        if let Ok(invalid) = c.result {
            let valid = minus(dead, invalid);
            let s2 = later(s1, c.asked);
            let m = measuring(valid, cache.sizes, s2);
            lemma_measure_keeps(valid, cache, s2);
            let k = knowing(start, m.result.known);
            if let Tally::Size(n) = tally_of(m.result.sizes) {
                lemma_reclaimable_keeps(
                    plan,
                    Progress { collectable: Some(n), ..k },
                    later(s2, m.asked),
                );
            }
        }
    }
}

/// A summary has the figure for what can be collected just where it was asked for.
pub proof fn law_summary_has_what_was_asked_for(
    plan: PlanView,
    cache: CacheView,
    now: u64,
    want_collectable: bool,
    store: Store,
)
    ensures
        survey_run(plan, cache, now, want_collectable, store).result.outcome matches Outcome::Told(
            s,
        ) ==> s.now == now && (s.collectable_bytes is Some <==> want_collectable),
{
}

/// A summary leaves in the cache the size of every path that the roots pin.
pub proof fn law_summary_remembers_what_it_measured(
    store: Store,
    f: Facts,
    plan: PlanView,
    cache: CacheView,
    now: u64,
    p: Seq<char>,
)
    requires
        honest(store, f),
        sound(cache, f),
        keys_tell_apart(f),
        tellable(f, plan),
        closures(f, plan.system).contains(p) || closures(f, plan.user).contains(p),
    ensures
        ({
            let known = survey_run(plan, cache, now, false, store).result.cache.sizes;
            known.contains_key(p) && known[p] == (f.size)(p)
        }),
{
    let none = Seq::<Seq<char>>::empty();
    let start = Progress { now, collectable: None, reclaimable: 0, warnings: none, cache };
    lemma_figures(store, f, plan, start);
    let g = groups_from(plan.jobs, 0, Seq::empty(), none, cache, store);
    law_sizes_are_closure_sizes(store, f, plan.jobs, 0, Seq::empty(), none, cache);
    assert(plan.jobs.skip(0) =~= plan.jobs);
    let v = closure_sizes(f, plan.jobs);
    assert(Seq::<u64>::empty() + v =~= v);
    lemma_honest_later(store, f, g.asked);
    let q = Progress {
        reclaimable: total(v) as u64,
        warnings: none,
        cache: g.result.cache,
        ..start
    };
    lemma_pinned_remembers(later(store, g.asked), f, plan, q, p);
}

proof fn lemma_pinned_remembers(
    store: Store,
    f: Facts,
    plan: PlanView,
    p: Progress,
    x: Seq<char>,
)
    requires
        honest(store, f),
        fills_in(p.cache.sizes, f, f),
        covered(f, plan.system),
        covered(f, plan.user),
        closure_size(f, plan.system + plan.user) <= u64::MAX,
        closures(f, plan.system).contains(x) || closures(f, plan.user).contains(x),
    ensures
        pinned_run(plan.system, plan.user, p, store).result.cache.sizes.contains_key(x),
{
    let none = Seq::<Seq<char>>::empty();
    let known = p.cache.sizes;
    let system = lines_from(false, plan.system, 0, Seq::empty(), store);
    let s = system.result->Ok_0;
    lemma_honest_lines(store, f, plan.system, 0, Seq::empty());
    let s2 = later(store, system.asked);
    lemma_honest_later(store, f, system.asked);
    assert(plan.system.skip(0) =~= plan.system);
    assert(none + closures(f, plan.system) =~= closures(f, plan.system));
    lemma_sorted_set_of_set(s, closures(f, plan.system));
    let user = lines_from(false, plan.user, 0, Seq::empty(), s2);
    let u = user.result->Ok_0;
    lemma_honest_lines(s2, f, plan.user, 0, Seq::empty());
    let s3 = later(s2, user.asked);
    lemma_honest_later(s2, f, user.asked);
    assert(plan.user.skip(0) =~= plan.user);
    assert(none + closures(f, plan.user) =~= closures(f, plan.user));
    lemma_sorted_set_of_set(u, closures(f, plan.user));
    let base = sorted_set(s);
    let beyond = minus(sorted_set(u), base);
    lemma_closure_covered(f, plan.system);
    lemma_closure_covered(f, plan.user);
    let keep = |p: Seq<char>| !base.contains(p);
    assert forall|y: Seq<char>| #[trigger] beyond.contains(y) <==> (sorted_set(u).contains(y)
        && !base.contains(y)) by {
        lemma_filter_holds(sorted_set(u), keep, y);
    }
    lemma_covered_among(f, beyond, sorted_set(u));
    law_sorted_sets(closures(f, plan.system));
    law_sorted_sets(closures(f, plan.user));
    lemma_pinned_figures(store, f, f, plan, p);
    lemma_honest_measure(s3, f, f, base, known);
    let m = measuring(base, known, s3);
    lemma_honest_later(s3, f, m.asked);
    let s4 = later(s3, m.asked);
    lemma_honest_measure(s4, f, f, beyond, m.result.known);
    if base.contains(x) {
        lemma_honest_measure_keeps(s3, f, base, known, x);
    }
    lemma_honest_measure_keeps(s4, f, beyond, m.result.known, x);
}

} // verus!
