//! What the sizes and the figures of a summary are, told of the groups themselves: of their
//! members, their links, and whether they may be deleted.

use vstd::prelude::*;

use crate::cache::{Cache, CacheView};
use crate::laws::{
    cached_group_size, cached_group_sizes, closure_size, closures, covered, honest, keeps,
    keys_tell_apart, keys_tell_presence, law_sizes_are_closure_sizes,
    law_sizes_are_what_the_cache_tells, law_summary_counts_each_path_once,
    law_summary_has_what_was_asked_for,
    law_warm_run_asks_nix_nothing, lemma_cold_remembers, listed, sound, tellable, tells_presence,
    through, Facts,
};
use crate::nix::{
    after, answer_of, chunk_end, later, lemma_later_nothing, lemma_later_twice, lines_from,
    printed, sizes_from, QueryView, Store, StoreErrorView,
};
use crate::size::{
    cold, group_run, group_sizes, groups_after, groups_from, job_of, jobs_of, missing_of, total,
    warning, JobView, SizedGroups, Sizing, Tally,
};
use crate::summary::{
    compute, deletable_jobs, members_in, plan_of, survey_run, user_link, user_links, Outcome,
    Survey,
};
use crate::text::{
    joined, law_occurrences, law_sorted_sets, lemma_sorted_set_of_set, occurs, occurs_at,
    sorted_set, texts,
};
use crate::walk::Group;

verus! {

// ---------------------------------------------------------------------------------------------
// Sums
// ---------------------------------------------------------------------------------------------

/// Sums add up: nothing sums up to zero, one number to itself, and numbers behind others to the two
/// sums together.
pub proof fn law_sums_add_up(a: Seq<u64>, b: Seq<u64>, x: u64)
    ensures
        total(Seq::empty()) == 0,
        total(seq![x]) == x,
        total(a + b) == total(a) + total(b),
    decreases b.len(),
{
    assert(seq![x].drop_last() =~= Seq::<u64>::empty());
    assert(total(seq![x]) == total(seq![x].drop_last()) + x);
    if b.len() == 0 {
        assert(a + b =~= a);
    } else {
        law_sums_add_up(a, b.drop_last(), x);
        assert((a + b).drop_last() =~= a + b.drop_last());
        assert((a + b).last() == b.last());
    }
}

// ---------------------------------------------------------------------------------------------
// Sizes of groups
// ---------------------------------------------------------------------------------------------

/// With a store that answers by the facts and a cache of which all is true, the size of every group
/// is the union closure size of its own members, whether it may be deleted or not; nothing is
/// warned of; and the cache then knows that size under the members, joined by line feeds.
pub proof fn law_every_group_has_its_closure_size(
    store: Store,
    f: Facts,
    groups: Seq<&Group>,
    cache: CacheView,
)
    requires
        honest(store, f),
        sound(cache, f),
        keys_tell_apart(f),
        forall|k: int|
            0 <= k < groups.len() ==> ((#[trigger] groups[k]).members@.len() == 0 || listed(
                f,
                texts(groups[k].members@),
            )),
        forall|k: int|
            0 <= k < groups.len() ==> closure_size(f, texts((#[trigger] groups[k]).members@))
                <= u64::MAX,
    ensures
        ({
            let jobs = jobs_of(groups);
            let r = groups_from(jobs, 0, Seq::empty(), Seq::empty(), cache, store).result;
            &&& r.sizes matches Some(v) && {
                &&& v.len() == groups.len()
                &&& forall|k: int|
                    0 <= k < groups.len() ==> #[trigger] v[k] == closure_size(
                        f,
                        texts(groups[k].members@),
                    )
            }
            &&& r.warnings.len() == 0
            &&& forall|k: int|
                0 <= k < groups.len() && (#[trigger] groups[k]).members@.len() > 0 ==> {
                    let key = joined(texts(groups[k].members@), "\n"@);
                    &&& r.cache.groups.contains_key(key)
                    &&& r.cache.groups[key] == closure_size(f, texts(groups[k].members@))
                }
        }),
{
    let jobs = jobs_of(groups);
    assert(jobs.len() == groups.len());
    assert forall|k: int| 0 <= k < jobs.len() implies (#[trigger] jobs[k]).members == texts(
        groups[k].members@,
    ) && groups[k].members@.len() == texts(groups[k].members@).len() by {}
    law_sizes_are_closure_sizes(store, f, jobs, 0, Seq::empty(), Seq::empty(), cache);
    assert(jobs.skip(0) =~= jobs);
    let r = groups_from(jobs, 0, Seq::empty(), Seq::empty(), cache, store).result;
    let v = r.sizes->0;
    assert forall|k: int| 0 <= k < groups.len() implies #[trigger] v[k] == closure_size(
        f,
        texts(groups[k].members@),
    ) by {
        assert(jobs[k].members == texts(groups[k].members@));
        assert(closure_size(f, texts(groups[k].members@)) <= u64::MAX);
    }
    assert forall|k: int| 0 <= k < groups.len() && (#[trigger] groups[k]).members@.len() > 0 implies {
        let key = joined(texts(groups[k].members@), "\n"@);
        &&& r.cache.groups.contains_key(key)
        &&& r.cache.groups[key] == closure_size(f, texts(groups[k].members@))
    } by {
        assert(jobs[k].members == texts(groups[k].members@));
        assert(jobs[k].members.len() > 0);
    }
}

/// With any cache, true or not, the size of every group is what the cache knows of its own members
/// where they exist, and else their union closure size, in which a path has the size that the cache
/// knows of it, and its own where it knows none.
pub proof fn law_every_group_has_its_cached_size(
    store: Store,
    f: Facts,
    here: spec_fn(Seq<Seq<char>>) -> bool,
    groups: Seq<&Group>,
    cache: CacheView,
)
    requires
        honest(store, f),
        tells_presence(store, here),
        keys_tell_apart(through(cache.sizes, f)),
        keys_tell_presence(f, here),
        forall|k: int|
            0 <= k < groups.len() ==> ((#[trigger] groups[k]).members@.len() == 0 || listed(
                f,
                texts(groups[k].members@),
            )),
        forall|k: int|
            0 <= k < groups.len() ==> cached_group_size(
                f,
                here,
                cache,
                texts((#[trigger] groups[k]).members@),
            ) <= u64::MAX,
    ensures
        ({
            let jobs = jobs_of(groups);
            let r = groups_from(jobs, 0, Seq::empty(), Seq::empty(), cache, store).result;
            r.sizes matches Some(v) && v.len() == groups.len() && forall|k: int|
                0 <= k < groups.len() ==> {
                    let members = texts((#[trigger] groups[k]).members@);
                    let key = joined(members, "\n"@);
                    v[k] == if members.len() > 0 && cache.groups.contains_key(key) && here(
                        members,
                    ) {
                        cache.groups[key] as nat
                    } else {
                        closure_size(through(cache.sizes, f), members)
                    }
                }
        }),
{
    let jobs = jobs_of(groups);
    assert(jobs.len() == groups.len());
    assert forall|k: int| 0 <= k < jobs.len() implies (#[trigger] jobs[k]).members == texts(
        groups[k].members@,
    ) && groups[k].members@.len() == texts(groups[k].members@).len() by {}
    law_sizes_are_what_the_cache_tells(
        store,
        f,
        here,
        cache,
        jobs,
        0,
        Seq::empty(),
        Seq::empty(),
        cache,
    );
    assert(jobs.skip(0) =~= jobs);
    let v = groups_from(jobs, 0, Seq::empty(), Seq::empty(), cache, store).result.sizes->0;
    assert forall|k: int| 0 <= k < groups.len() implies v[k] == cached_group_size(
        f,
        here,
        cache,
        texts((#[trigger] groups[k]).members@),
    ) by {
        assert(jobs[k].members == texts(groups[k].members@));
        assert(v[k] == cached_group_sizes(f, here, cache, jobs)[k]);
    }
}

/// A group that the cache knows, and whose members exist, has the size that the cache knows under
/// its members, joined by line feeds, and a group without members has none; where all groups are
/// such, nothing but the existence of their members is asked for, and the cache stays as it is.
pub proof fn law_known_groups_are_not_measured(
    store: Store,
    groups: Seq<&Group>,
    cache: CacheView,
)
    requires
        forall|k: int|
            0 <= k < groups.len() && (#[trigger] groups[k]).members@.len() > 0 ==> {
                &&& cache.groups.contains_key(joined(texts(groups[k].members@), "\n"@))
                &&& keeps(store, texts(groups[k].members@))
            },
    ensures
        ({
            let jobs = jobs_of(groups);
            let run = groups_from(jobs, 0, Seq::empty(), Seq::empty(), cache, store);
            &&& run.result.sizes matches Some(v) && v.len() == groups.len() && forall|k: int|
                0 <= k < groups.len() ==> #[trigger] v[k] == if groups[k].members@.len() == 0 {
                    0
                } else {
                    cache.groups[joined(texts(groups[k].members@), "\n"@)]
                }
            &&& run.result.warnings.len() == 0
            &&& run.result.cache == cache
            &&& forall|k: int| 0 <= k < run.asked.len() ==> (#[trigger] run.asked[k]) is Present
        }),
{
    let jobs = jobs_of(groups);
    assert(jobs.len() == groups.len());
    assert forall|k: int| 0 <= k < jobs.len() implies (#[trigger] jobs[k]).members == texts(
        groups[k].members@,
    ) && groups[k].members@.len() == texts(groups[k].members@).len() by {}
    law_warm_run_asks_nix_nothing(jobs, 0, Seq::empty(), Seq::empty(), cache, store);
    assert(jobs.skip(0) =~= jobs);
    let run = groups_from(jobs, 0, Seq::empty(), Seq::empty(), cache, store);
    let v = run.result.sizes->0;
    assert forall|k: int| 0 <= k < groups.len() implies #[trigger] v[k]
        == if groups[k].members@.len() == 0 {
        0
    } else {
        cache.groups[joined(texts(groups[k].members@), "\n"@)]
    } by {
        assert(jobs[k].members == texts(groups[k].members@));
    }
    assert forall|k: int| 0 <= k < run.asked.len() implies (#[trigger] run.asked[k]) is Present by {
        assert(!run.asked[k].asks_nix());
    }
}

/// Whether a store fails every question for a closure, whatever it was asked before, and for the
/// same reason.
pub open spec fn refuses(store: Store, e: StoreErrorView) -> bool {
    forall|asked: Seq<QueryView>, paths: Seq<Seq<char>>|
        #[trigger] printed(
            QueryView::Requisites(paths),
            answer_of(later(store, asked), QueryView::Requisites(paths)),
        ) == Err::<Seq<char>, StoreErrorView>(e)
}

proof fn lemma_refuses_later(store: Store, e: StoreErrorView, asked: Seq<QueryView>)
    requires
        refuses(store, e),
    ensures
        forall|paths: Seq<Seq<char>>|
            #[trigger] printed(
                QueryView::Requisites(paths),
                answer_of(store, QueryView::Requisites(paths)),
            ) == Err::<Seq<char>, StoreErrorView>(e),
        refuses(later(store, asked), e),
{
    lemma_later_nothing(store);
    let none = Seq::<QueryView>::empty();
    assert forall|paths: Seq<Seq<char>>|
        #[trigger] printed(
            QueryView::Requisites(paths),
            answer_of(store, QueryView::Requisites(paths)),
        ) == Err::<Seq<char>, StoreErrorView>(e) by {
        assert(printed(
            QueryView::Requisites(paths),
            answer_of(later(store, none), QueryView::Requisites(paths)),
        ) == Err::<Seq<char>, StoreErrorView>(e));
    }
    assert forall|more: Seq<QueryView>, paths: Seq<Seq<char>>|
        #[trigger] printed(
            QueryView::Requisites(paths),
            answer_of(later(later(store, asked), more), QueryView::Requisites(paths)),
        ) == Err::<Seq<char>, StoreErrorView>(e) by {
        lemma_later_twice(store, asked, more);
        assert(printed(
            QueryView::Requisites(paths),
            answer_of(later(store, asked + more), QueryView::Requisites(paths)),
        ) == Err::<Seq<char>, StoreErrorView>(e));
    }
}

/// What is warned of when the closures of groups cannot be found out: one line for each group that
/// has members, with its location and the reason.
pub open spec fn refusals(groups: Seq<&Group>, e: StoreErrorView) -> Seq<Seq<char>> {
    groups.filter(|g: &Group| g.members@.len() > 0).map_values(
        |g: &Group| "warning: closure size for "@ + g.loc@ + ": "@ + e.message,
    )
}

proof fn lemma_refused_groups(
    store: Store,
    e: StoreErrorView,
    groups: Seq<&Group>,
    i: int,
    out: Seq<u64>,
    cache: CacheView,
)
    requires
        refuses(store, e),
        0 <= i <= groups.len(),
        forall|k: int|
            0 <= k < groups.len() ==> !cache.groups.contains_key(
                joined(texts((#[trigger] groups[k]).members@), "\n"@),
            ),
    ensures
        ({
            let warned = refusals(groups.take(i), e);
            let r = groups_from(jobs_of(groups), i, out, warned, cache, store).result;
            &&& r.sizes == Some(out + Seq::new((groups.len() - i) as nat, |k: int| 0u64))
            &&& r.warnings == refusals(groups, e)
            &&& r.cache == cache
        }),
    decreases groups.len() - i,
{
    reveal(Seq::filter);
    let jobs = jobs_of(groups);
    let warned = refusals(groups.take(i), e);
    let zeros = Seq::new((groups.len() - i) as nat, |k: int| 0u64);
    if i < groups.len() {
        let g = groups[i];
        let members = texts(g.members@);
        assert(jobs[i].members == members && jobs[i].loc == g.loc@);
        assert(g.members@.len() == members.len());
        let run = group_run(members, cache, store);
        let next = later(store, run.asked);
        lemma_refuses_later(store, e, run.asked);
        assert(groups.take(i + 1).drop_last() =~= groups.take(i));
        assert(groups.take(i + 1).last() == g);
        if members.len() > 0 {
            let c = lines_from(false, members, 0, Seq::empty(), store);
            let q = QueryView::Requisites(members.subrange(0, chunk_end(members.len() as int, 0)));
            assert(printed(q, answer_of(store, q)) == Err::<Seq<char>, StoreErrorView>(e));
            assert(c.result == Err::<Seq<Seq<char>>, StoreErrorView>(e));
            assert(run == cold(members, cache, store));
            assert(run.result == (Tally::Failed(e), cache));
            assert(refusals(groups.take(i + 1), e) =~= warned.push(
                "warning: closure size for "@ + g.loc@ + ": "@ + e.message,
            ));
        } else {
            assert(run.result == (Tally::Size(0), cache));
            assert(refusals(groups.take(i + 1), e) =~= warned);
        }
        lemma_refused_groups(next, e, groups, i + 1, out.push(0), cache);
        assert(out + zeros =~= out.push(0) + Seq::new(
            (groups.len() - (i + 1)) as nat,
            |k: int| 0u64,
        ));
        assert(groups_from(jobs, i, out, warned, cache, store).result == groups_after(
            run.result,
            jobs,
            i,
            out,
            warned,
            next,
        ).result);
    } else {
        assert(groups.take(i) =~= groups);
        assert(out + zeros =~= out);
    }
}

/// A group whose closure cannot be found out counts as zero, and is warned of with its location and
/// the reason; the cache learns nothing from that.
pub proof fn law_failures_count_as_zero(
    store: Store,
    e: StoreErrorView,
    groups: Seq<&Group>,
    cache: CacheView,
)
    requires
        refuses(store, e),
        forall|k: int|
            0 <= k < groups.len() ==> !cache.groups.contains_key(
                joined(texts((#[trigger] groups[k]).members@), "\n"@),
            ),
    ensures
        ({
            let jobs = jobs_of(groups);
            let r = groups_from(jobs, 0, Seq::empty(), Seq::empty(), cache, store).result;
            &&& r.sizes matches Some(v) && v.len() == groups.len() && forall|k: int|
                0 <= k < v.len() ==> #[trigger] v[k] == 0
            &&& r.warnings == refusals(groups, e)
            &&& r.cache == cache
        }),
{
    reveal(Seq::filter);
    assert(refusals(groups.take(0), e) =~= Seq::<Seq<char>>::empty());
    lemma_refused_groups(store, e, groups, 0, Seq::empty(), cache);
}

/// What came of groups, behind the sizes and the warnings of others.
pub open spec fn behind_others(
    out: Seq<u64>,
    warnings: Seq<Seq<char>>,
    r: SizedGroups,
) -> SizedGroups {
    SizedGroups {
        sizes: match r.sizes {
            Some(v) => Some(out + v),
            None => None,
        },
        warnings: warnings + r.warnings,
        cache: r.cache,
    }
}

proof fn lemma_groups_behind(
    a: Seq<JobView>,
    b: Seq<JobView>,
    i: int,
    j: int,
    out: Seq<u64>,
    warnings: Seq<Seq<char>>,
    x: Seq<u64>,
    w: Seq<Seq<char>>,
    cache: CacheView,
    store: Store,
)
    requires
        0 <= i <= a.len(),
        0 <= j <= b.len(),
        a.skip(i) == b.skip(j),
    ensures
        ({
            let r = groups_from(a, i, out + x, warnings + w, cache, store);
            let s = groups_from(b, j, x, w, cache, store);
            &&& r.asked == s.asked
            &&& r.result == behind_others(out, warnings, s.result)
        }),
    decreases a.len() - i,
{
    assert(a.skip(i).len() == a.len() - i && b.skip(j).len() == b.len() - j);
    if i < a.len() {
        assert(a.skip(i)[0] == a[i] && b.skip(j)[0] == b[j]);
        assert(a.skip(i + 1) =~= a.skip(i).drop_first());
        assert(b.skip(j + 1) =~= b.skip(j).drop_first());
        let g = group_run(a[i].members, cache, store);
        let next = later(store, g.asked);
        match g.result.0 {
            Tally::Overflow => {},
            Tally::Size(n) => {
                lemma_groups_behind(
                    a,
                    b,
                    i + 1,
                    j + 1,
                    out,
                    warnings,
                    x.push(n),
                    w,
                    g.result.1,
                    next,
                );
                assert((out + x).push(n) =~= out + x.push(n));
            },
            Tally::Failed(e) => {
                let line = warning(a[i].loc, e.message);
                lemma_groups_behind(
                    a,
                    b,
                    i + 1,
                    j + 1,
                    out,
                    warnings,
                    x.push(0),
                    w.push(line),
                    g.result.1,
                    next,
                );
                assert((out + x).push(0) =~= out + x.push(0));
                assert((warnings + w).push(line) =~= warnings + w.push(line));
            },
        }
    }
}

/// What comes of one group alone.
proof fn lemma_single_group(g: &Group, cache: CacheView, store: Store)
    ensures
        ({
            let none = Seq::<Seq<char>>::empty();
            let run = group_run(texts(g.members@), cache, store);
            let one = groups_from(jobs_of(seq![g]), 0, Seq::empty(), none, cache, store);
            &&& one.asked == run.asked
            &&& one.result == match run.result.0 {
                Tally::Overflow => SizedGroups {
                    sizes: None,
                    warnings: none,
                    cache: run.result.1,
                },
                Tally::Size(n) => SizedGroups {
                    sizes: Some(seq![n]),
                    warnings: none,
                    cache: run.result.1,
                },
                Tally::Failed(e) => SizedGroups {
                    sizes: Some(seq![0u64]),
                    warnings: seq![warning(g.loc@, e.message)],
                    cache: run.result.1,
                },
            }
        }),
{
    let none = Seq::<Seq<char>>::empty();
    let nothing = Seq::<u64>::empty();
    let jobs = jobs_of(seq![g]);
    assert(jobs.len() == 1);
    assert(jobs[0] == job_of(g));
    let run = group_run(texts(g.members@), cache, store);
    let next = later(store, run.asked);
    let one = groups_from(jobs, 0, nothing, none, cache, store);
    let rest = groups_after(run.result, jobs, 0, nothing, none, next);
    assert(one == after(run.asked, rest));
    match run.result.0 {
        Tally::Overflow => {},
        Tally::Size(n) => {
            assert(nothing.push(n) =~= seq![n]);
            assert(rest == groups_from(jobs, 1, nothing.push(n), none, run.result.1, next));
        },
        Tally::Failed(e) => {
            let line = warning(g.loc@, e.message);
            assert(nothing.push(0) =~= seq![0u64]);
            assert(none.push(line) =~= seq![line]);
            assert(rest == groups_from(
                jobs,
                1,
                nothing.push(0),
                none.push(line),
                run.result.1,
                next,
            ));
        },
    }
    assert(rest.asked =~= Seq::<QueryView>::empty());
    assert(one.asked =~= run.asked);
}

/// Groups are sized one after the other: what comes of a group and others is what comes of the
/// group alone, and then of the others with the cache that it left; unless the size of the group is
/// too large, which ends it.
pub proof fn law_groups_are_sized_one_by_one(
    g: &Group,
    rest: Seq<&Group>,
    cache: CacheView,
    store: Store,
)
    ensures
        ({
            let none = Seq::<Seq<char>>::empty();
            let all = jobs_of(seq![g] + rest);
            let whole = groups_from(all, 0, Seq::empty(), none, cache, store);
            let one = groups_from(jobs_of(seq![g]), 0, Seq::empty(), none, cache, store);
            let next = later(store, one.asked);
            let others = groups_from(
                jobs_of(rest),
                0,
                Seq::empty(),
                none,
                one.result.cache,
                next,
            );
            match one.result.sizes {
                Some(v) => whole.asked == one.asked + others.asked && whole.result
                    == behind_others(v, one.result.warnings, others.result),
                None => whole == one,
            }
        }),
{
    let none = Seq::<Seq<char>>::empty();
    let nothing = Seq::<u64>::empty();
    let all = jobs_of(seq![g] + rest);
    let single = jobs_of(seq![g]);
    let others = jobs_of(rest);
    assert(all[0] == job_of(g) && single[0] == job_of(g));
    assert(all.skip(1) =~= others.skip(0));
    let run = group_run(all[0].members, cache, store);
    let next = later(store, run.asked);
    let one = groups_from(single, 0, nothing, none, cache, store);
    let whole = groups_from(all, 0, nothing, none, cache, store);
    lemma_single_group(g, cache, store);
    assert(whole == after(run.asked, groups_after(run.result, all, 0, nothing, none, next)));
    match run.result.0 {
        Tally::Overflow => {
            assert(whole.asked =~= run.asked);
        },
        Tally::Size(n) => {
            let v = seq![n];
            assert(nothing.push(n) =~= v);
            lemma_groups_behind(all, others, 1, 0, v, none, nothing, none, run.result.1, next);
            assert(v + nothing =~= v);
            assert(none + none =~= none);
        },
        Tally::Failed(e) => {
            let v = seq![0u64];
            let line = warning(g.loc@, e.message);
            let w = seq![line];
            assert(nothing.push(0) =~= v);
            assert(none.push(line) =~= w);
            lemma_groups_behind(all, others, 1, 0, v, w, nothing, none, run.result.1, next);
            assert(v + nothing =~= v);
            assert(w + none =~= w);
        },
    }
}

/// A group whose closure is known but cannot be measured counts as zero too, and is warned of in
/// the same way; the cache learns nothing from that.
pub proof fn law_unmeasured_groups_count_as_zero(
    g: &Group,
    all: Seq<Seq<char>>,
    e: StoreErrorView,
    cache: CacheView,
    store: Store,
)
    requires
        g.members@.len() > 0,
        !cache.groups.contains_key(joined(texts(g.members@), "\n"@)),
        ({
            let c = lines_from(false, texts(g.members@), 0, Seq::empty(), store);
            let unknown = sorted_set(all).filter(|p: Seq<char>| !cache.sizes.contains_key(p));
            &&& c.result == Ok::<Seq<Seq<char>>, StoreErrorView>(all)
            &&& sizes_from(unknown, 0, Seq::empty(), later(store, c.asked)).result == Err::<
                Seq<u64>,
                StoreErrorView,
            >(e)
        }),
    ensures
        ({
            let jobs = jobs_of(seq![g]);
            let r = groups_from(jobs, 0, Seq::empty(), Seq::empty(), cache, store).result;
            &&& r.sizes == Some(seq![0u64])
            &&& r.warnings == seq![
                "warning: closure size for "@ + g.loc@ + ": "@ + e.message,
            ]
            &&& r.cache == cache
        }),
{
    let members = texts(g.members@);
    let run = group_run(members, cache, store);
    lemma_single_group(g, cache, store);
    assert(run == cold(members, cache, store));
    let unknown = sorted_set(all).filter(|p: Seq<char>| !cache.sizes.contains_key(p));
    assert(unknown == missing_of(sorted_set(all), cache.sizes));
    assert(run.result.0 == Tally::Failed(e));
    assert(run.result.1 =~= cache);
}

/// A group that is measured leaves the size of every path in its closure in the cache, and forgets
/// none that was there.
pub proof fn law_measured_paths_are_remembered(
    g: &Group,
    f: Facts,
    cache: CacheView,
    store: Store,
    p: Seq<char>,
)
    requires
        honest(store, f),
        sound(cache, f),
        keys_tell_apart(f),
        listed(f, texts(g.members@)),
        closure_size(f, texts(g.members@)) <= u64::MAX,
        !cache.groups.contains_key(joined(texts(g.members@), "\n"@)),
        closures(f, texts(g.members@)).contains(p) || cache.sizes.contains_key(p),
    ensures
        ({
            let jobs = jobs_of(seq![g]);
            let r = groups_from(jobs, 0, Seq::empty(), Seq::empty(), cache, store).result;
            r.cache.sizes.contains_key(p) && r.cache.sizes[p] == (f.size)(p)
        }),
{
    let members = texts(g.members@);
    lemma_single_group(g, cache, store);
    lemma_cold_remembers(store, f, members, cache, p);
    let run = group_run(members, cache, store);
    assert(run == cold(members, cache, store));
}

// ---------------------------------------------------------------------------------------------
// Scopes
// ---------------------------------------------------------------------------------------------

/// Whether a link lives under a `/per-user/` tree or a home.
pub open spec fn of_a_user(l: Seq<char>) -> bool {
    ||| exists|a: Seq<char>, b: Seq<char>| l == #[trigger] (a + "/per-user/"@ + b)
    ||| exists|b: Seq<char>| l == #[trigger] ("/home/"@ + b)
}

/// A group is of a user if any of its links lives under a `/per-user/` tree or a home.
pub proof fn law_any_user_link_makes_a_user_group(links: Seq<Seq<char>>)
    ensures
        user_links(links) <==> exists|i: int| 0 <= i < links.len() && of_a_user(#[trigger] links[i]),
{
    assert forall|l: Seq<char>| #[trigger] user_link(l) <==> of_a_user(l) by {
        let tree = "/per-user/"@;
        let home = "/home/"@;
        law_occurrences(Seq::empty(), tree, Seq::empty());
        if occurs(l, tree) {
            let i = choose|i: int| occurs_at(l, tree, i);
            assert(l == l.take(i) + tree + l.skip(i + tree.len()));
        }
        if home.is_prefix_of(l) {
            assert(l =~= home + l.skip(home.len() as int));
        }
        if exists|a: Seq<char>, b: Seq<char>| l == #[trigger] (a + tree + b) {
            let (a, b) = choose|a: Seq<char>, b: Seq<char>| l == #[trigger] (a + tree + b);
            law_occurrences(a, tree, b);
        }
        if exists|b: Seq<char>| l == #[trigger] (home + b) {
            let b = choose|b: Seq<char>| l == #[trigger] (home + b);
            assert(l.subrange(0, home.len() as int) =~= home);
        }
    }
    if user_links(links) {
        let i = choose|i: int| 0 <= i < links.len() && #[trigger] user_link(links[i]);
        assert(of_a_user(links[i]));
    }
    if exists|i: int| 0 <= i < links.len() && of_a_user(#[trigger] links[i]) {
        let i = choose|i: int| 0 <= i < links.len() && of_a_user(#[trigger] links[i]);
        assert(user_link(links[i]));
    }
}

/// Whether any of the links of a group lives under a `/per-user/` tree or a home.
pub open spec fn user_group(g: Group) -> bool {
    exists|i: int| 0 <= i < g.links@.len() && of_a_user((#[trigger] g.links@[i])@)
}

proof fn lemma_user_group(g: Group)
    ensures
        user_links(texts(g.links@)) == user_group(g),
{
    let links = texts(g.links@);
    law_any_user_link_makes_a_user_group(links);
    if user_group(g) {
        let i = choose|i: int| 0 <= i < g.links@.len() && of_a_user((#[trigger] g.links@[i])@);
        assert(of_a_user(links[i]));
    }
    if exists|i: int| 0 <= i < links.len() && of_a_user(#[trigger] links[i]) {
        let i = choose|i: int| 0 <= i < links.len() && of_a_user(#[trigger] links[i]);
        assert(of_a_user(g.links@[i]@));
    }
}

proof fn lemma_contains_add(a: Seq<Seq<char>>, b: Seq<Seq<char>>, x: Seq<char>)
    ensures
        (a + b).contains(x) == (a.contains(x) || b.contains(x)),
{
    if a.contains(x) {
        let i = choose|i: int| 0 <= i < a.len() && a[i] == x;
        assert((a + b)[i] == x);
    }
    if b.contains(x) {
        let i = choose|i: int| 0 <= i < b.len() && b[i] == x;
        assert((a + b)[a.len() + i] == x);
    }
    if (a + b).contains(x) {
        let i = choose|i: int| 0 <= i < (a + b).len() && (a + b)[i] == x;
        if i < a.len() {
            assert(a[i] == x);
        } else {
            assert(b[i - a.len()] == x);
        }
    }
}

/// Every member of every group is among the roots of the scope of its group, and the roots of a
/// scope hold nothing else.
pub proof fn law_members_are_roots_of_their_scope(groups: Seq<Group>, m: Seq<char>)
    ensures
        plan_of(groups).user.contains(m) <==> exists|k: int|
            0 <= k < groups.len() && user_group(#[trigger] groups[k]) && texts(
                groups[k].members@,
            ).contains(m),
        plan_of(groups).system.contains(m) <==> exists|k: int|
            0 <= k < groups.len() && !user_group(#[trigger] groups[k]) && texts(
                groups[k].members@,
            ).contains(m),
{
    lemma_members_in(groups, true, m);
    lemma_members_in(groups, false, m);
}

proof fn lemma_members_in(groups: Seq<Group>, user: bool, m: Seq<char>)
    ensures
        members_in(groups, user).contains(m) <==> exists|k: int|
            0 <= k < groups.len() && user_group(#[trigger] groups[k]) == user && texts(
                groups[k].members@,
            ).contains(m),
    decreases groups.len(),
{
    if groups.len() > 0 {
        let rest = groups.drop_last();
        let g = groups[groups.len() - 1];
        lemma_members_in(rest, user, m);
        lemma_user_group(g);
        lemma_contains_add(members_in(rest, user), texts(g.members@), m);
        if members_in(rest, user).contains(m) {
            let k = choose|k: int|
                0 <= k < rest.len() && user_group(#[trigger] rest[k]) == user && texts(
                    rest[k].members@,
                ).contains(m);
            assert(groups[k] == rest[k]);
        }
        if exists|k: int|
            0 <= k < groups.len() && user_group(#[trigger] groups[k]) == user && texts(
                groups[k].members@,
            ).contains(m) {
            let k = choose|k: int|
                0 <= k < groups.len() && user_group(#[trigger] groups[k]) == user && texts(
                    groups[k].members@,
                ).contains(m);
            if k < rest.len() {
                assert(rest[k] == groups[k]);
            }
        }
    }
}

// ---------------------------------------------------------------------------------------------
// The figures of a summary
// ---------------------------------------------------------------------------------------------

proof fn lemma_closures_hold(f: Facts, paths: Seq<Seq<char>>, x: Seq<char>)
    ensures
        closures(f, paths).contains(x) <==> exists|i: int|
            0 <= i < paths.len() && (f.closure)(#[trigger] paths[i]).contains(x),
    decreases paths.len(),
{
    if paths.len() > 0 {
        let rest = paths.drop_last();
        let l = paths[paths.len() - 1];
        lemma_closures_hold(f, rest, x);
        lemma_contains_add(closures(f, rest), (f.closure)(l), x);
        if closures(f, rest).contains(x) {
            let i = choose|i: int|
                0 <= i < rest.len() && (f.closure)(#[trigger] rest[i]).contains(x);
            assert(paths[i] == rest[i]);
        }
        if exists|i: int| 0 <= i < paths.len() && (f.closure)(#[trigger] paths[i]).contains(x) {
            let i = choose|i: int|
                0 <= i < paths.len() && (f.closure)(#[trigger] paths[i]).contains(x);
            if i < rest.len() {
                assert(rest[i] == paths[i]);
            }
        }
    }
}

/// The union closure size of paths depends on which paths they are, and on nothing else.
pub proof fn law_closure_size_of_a_set(f: Facts, a: Seq<Seq<char>>, b: Seq<Seq<char>>)
    requires
        forall|x: Seq<char>| #[trigger] a.contains(x) <==> b.contains(x),
    ensures
        closure_size(f, a) == closure_size(f, b),
{
    assert forall|x: Seq<char>| closures(f, a).to_set().contains(x) <==> closures(
        f,
        b,
    ).to_set().contains(x) by {
        lemma_closures_hold(f, a, x);
        lemma_closures_hold(f, b, x);
        if closures(f, a).contains(x) {
            let i = choose|i: int| 0 <= i < a.len() && (f.closure)(#[trigger] a[i]).contains(x);
            assert(a.contains(a[i]));
            let j = choose|j: int| 0 <= j < b.len() && b[j] == a[i];
            assert((f.closure)(b[j]).contains(x));
        }
        if closures(f, b).contains(x) {
            let i = choose|i: int| 0 <= i < b.len() && (f.closure)(#[trigger] b[i]).contains(x);
            assert(b.contains(b[i]));
            assert(a.contains(b[i]));
            let j = choose|j: int| 0 <= j < a.len() && a[j] == b[i];
            assert((f.closure)(a[j]).contains(x));
        }
    }
    assert(closures(f, a).to_set() =~= closures(f, b).to_set());
    lemma_sorted_set_of_set(closures(f, a), closures(f, b));
}

/// The closure sizes of the groups that are writable and not protected.
pub open spec fn sizes_of_safe_groups(f: Facts, groups: Seq<Group>) -> Seq<u64> {
    groups.filter(|g: Group| g.writable && !g.protected).map_values(
        |g: Group| closure_size(f, texts(g.members@)) as u64,
    )
}

proof fn lemma_safe_groups(f: Facts, groups: Seq<Group>)
    ensures
        deletable_jobs(groups).map_values(|j: JobView| closure_size(f, j.members) as u64)
            == sizes_of_safe_groups(f, groups),
        forall|k: int|
            0 <= k < deletable_jobs(groups).len() ==> exists|i: int|
                0 <= i < groups.len() && (#[trigger] deletable_jobs(groups)[k]).members == texts(
                    (#[trigger] groups[i]).members@,
                ),
    decreases groups.len(),
{
    reveal(Seq::filter);
    let size = |j: JobView| closure_size(f, j.members) as u64;
    let safe = |g: Group| g.writable && !g.protected;
    let own = |g: Group| closure_size(f, texts(g.members@)) as u64;
    let jobs = deletable_jobs(groups);
    if groups.len() > 0 {
        let rest = groups.drop_last();
        let before = deletable_jobs(rest);
        lemma_safe_groups(f, rest);
        assert forall|k: int| 0 <= k < jobs.len() implies exists|i: int|
            0 <= i < groups.len() && (#[trigger] jobs[k]).members == texts(
                (#[trigger] groups[i]).members@,
            ) by {
            if k < before.len() {
                assert(before[k] == jobs[k]);
                let i = choose|i: int|
                    0 <= i < rest.len() && before[k].members == texts(
                        (#[trigger] rest[i]).members@,
                    );
                assert(groups[i] == rest[i]);
            } else {
                assert(jobs[k].members == texts(groups[groups.len() - 1].members@));
            }
        }
        if groups.last().may_delete() {
            assert(jobs.map_values(size) =~= before.map_values(size).push(own(groups.last())));
            assert(groups.filter(safe).map_values(own) =~= rest.filter(safe).map_values(own).push(
                own(groups.last()),
            ));
        }
    } else {
        assert(jobs.map_values(size) =~= groups.filter(safe).map_values(own));
    }
}

/// The figures of a summary, told of the groups: what may be reclaimed is the sum of the closure
/// sizes of the groups that are writable and not protected; what the system pins is the union
/// closure size of the members of the groups without a user link; and together with what the users
/// pin it is the union closure size of the members of all groups, protected or not.
pub proof fn law_summary_covers_all_groups(
    store: Store,
    f: Facts,
    groups: Seq<Group>,
    cache: CacheView,
    now: u64,
    all: Seq<Seq<char>>,
    system: Seq<Seq<char>>,
)
    requires
        honest(store, f),
        sound(cache, f),
        keys_tell_apart(f),
        forall|k: int|
            0 <= k < groups.len() ==> ((#[trigger] groups[k]).members@.len() == 0 || listed(
                f,
                texts(groups[k].members@),
            )),
        forall|k: int|
            0 <= k < groups.len() ==> closure_size(f, texts((#[trigger] groups[k]).members@))
                <= u64::MAX,
        forall|m: Seq<char>|
            #[trigger] all.contains(m) <==> exists|k: int|
                0 <= k < groups.len() && texts((#[trigger] groups[k]).members@).contains(m),
        forall|m: Seq<char>|
            #[trigger] system.contains(m) <==> exists|k: int|
                0 <= k < groups.len() && !user_group(#[trigger] groups[k]) && texts(
                    groups[k].members@,
                ).contains(m),
        closure_size(f, all) <= u64::MAX,
        total(sizes_of_safe_groups(f, groups)) <= u64::MAX,
    ensures
        survey_run(plan_of(groups), cache, now, false, store).result.outcome matches Outcome::Told(
            s,
        ) && {
            &&& s.now == now
            &&& s.collectable_bytes is None
            &&& s.reclaimable_bytes == total(sizes_of_safe_groups(f, groups))
            &&& s.pinned.system_bytes == closure_size(f, system)
            &&& s.pinned.system_bytes + s.pinned.user_bytes == closure_size(f, all)
        },
{
    let plan = plan_of(groups);
    lemma_safe_groups(f, groups);
    let both = plan.system + plan.user;
    assert forall|m: Seq<char>| #[trigger] both.contains(m) <==> all.contains(m) by {
        law_members_are_roots_of_their_scope(groups, m);
        lemma_contains_add(plan.system, plan.user, m);
        if all.contains(m) {
            let k = choose|k: int|
                0 <= k < groups.len() && texts((#[trigger] groups[k]).members@).contains(m);
            assert(user_group(groups[k]) || !user_group(groups[k]));
        }
    }
    law_closure_size_of_a_set(f, both, all);
    assert forall|m: Seq<char>| #[trigger] plan.system.contains(m) <==> system.contains(m) by {
        law_members_are_roots_of_their_scope(groups, m);
    }
    law_closure_size_of_a_set(f, plan.system, system);
    assert forall|k: int| 0 <= k < plan.jobs.len() implies ((#[trigger] plan.jobs[k]).members.len()
        == 0 || listed(f, plan.jobs[k].members)) && closure_size(f, plan.jobs[k].members)
        <= u64::MAX by {
        let i = choose|i: int|
            0 <= i < groups.len() && plan.jobs[k].members == texts((#[trigger] groups[i]).members@);
        assert(groups[i].members@.len() == texts(groups[i].members@).len());
    }
    lemma_scope_covered(f, groups, plan.system);
    lemma_scope_covered(f, groups, plan.user);
    assert(tellable(f, plan));
    law_summary_counts_each_path_once(store, f, plan, cache, now);
}

proof fn lemma_scope_covered(f: Facts, groups: Seq<Group>, roots: Seq<Seq<char>>)
    requires
        forall|k: int|
            0 <= k < groups.len() ==> ((#[trigger] groups[k]).members@.len() == 0 || listed(
                f,
                texts(groups[k].members@),
            )),
        roots == plan_of(groups).system || roots == plan_of(groups).user,
    ensures
        covered(f, roots),
{
    assert forall|i: int| 0 <= i < roots.len() implies (f.covers)(#[trigger] roots[i]) by {
        let m = roots[i];
        assert(roots.contains(m));
        law_members_are_roots_of_their_scope(groups, m);
        let k = choose|k: int|
            0 <= k < groups.len() && texts((#[trigger] groups[k]).members@).contains(m);
        let members = texts(groups[k].members@);
        let j = choose|j: int| 0 <= j < members.len() && members[j] == m;
        assert(members.len() == groups[k].members@.len());
        assert((f.covers)(members[j]));
    }
}

/// A summary has no figures where the store does not tell them: where it refuses the closures of
/// the roots, and there are any, that is what the summary fails with; and where it refuses the dead
/// paths that are wanted, nothing else is asked for.
pub proof fn law_summary_fails_with_the_store(
    store: Store,
    e: StoreErrorView,
    groups: Seq<Group>,
    k: int,
    cache: CacheView,
    now: u64,
)
    ensures
        refuses(store, e) && 0 <= k < groups.len() && groups[k].members@.len() > 0 && (forall|
            i: int,
        |
            0 <= i < groups.len() ==> !cache.groups.contains_key(
                joined(texts((#[trigger] groups[i]).members@), "\n"@),
            )) ==> survey_run(plan_of(groups), cache, now, false, store).result.outcome
            == Outcome::Failed(e),
        printed(QueryView::Dead, answer_of(store, QueryView::Dead)) == Err::<
            Seq<char>,
            StoreErrorView,
        >(e) ==> {
            let run = survey_run(plan_of(groups), cache, now, true, store);
            run.result.outcome == Outcome::Failed(e) && run.asked == seq![QueryView::Dead]
        },
{
    if refuses(store, e) && 0 <= k < groups.len() && groups[k].members@.len() > 0 && (forall|
        i: int,
    |
        0 <= i < groups.len() ==> !cache.groups.contains_key(
            joined(texts((#[trigger] groups[i]).members@), "\n"@),
        )) {
        let plan = plan_of(groups);
        let m = texts(groups[k].members@)[0];
        assert(texts(groups[k].members@).contains(m));
        law_members_are_roots_of_their_scope(groups, m);
        assert(user_group(groups[k]) || !user_group(groups[k]));
        assert(plan.system.len() > 0 || plan.user.len() > 0);
        let none = Seq::<Seq<char>>::empty();
        lemma_refused_jobs(store, e, groups, cache);
        let g = groups_from(plan.jobs, 0, Seq::empty(), none, cache, store);
        let s1 = later(store, g.asked);
        lemma_refuses_later(store, e, g.asked);
        let c = lines_from(false, plan.system, 0, Seq::empty(), s1);
        if plan.system.len() > 0 {
            lemma_refused_lines(s1, e, plan.system);
        } else {
            lemma_refuses_later(s1, e, c.asked);
            lemma_refused_lines(later(s1, c.asked), e, plan.user);
        }
    }
    if printed(QueryView::Dead, answer_of(store, QueryView::Dead)) == Err::<
        Seq<char>,
        StoreErrorView,
    >(e) {
        assert(survey_run(plan_of(groups), cache, now, true, store).asked =~= seq![
            QueryView::Dead,
        ]);
    }
}

proof fn lemma_refused_lines(store: Store, e: StoreErrorView, paths: Seq<Seq<char>>)
    requires
        refuses(store, e),
        paths.len() > 0,
    ensures
        lines_from(false, paths, 0, Seq::empty(), store).result == Err::<
            Seq<Seq<char>>,
            StoreErrorView,
        >(e),
{
    lemma_refuses_later(store, e, Seq::empty());
    let q = QueryView::Requisites(paths.subrange(0, chunk_end(paths.len() as int, 0)));
    assert(printed(q, answer_of(store, q)) == Err::<Seq<char>, StoreErrorView>(e));
}

proof fn lemma_refused_jobs(
    store: Store,
    e: StoreErrorView,
    groups: Seq<Group>,
    cache: CacheView,
)
    requires
        refuses(store, e),
        forall|i: int|
            0 <= i < groups.len() ==> !cache.groups.contains_key(
                joined(texts((#[trigger] groups[i]).members@), "\n"@),
            ),
    ensures
        ({
            let jobs = deletable_jobs(groups);
            let none = Seq::<Seq<char>>::empty();
            let r = groups_from(jobs, 0, Seq::empty(), none, cache, store).result;
            r.sizes matches Some(v) && total(v) == 0
        }),
{
    let f = arbitrary::<Facts>();
    let jobs = deletable_jobs(groups);
    lemma_safe_groups(f, groups);
    assert forall|k: int| 0 <= k < jobs.len() implies !cache.groups.contains_key(
        joined((#[trigger] jobs[k]).members, "\n"@),
    ) by {
        let i = choose|i: int|
            0 <= i < groups.len() && jobs[k].members == texts((#[trigger] groups[i]).members@);
        assert(!cache.groups.contains_key(joined(texts(groups[i].members@), "\n"@)));
    }
    lemma_refused_list(store, e, jobs, 0, Seq::empty(), Seq::empty(), cache);
}

proof fn lemma_refused_list(
    store: Store,
    e: StoreErrorView,
    jobs: Seq<JobView>,
    i: int,
    out: Seq<u64>,
    warnings: Seq<Seq<char>>,
    cache: CacheView,
)
    requires
        refuses(store, e),
        0 <= i <= jobs.len(),
        forall|k: int|
            0 <= k < jobs.len() ==> !cache.groups.contains_key(
                joined((#[trigger] jobs[k]).members, "\n"@),
            ),
        total(out) == 0,
    ensures
        groups_from(jobs, i, out, warnings, cache, store).result.sizes matches Some(v) && total(v)
            == 0,
    decreases jobs.len() - i,
{
    if i < jobs.len() {
        let members = jobs[i].members;
        let run = group_run(members, cache, store);
        let next = later(store, run.asked);
        lemma_refuses_later(store, e, run.asked);
        assert(out.push(0).drop_last() =~= out);
        if members.len() > 0 {
            lemma_refused_lines(store, e, members);
            assert(run == cold(members, cache, store));
            assert(run.result == (Tally::Failed(e), cache));
            let line = warning(jobs[i].loc, e.message);
            lemma_refused_list(next, e, jobs, i + 1, out.push(0), warnings.push(line), cache);
        } else {
            lemma_refused_list(next, e, jobs, i + 1, out.push(0), warnings, cache);
        }
    }
}

// ---------------------------------------------------------------------------------------------
// Laws of the calls
// ---------------------------------------------------------------------------------------------

/// Sizing groups, with a store that answers by the facts and a cache of which all is true, comes to
/// the union closure size of the members of each.
pub proof fn law_sizing_comes_to_closure_sizes(
    groups: &[&Group],
    cache: Cache,
    sizing: Sizing,
    store: Store,
    f: Facts,
)
    requires
        call_ensures(group_sizes, (groups, cache), sizing),
        honest(store, f),
        sound(cache@, f),
        keys_tell_apart(f),
        forall|k: int|
            0 <= k < groups@.len() ==> ((#[trigger] groups@[k]).members@.len() == 0 || listed(
                f,
                texts(groups@[k].members@),
            )),
        forall|k: int|
            0 <= k < groups@.len() ==> closure_size(f, texts((#[trigger] groups@[k]).members@))
                <= u64::MAX,
    ensures
        sizing.rest(store).result.sizes matches Some(v) && v.len() == groups@.len() && forall|k: int|
            0 <= k < groups@.len() ==> #[trigger] v[k] == closure_size(
                f,
                texts(groups@[k].members@),
            ),
{
    law_every_group_has_its_closure_size(store, f, groups@, cache@);
    assert(sizing.rest(store) == groups_from(
        jobs_of(groups@),
        0,
        Seq::empty(),
        Seq::empty(),
        cache@,
        store,
    ));
}

/// A summary fails, or tells the moment that it was computed for, and what can be collected just
/// where that was wanted. It asks for the dead paths first where they are wanted, and for nothing
/// where there are no groups and they are not.
pub proof fn law_computing_tells_what_was_wanted(
    groups: &[Group],
    cache: Cache,
    now: u64,
    want_collectable: bool,
    survey: Survey,
    store: Store,
)
    requires
        call_ensures(compute, (groups, cache, now, want_collectable), survey),
    ensures
        survey.rest(store).result.outcome matches Outcome::Told(s) ==> s.now == now && (
        s.collectable_bytes is Some <==> want_collectable),
        want_collectable ==> survey.rest(store).asked.len() > 0 && survey.rest(store).asked[0]
            == QueryView::Dead,
        groups@.len() == 0 && !want_collectable ==> survey.rest(store).asked.len() == 0,
{
    let plan = plan_of(groups@);
    assert(survey.rest(store) == survey_run(plan, cache@, now, want_collectable, store));
    law_summary_has_what_was_asked_for(plan, cache@, now, want_collectable, store);
    if groups@.len() == 0 {
        let none = Seq::<Seq<char>>::empty();
        assert(plan.jobs == Seq::<JobView>::empty());
        assert(plan.system == none && plan.user == none);
        lemma_sorted_set_of_set(none, none);
        law_sorted_sets(none);
        assert(sorted_set(none) =~= none) by {
            if sorted_set(none).len() > 0 {
                assert(sorted_set(none).contains(sorted_set(none)[0]));
            }
        }
        reveal(Seq::filter);
        let p = |p: Seq<char>| !cache@.sizes.contains_key(p);
        assert(none.filter(p) =~= none);
        let q = |p: Seq<char>| !none.contains(p);
        assert(none.filter(q) =~= none);
    }
}

} // verus!
