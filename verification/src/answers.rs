//! What a run depends on: the answers to the questions that it asks, and nothing else of the store.

use vstd::prelude::*;

use crate::cache::CacheView;
use crate::nix::{
    answer_of, chunk_end, dead_of, later, lines_from, lines_query, parsed_sizes, printed,
    sizes_from, QueryView, ReplyView, Store,
};
use crate::size::{
    cold, group_run, groups_after, groups_from, measuring, missing_of, tally_of, total, warning,
    JobView, Known, Tally,
};
use crate::summary::{
    collectable_run, dead_sized, knowing, minus, pinned_run, reclaimable_run,
    survey_run, system_sized, user_closed, user_sized, validity_told, PlanView, Progress,
};
use crate::text::{lines_of, sorted_set};
use crate::walk::set_key;

verus! {

/// Whether two stores give the same answers to questions that are asked one after the other.
pub open spec fn agree(store: Store, other: Store, asked: Seq<QueryView>) -> bool {
    forall|k: int|
        0 <= k < asked.len() ==> #[trigger] store(asked.take(k), asked[k]) == other(
            asked.take(k),
            asked[k],
        )
}

/// Stores that agree on questions agree on the first of them, and on the others after these.
proof fn lemma_agree_split(store: Store, other: Store, a: Seq<QueryView>, b: Seq<QueryView>)
    requires
        agree(store, other, a + b),
    ensures
        agree(store, other, a),
        agree(later(store, a), later(other, a), b),
{
    let all = a + b;
    assert forall|k: int| 0 <= k < a.len() implies #[trigger] store(a.take(k), a[k]) == other(
        a.take(k),
        a[k],
    ) by {
        assert(all.take(k) =~= a.take(k));
        assert(store(all.take(k), all[k]) == other(all.take(k), all[k]));
    }
    assert forall|k: int| 0 <= k < b.len() implies #[trigger] later(store, a)(b.take(k), b[k])
        == later(other, a)(b.take(k), b[k]) by {
        let n = a.len() + k;
        assert(all.take(n) =~= a + b.take(k));
        assert(store(all.take(n), all[n]) == other(all.take(n), all[n]));
    }
}

proof fn lemma_agree_first(store: Store, other: Store, q: QueryView, b: Seq<QueryView>)
    requires
        agree(store, other, seq![q] + b),
    ensures
        answer_of(store, q) == answer_of(other, q),
        agree(later(store, seq![q]), later(other, seq![q]), b),
{
    let all = seq![q] + b;
    lemma_agree_split(store, other, seq![q], b);
    assert(all.take(0) =~= Seq::<QueryView>::empty());
    assert(store(all.take(0), all[0]) == other(all.take(0), all[0]));
}

proof fn lemma_same_lines(
    validity: bool,
    paths: Seq<Seq<char>>,
    pos: int,
    found: Seq<Seq<char>>,
    store: Store,
    other: Store,
)
    requires
        agree(store, other, lines_from(validity, paths, pos, found, store).asked),
    ensures
        lines_from(validity, paths, pos, found, other) == lines_from(
            validity,
            paths,
            pos,
            found,
            store,
        ),
    decreases paths.len() - pos,
{
    if pos < paths.len() {
        let end = chunk_end(paths.len() as int, pos);
        let q = lines_query(validity, paths.subrange(pos, end));
        match printed(q, answer_of(store, q)) {
            Err(_) => {
                lemma_agree_first(store, other, q, Seq::empty());
            },
            Ok(text) => {
                let more = found + lines_of(text);
                let next = later(store, seq![q]);
                let rest = lines_from(validity, paths, end, more, next);
                lemma_agree_first(store, other, q, rest.asked);
                lemma_same_lines(validity, paths, end, more, next, later(other, seq![q]));
            },
        }
    }
}

proof fn lemma_same_sizes(
    paths: Seq<Seq<char>>,
    pos: int,
    found: Seq<u64>,
    store: Store,
    other: Store,
)
    requires
        agree(store, other, sizes_from(paths, pos, found, store).asked),
    ensures
        sizes_from(paths, pos, found, other) == sizes_from(paths, pos, found, store),
    decreases paths.len() - pos,
{
    if pos < paths.len() {
        let end = chunk_end(paths.len() as int, pos);
        let q = QueryView::Sizes(paths.subrange(pos, end));
        let none = Seq::<QueryView>::empty();
        match printed(q, answer_of(store, q)) {
            Err(_) => {
                lemma_agree_first(store, other, q, none);
            },
            Ok(text) => match parsed_sizes(lines_of(text), found) {
                Err(_) => {
                    lemma_agree_first(store, other, q, none);
                },
                Ok(more) => {
                    let next = later(store, seq![q]);
                    let rest = sizes_from(paths, end, more, next);
                    lemma_agree_first(store, other, q, rest.asked);
                    lemma_same_sizes(paths, end, more, next, later(other, seq![q]));
                },
            },
        }
    }
}

proof fn lemma_same_measuring(paths: Seq<Seq<char>>, known: Known, store: Store, other: Store)
    requires
        agree(store, other, measuring(paths, known, store).asked),
    ensures
        measuring(paths, known, other) == measuring(paths, known, store),
{
    lemma_same_sizes(missing_of(paths, known), 0, Seq::empty(), store, other);
}

proof fn lemma_same_cold(members: Seq<Seq<char>>, cache: CacheView, store: Store, other: Store)
    requires
        agree(store, other, cold(members, cache, store).asked),
    ensures
        cold(members, cache, other) == cold(members, cache, store),
{
    let c = lines_from(false, members, 0, Seq::empty(), store);
    match c.result {
        Err(_) => {
            lemma_same_lines(false, members, 0, Seq::empty(), store, other);
        },
        Ok(all) => {
            let next = later(store, c.asked);
            let m = measuring(sorted_set(all), cache.sizes, next);
            lemma_agree_split(store, other, c.asked, m.asked);
            lemma_same_lines(false, members, 0, Seq::empty(), store, other);
            lemma_same_measuring(sorted_set(all), cache.sizes, next, later(other, c.asked));
        },
    }
}

proof fn lemma_same_group(members: Seq<Seq<char>>, cache: CacheView, store: Store, other: Store)
    requires
        agree(store, other, group_run(members, cache, store).asked),
    ensures
        group_run(members, cache, other) == group_run(members, cache, store),
{
    if members.len() > 0 {
        if cache.groups.contains_key(set_key(members)) {
            let q = QueryView::Present(members);
            if answer_of(store, q) == ReplyView::Present(true) {
                lemma_agree_first(store, other, q, Seq::empty());
            } else {
                let next = later(store, seq![q]);
                lemma_agree_first(store, other, q, cold(members, cache, next).asked);
                lemma_same_cold(members, cache, next, later(other, seq![q]));
            }
        } else {
            lemma_same_cold(members, cache, store, other);
        }
    }
}

/// The sizes of groups depend on nothing but the answers to the questions that are asked for them:
/// with another store that gives the same answers to these, the run is the same.
pub proof fn law_sizes_depend_on_answers_alone(
    jobs: Seq<JobView>,
    i: int,
    out: Seq<u64>,
    warnings: Seq<Seq<char>>,
    cache: CacheView,
    store: Store,
    other: Store,
)
    requires
        agree(store, other, groups_from(jobs, i, out, warnings, cache, store).asked),
    ensures
        groups_from(jobs, i, out, warnings, cache, other) == groups_from(
            jobs,
            i,
            out,
            warnings,
            cache,
            store,
        ),
    decreases jobs.len() - i,
{
    if i < jobs.len() {
        let g = group_run(jobs[i].members, cache, store);
        let next = later(store, g.asked);
        let then = later(other, g.asked);
        let rest = groups_after(g.result, jobs, i, out, warnings, next);
        lemma_agree_split(store, other, g.asked, rest.asked);
        lemma_same_group(jobs[i].members, cache, store, other);
        match g.result.0 {
            Tally::Overflow => {},
            Tally::Size(n) => {
                law_sizes_depend_on_answers_alone(
                    jobs,
                    i + 1,
                    out.push(n),
                    warnings,
                    g.result.1,
                    next,
                    then,
                );
            },
            Tally::Failed(e) => {
                law_sizes_depend_on_answers_alone(
                    jobs,
                    i + 1,
                    out.push(0),
                    warnings.push(warning(jobs[i].loc, e.message)),
                    g.result.1,
                    next,
                    then,
                );
            },
        }
    }
}

proof fn lemma_same_user_sized(
    beyond: Seq<Seq<char>>,
    system: u64,
    p: Progress,
    store: Store,
    other: Store,
)
    requires
        agree(
            store,
            other,
            user_sized(measuring(beyond, p.cache.sizes, store), system, p).asked,
        ),
    ensures
        user_sized(measuring(beyond, p.cache.sizes, other), system, p) == user_sized(
            measuring(beyond, p.cache.sizes, store),
            system,
            p,
        ),
{
    let m = measuring(beyond, p.cache.sizes, store);
    lemma_agree_split(store, other, m.asked, Seq::empty());
    lemma_same_measuring(beyond, p.cache.sizes, store, other);
}

proof fn lemma_same_system_sized(
    base: Seq<Seq<char>>,
    beyond: Seq<Seq<char>>,
    p: Progress,
    store: Store,
    other: Store,
)
    requires
        agree(
            store,
            other,
            system_sized(measuring(base, p.cache.sizes, store), beyond, p, store).asked,
        ),
    ensures
        system_sized(measuring(base, p.cache.sizes, other), beyond, p, other) == system_sized(
            measuring(base, p.cache.sizes, store),
            beyond,
            p,
            store,
        ),
{
    let m = measuring(base, p.cache.sizes, store);
    let q = knowing(p, m.result.known);
    let next = later(store, m.asked);
    match tally_of(m.result.sizes) {
        Tally::Size(system) => {
            let rest = user_sized(measuring(beyond, q.cache.sizes, next), system, q);
            lemma_agree_split(store, other, m.asked, rest.asked);
            lemma_same_user_sized(beyond, system, q, next, later(other, m.asked));
        },
        _ => {
            lemma_agree_split(store, other, m.asked, Seq::empty());
        },
    }
    lemma_same_measuring(base, p.cache.sizes, store, other);
}

proof fn lemma_same_user_closed(
    user: Seq<Seq<char>>,
    system: Seq<Seq<char>>,
    p: Progress,
    store: Store,
    other: Store,
)
    requires
        agree(
            store,
            other,
            user_closed(lines_from(false, user, 0, Seq::empty(), store), system, p, store).asked,
        ),
    ensures
        user_closed(lines_from(false, user, 0, Seq::empty(), other), system, p, other)
            == user_closed(lines_from(false, user, 0, Seq::empty(), store), system, p, store),
{
    let c = lines_from(false, user, 0, Seq::empty(), store);
    let next = later(store, c.asked);
    match c.result {
        Ok(all) => {
            let base = sorted_set(system);
            let beyond = minus(sorted_set(all), base);
            let rest = system_sized(measuring(base, p.cache.sizes, next), beyond, p, next);
            lemma_agree_split(store, other, c.asked, rest.asked);
            lemma_same_system_sized(base, beyond, p, next, later(other, c.asked));
        },
        Err(_) => {
            lemma_agree_split(store, other, c.asked, Seq::empty());
        },
    }
    lemma_same_lines(false, user, 0, Seq::empty(), store, other);
}

proof fn lemma_same_pinned(
    system: Seq<Seq<char>>,
    user: Seq<Seq<char>>,
    p: Progress,
    store: Store,
    other: Store,
)
    requires
        agree(store, other, pinned_run(system, user, p, store).asked),
    ensures
        pinned_run(system, user, p, other) == pinned_run(system, user, p, store),
{
    let c = lines_from(false, system, 0, Seq::empty(), store);
    let next = later(store, c.asked);
    match c.result {
        Ok(all) => {
            let u = lines_from(false, user, 0, Seq::empty(), next);
            let rest = user_closed(u, all, p, next);
            lemma_agree_split(store, other, c.asked, rest.asked);
            lemma_same_user_closed(user, all, p, next, later(other, c.asked));
        },
        Err(_) => {
            lemma_agree_split(store, other, c.asked, Seq::empty());
        },
    }
    lemma_same_lines(false, system, 0, Seq::empty(), store, other);
}

proof fn lemma_same_reclaimable(plan: PlanView, p: Progress, store: Store, other: Store)
    requires
        agree(store, other, reclaimable_run(plan, p, store).asked),
    ensures
        reclaimable_run(plan, p, other) == reclaimable_run(plan, p, store),
{
    let none = Seq::<Seq<char>>::empty();
    let g = groups_from(plan.jobs, 0, Seq::empty(), none, p.cache, store);
    let next = later(store, g.asked);
    let q = Progress { warnings: g.result.warnings, cache: g.result.cache, ..p };
    match g.result.sizes {
        Some(v) if total(v) <= u64::MAX => {
            let r = Progress { reclaimable: total(v) as u64, ..q };
            let rest = pinned_run(plan.system, plan.user, r, next);
            lemma_agree_split(store, other, g.asked, rest.asked);
            lemma_same_pinned(plan.system, plan.user, r, next, later(other, g.asked));
        },
        _ => {
            lemma_agree_split(store, other, g.asked, Seq::empty());
        },
    }
    law_sizes_depend_on_answers_alone(
        plan.jobs,
        0,
        Seq::empty(),
        none,
        p.cache,
        store,
        other,
    );
}

proof fn lemma_same_dead_sized(
    live: Seq<Seq<char>>,
    plan: PlanView,
    p: Progress,
    store: Store,
    other: Store,
)
    requires
        agree(
            store,
            other,
            dead_sized(measuring(live, p.cache.sizes, store), plan, p, store).asked,
        ),
    ensures
        dead_sized(measuring(live, p.cache.sizes, other), plan, p, other) == dead_sized(
            measuring(live, p.cache.sizes, store),
            plan,
            p,
            store,
        ),
{
    let m = measuring(live, p.cache.sizes, store);
    let next = later(store, m.asked);
    match tally_of(m.result.sizes) {
        Tally::Size(n) => {
            let q = Progress { collectable: Some(n), ..knowing(p, m.result.known) };
            lemma_agree_split(store, other, m.asked, reclaimable_run(plan, q, next).asked);
            lemma_same_reclaimable(plan, q, next, later(other, m.asked));
        },
        _ => {
            lemma_agree_split(store, other, m.asked, Seq::empty());
        },
    }
    lemma_same_measuring(live, p.cache.sizes, store, other);
}

proof fn lemma_same_validity_told(
    dead: Seq<Seq<char>>,
    plan: PlanView,
    p: Progress,
    store: Store,
    other: Store,
)
    requires
        agree(
            store,
            other,
            validity_told(
                lines_from(true, dead, 0, Seq::empty(), store),
                dead,
                plan,
                p,
                store,
            ).asked,
        ),
    ensures
        validity_told(lines_from(true, dead, 0, Seq::empty(), other), dead, plan, p, other)
            == validity_told(
            lines_from(true, dead, 0, Seq::empty(), store),
            dead,
            plan,
            p,
            store,
        ),
{
    let c = lines_from(true, dead, 0, Seq::empty(), store);
    let next = later(store, c.asked);
    match c.result {
        Ok(invalid) => {
            let live = minus(dead, invalid);
            let rest = dead_sized(measuring(live, p.cache.sizes, next), plan, p, next);
            lemma_agree_split(store, other, c.asked, rest.asked);
            lemma_same_dead_sized(live, plan, p, next, later(other, c.asked));
        },
        Err(_) => {
            lemma_agree_split(store, other, c.asked, Seq::empty());
        },
    }
    lemma_same_lines(true, dead, 0, Seq::empty(), store, other);
}

proof fn lemma_same_collectable(plan: PlanView, p: Progress, store: Store, other: Store)
    requires
        agree(store, other, collectable_run(plan, p, store).asked),
    ensures
        collectable_run(plan, p, other) == collectable_run(plan, p, store),
{
    let q = QueryView::Dead;
    match printed(q, answer_of(store, q)) {
        Ok(text) => {
            let dead = dead_of(lines_of(text));
            let next = later(store, seq![q]);
            let c = lines_from(true, dead, 0, Seq::empty(), next);
            lemma_agree_first(store, other, q, validity_told(c, dead, plan, p, next).asked);
            lemma_same_validity_told(dead, plan, p, next, later(other, seq![q]));
        },
        Err(_) => {
            lemma_agree_first(store, other, q, Seq::empty());
        },
    }
}

/// A survey depends on nothing but the answers to the questions that it asks: with another store
/// that gives the same answers to these, it is the same.
pub proof fn law_summary_depends_on_answers_alone(
    plan: PlanView,
    cache: CacheView,
    now: u64,
    want: bool,
    store: Store,
    other: Store,
)
    requires
        agree(store, other, survey_run(plan, cache, now, want, store).asked),
    ensures
        survey_run(plan, cache, now, want, other) == survey_run(plan, cache, now, want, store),
{
    let p = Progress { now, collectable: None, reclaimable: 0, warnings: Seq::empty(), cache };
    if want {
        lemma_same_collectable(plan, p, store, other);
    } else {
        lemma_same_reclaimable(plan, p, store, other);
    }
}

} // verus!
