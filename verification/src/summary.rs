//! Store-wide reclamation figures in a single call, for those that just want the numbers and not
//! the table of the roots.

use vstd::prelude::*;
use vstd::string::*;

use crate::cache::{Cache, CacheView, SizeTable};
use crate::format::{iec_size, size_text};
use crate::nix::{
    after, answer_of, asking, dead_of, dead_paths, invalid_paths, later, lemma_after_asking,
    lemma_after_nothing, lemma_later_asking, lemma_later_nothing, lines_from, printed, query_view,
    requisites, settled, sizes_result, texts_result, Lines, Query, QueryView, Reply, ReplyView, Run,
    Store, StoreError, StoreErrorView,
};
use crate::size::{
    cached_sizes, checked_total, groups_from, job_of, jobs_for, jobs_of, jobs_view, measuring,
    tally_of, total, Job, JobView, Known, Measure, Measured, SizedGroups, Sizing, Tally,
};
use crate::text::{contains, lines_of, occurs, sort_and_dedup, sorted_set, starts_with, texts};
use crate::walk::Group;

verus! {

/// Closure bytes pinned by GC roots, split by who owns them. The system comes first:
/// `system_bytes` is the full closure of the system roots, and `user_bytes` counts only the paths
/// that user roots pin and the system does not. So the two never count the shared base (glibc,
/// etc.) twice, and their sum is the real on-disk total of everything pinned.
pub struct Pinned {
    pub user_bytes: u64,
    pub system_bytes: u64,
}

/// The store-wide reclamation snapshot.
pub struct Summary {
    pub now: u64,
    /// Size of the currently dead store paths: what a plain `nix-collect-garbage` (no `-d`) frees
    /// right now, touching no roots. `None` unless explicitly requested: it requires a scan of the
    /// full store for dead paths that dominates wall-clock and cannot be cached.
    pub collectable_bytes: Option<u64>,
    /// Sum of the closures of the deletable (user-removable) roots: what pruning every safe root
    /// would additionally let GC reclaim. Paths shared across groups are counted per group.
    pub reclaimable_bytes: u64,
    pub pinned: Pinned,
}

// ---------------------------------------------------------------------------------------------
// Scopes
// ---------------------------------------------------------------------------------------------

/// Where a GC root is anchored, for the split between users and the system.
pub enum Scope {
    User,
    System,
}

/// Whether a link lives under a `/per-user/` tree or a home.
pub open spec fn user_link(l: Seq<char>) -> bool {
    occurs(l, "/per-user/"@) || "/home/"@.is_prefix_of(l)
}

/// Whether any of the links lives under a `/per-user/` tree or a home.
pub open spec fn user_links(links: Seq<Seq<char>>) -> bool {
    exists|i: int| 0 <= i < links.len() && #[trigger] user_link(links[i])
}

/// User-scoped iff any indirect link lives under a `/per-user/` tree or a home.
pub fn is_user_scoped(links: &[String]) -> (r: bool)
    ensures
        r == user_links(texts(links@)),
{
    let mut i: usize = 0;
    while i < links.len()
        invariant
            i <= links@.len(),
            forall|j: int| 0 <= j < i ==> !user_link(#[trigger] texts(links@)[j]),
        decreases links.len() - i,
    {
        let l = links[i].as_str();
        assert(texts(links@)[i as int] == l@);
        if contains(l, "/per-user/") || starts_with(l, "/home/") {
            assert(user_link(texts(links@)[i as int]));
            return true;
        }
        i = i + 1;
    }
    false
}

/// The scope of a group, by its indirect link paths: anything under a `/per-user/` tree or a
/// user's home is of the user; everything else (system profile generations, the links of the
/// running system) is of the system.
pub fn scope(g: &Group) -> (r: Scope)
    ensures
        r is User <==> user_links(texts(g.links@)),
{
    if is_user_scoped(g.links.as_slice()) {
        Scope::User
    } else {
        Scope::System
    }
}

/// The members of the groups of one scope, group by group.
pub open spec fn members_in(groups: Seq<Group>, user: bool) -> Seq<Seq<char>>
    decreases groups.len(),
{
    if groups.len() == 0 {
        Seq::empty()
    } else {
        let before = members_in(groups.drop_last(), user);
        let g = groups.last();
        if user_links(texts(g.links@)) == user {
            before + texts(g.members@)
        } else {
            before
        }
    }
}

/// What is wanted of the groups that may be deleted.
pub open spec fn deletable_jobs(groups: Seq<Group>) -> Seq<JobView>
    decreases groups.len(),
{
    if groups.len() == 0 {
        Seq::empty()
    } else {
        let before = deletable_jobs(groups.drop_last());
        if groups.last().may_delete() {
            before.push(job_of(&groups.last()))
        } else {
            before
        }
    }
}

/// What is wanted of the store for a summary: the sizes of the groups that may be deleted, and the
/// closures of the members of each scope.
pub struct Plan {
    pub jobs: Vec<Job>,
    pub system: Vec<String>,
    pub user: Vec<String>,
}

/// What is wanted of the store for a summary, by its texts.
pub struct PlanView {
    pub jobs: Seq<JobView>,
    pub system: Seq<Seq<char>>,
    pub user: Seq<Seq<char>>,
}

impl View for Plan {
    type V = PlanView;

    open spec fn view(&self) -> PlanView {
        PlanView {
            jobs: jobs_view(self.jobs@),
            system: texts(self.system@),
            user: texts(self.user@),
        }
    }
}

/// What is wanted of the store for a summary of groups.
pub open spec fn plan_of(groups: Seq<Group>) -> PlanView {
    PlanView {
        jobs: deletable_jobs(groups),
        system: members_in(groups, false),
        user: members_in(groups, true),
    }
}

/// Copies strings behind others.
fn extend(v: &mut Vec<String>, more: &Vec<String>)
    ensures
        texts(final(v)@) == texts(old(v)@) + texts(more@),
{
    let mut copy = crate::text::copy_strings(more);
    v.append(&mut copy);
    assert(texts(v@) =~= texts(old(v)@) + texts(more@));
}

/// What is wanted of the store for a summary of groups.
fn plan(groups: &[Group]) -> (r: Plan)
    ensures
        r@ == plan_of(groups@),
{
    let mut deletable: Vec<&Group> = Vec::new();
    let mut system: Vec<String> = Vec::new();
    let mut user: Vec<String> = Vec::new();
    let mut i: usize = 0;
    assert(texts(system@) =~= members_in(groups@.take(0), false));
    assert(texts(user@) =~= members_in(groups@.take(0), true));
    assert(jobs_of(deletable@) =~= deletable_jobs(groups@.take(0)));
    while i < groups.len()
        invariant
            i <= groups@.len(),
            jobs_of(deletable@) == deletable_jobs(groups@.take(i as int)),
            texts(system@) == members_in(groups@.take(i as int), false),
            texts(user@) == members_in(groups@.take(i as int), true),
        decreases groups.len() - i,
    {
        assert(groups@.take(i + 1).drop_last() =~= groups@.take(i as int));
        assert(groups@.take(i + 1).last() == groups@[i as int]);
        let g = &groups[i];
        if g.deletable() {
            let ghost before = jobs_of(deletable@);
            deletable.push(g);
            assert(jobs_of(deletable@) =~= before.push(job_of(g)));
        }
        match scope(g) {
            Scope::User => {
                extend(&mut user, &g.members);
            },
            Scope::System => {
                extend(&mut system, &g.members);
            },
        }
        i = i + 1;
    }
    assert(groups@.take(groups@.len() as int) =~= groups@);
    Plan { jobs: jobs_for(deletable.as_slice()), system, user }
}

// ---------------------------------------------------------------------------------------------
// Differences
// ---------------------------------------------------------------------------------------------

/// The texts that are not among others, in their order.
pub open spec fn minus(s: Seq<Seq<char>>, drop: Seq<Seq<char>>) -> Seq<Seq<char>> {
    s.filter(|p: Seq<char>| !drop.contains(p))
}

/// The strings that are not among others, in their order.
fn without(v: Vec<String>, drop: &Vec<String>) -> (r: Vec<String>)
    ensures
        texts(r@) == minus(texts(v@), texts(drop@)),
{
    let ghost gone = texts(drop@);
    let mut table = SizeTable::new();
    let mut i: usize = 0;
    while i < drop.len()
        invariant
            i <= drop@.len(),
            gone == texts(drop@),
            forall|p: Seq<char>|
                #[trigger] table@.contains_key(p) <==> gone.take(i as int).contains(p),
        decreases drop.len() - i,
    {
        let ghost before = table@;
        table.insert(drop[i].clone(), 0);
        proof {
            let k = drop@[i as int]@;
            let now = gone.take(i + 1);
            assert(now =~= gone.take(i as int).push(k));
            assert forall|p: Seq<char>| #[trigger] table@.contains_key(p) <==> now.contains(p) by {
                assert(now[i as int] == k);
                if gone.take(i as int).contains(p) {
                    let j = choose|j: int| 0 <= j < i && gone.take(i as int)[j] == p;
                    assert(now[j] == p);
                }
                if now.contains(p) {
                    let j = choose|j: int| 0 <= j < now.len() && now[j] == p;
                    if j < i {
                        assert(gone.take(i as int)[j] == p);
                    }
                }
                assert(table@.contains_key(p) <==> (before.contains_key(p) || p == k));
            }
        }
        i = i + 1;
    }
    assert(gone.take(gone.len() as int) =~= gone);
    let ghost all = texts(v@);
    let ghost keep = |p: Seq<char>| !gone.contains(p);
    let mut r: Vec<String> = Vec::new();
    let mut j: usize = 0;
    proof {
        reveal(Seq::filter);
        assert(texts(r@) =~= all.take(0).filter(keep));
    }
    while j < v.len()
        invariant
            j <= v@.len(),
            all == texts(v@),
            keep == (|p: Seq<char>| !gone.contains(p)),
            forall|p: Seq<char>| #[trigger] table@.contains_key(p) <==> gone.contains(p),
            texts(r@) == all.take(j as int).filter(keep),
        decreases v.len() - j,
    {
        let ghost before = texts(r@);
        proof {
            reveal(Seq::filter);
            assert(all.take(j + 1).drop_last() =~= all.take(j as int));
            assert(all.take(j + 1).last() == v@[j as int]@);
        }
        if table.get(v[j].as_str()).is_none() {
            r.push(v[j].clone());
            assert(texts(r@) =~= before.push(v@[j as int]@));
        }
        j = j + 1;
    }
    assert(all.take(all.len() as int) =~= all);
    r
}

// ---------------------------------------------------------------------------------------------
// The course of a survey
// ---------------------------------------------------------------------------------------------

/// What came of a survey.
pub enum Outcome {
    /// The figures.
    Told(Summary),
    /// Why there are no figures.
    Failed(StoreErrorView),
    /// One of the sums is above `u64::MAX`.
    Overflow,
}

/// What came of a survey, the warnings on the way, and what is known then.
#[verifier::ext_equal]
pub struct Snapshot {
    pub outcome: Outcome,
    pub warnings: Seq<Seq<char>>,
    pub cache: CacheView,
}

/// How far a survey has come.
#[verifier::ext_equal]
pub struct Progress {
    pub now: u64,
    pub collectable: Option<u64>,
    pub reclaimable: u64,
    pub warnings: Seq<Seq<char>>,
    pub cache: CacheView,
}

/// The survey ends.
pub open spec fn ended(p: Progress, outcome: Outcome) -> Run<Snapshot> {
    settled(Snapshot { outcome, warnings: p.warnings, cache: p.cache })
}

/// The sizes of store paths are known.
pub open spec fn knowing(p: Progress, known: Known) -> Progress {
    Progress { cache: CacheView { sizes: known, groups: p.cache.groups }, ..p }
}

/// The sizes of what only user roots pin are asked for.
pub open spec fn user_sized(m: Run<Measured>, system: u64, p: Progress) -> Run<Snapshot> {
    after(
        m.asked,
        ended(
            knowing(p, m.result.known),
            match tally_of(m.result.sizes) {
                Tally::Failed(e) => Outcome::Failed(e),
                Tally::Overflow => Outcome::Overflow,
                Tally::Size(user) => Outcome::Told(
                    Summary {
                        now: p.now,
                        collectable_bytes: p.collectable,
                        reclaimable_bytes: p.reclaimable,
                        pinned: Pinned { user_bytes: user, system_bytes: system },
                    },
                ),
            },
        ),
    )
}

/// The sizes of what system roots pin are asked for, then those of what only user roots pin.
pub open spec fn system_sized(
    m: Run<Measured>,
    beyond: Seq<Seq<char>>,
    p: Progress,
    store: Store,
) -> Run<Snapshot> {
    let q = knowing(p, m.result.known);
    after(
        m.asked,
        match tally_of(m.result.sizes) {
            Tally::Failed(e) => ended(q, Outcome::Failed(e)),
            Tally::Overflow => ended(q, Outcome::Overflow),
            Tally::Size(system) => user_sized(
                measuring(beyond, q.cache.sizes, later(store, m.asked)),
                system,
                q,
            ),
        },
    )
}

/// The closure of the user roots is asked for; then the closure of the system roots is measured,
/// and what of the first is not in the second.
pub open spec fn user_closed(
    c: Run<Result<Seq<Seq<char>>, StoreErrorView>>,
    system: Seq<Seq<char>>,
    p: Progress,
    store: Store,
) -> Run<Snapshot> {
    after(
        c.asked,
        match c.result {
            Err(e) => ended(p, Outcome::Failed(e)),
            Ok(user) => system_sized(
                measuring(sorted_set(system), p.cache.sizes, later(store, c.asked)),
                minus(sorted_set(user), sorted_set(system)),
                p,
                later(store, c.asked),
            ),
        },
    )
}

/// The closure of the system roots is asked for, then that of the user roots.
pub open spec fn system_closed(
    c: Run<Result<Seq<Seq<char>>, StoreErrorView>>,
    user: Seq<Seq<char>>,
    p: Progress,
    store: Store,
) -> Run<Snapshot> {
    after(
        c.asked,
        match c.result {
            Err(e) => ended(p, Outcome::Failed(e)),
            Ok(system) => user_closed(
                lines_from(false, user, 0, Seq::empty(), later(store, c.asked)),
                system,
                p,
                later(store, c.asked),
            ),
        },
    )
}

/// The closure sizes pinned per scope, each path counted once, the system first.
pub open spec fn pinned_run(
    system: Seq<Seq<char>>,
    user: Seq<Seq<char>>,
    p: Progress,
    store: Store,
) -> Run<Snapshot> {
    system_closed(lines_from(false, system, 0, Seq::empty(), store), user, p, store)
}

/// The groups that may be deleted are sized; then what is pinned is found out.
pub open spec fn groups_sized(
    g: Run<SizedGroups>,
    plan: PlanView,
    p: Progress,
    store: Store,
) -> Run<Snapshot> {
    let q = Progress { warnings: g.result.warnings, cache: g.result.cache, ..p };
    after(
        g.asked,
        match g.result.sizes {
            None => ended(q, Outcome::Overflow),
            Some(v) => if total(v) > u64::MAX {
                ended(q, Outcome::Overflow)
            } else {
                pinned_run(
                    plan.system,
                    plan.user,
                    Progress { reclaimable: total(v) as u64, ..q },
                    later(store, g.asked),
                )
            },
        },
    )
}

/// The sum of the closures of the roots that may be deleted, paths shared across groups counted
/// per group; then what is pinned.
pub open spec fn reclaimable_run(plan: PlanView, p: Progress, store: Store) -> Run<Snapshot> {
    groups_sized(
        groups_from(plan.jobs, 0, Seq::empty(), Seq::empty(), p.cache, store),
        plan,
        p,
        store,
    )
}

/// The sizes of the dead paths are asked for; then the rest is found out.
pub open spec fn dead_sized(
    m: Run<Measured>,
    plan: PlanView,
    p: Progress,
    store: Store,
) -> Run<Snapshot> {
    let q = knowing(p, m.result.known);
    after(
        m.asked,
        match tally_of(m.result.sizes) {
            Tally::Failed(e) => ended(q, Outcome::Failed(e)),
            Tally::Overflow => ended(q, Outcome::Overflow),
            Tally::Size(n) => reclaimable_run(
                plan,
                Progress { collectable: Some(n), ..q },
                later(store, m.asked),
            ),
        },
    )
}

/// Which of the dead paths are invalid is asked for; the others are measured. A path that is
/// already invalid occupies no space, and asking for its size would fail.
pub open spec fn validity_told(
    c: Run<Result<Seq<Seq<char>>, StoreErrorView>>,
    dead: Seq<Seq<char>>,
    plan: PlanView,
    p: Progress,
    store: Store,
) -> Run<Snapshot> {
    after(
        c.asked,
        match c.result {
            Err(e) => ended(p, Outcome::Failed(e)),
            Ok(invalid) => dead_sized(
                measuring(minus(dead, invalid), p.cache.sizes, later(store, c.asked)),
                plan,
                p,
                later(store, c.asked),
            ),
        },
    )
}

/// The total size of the dead paths; then the rest.
pub open spec fn collectable_run(plan: PlanView, p: Progress, store: Store) -> Run<Snapshot> {
    let q = QueryView::Dead;
    asking(
        q,
        match printed(q, answer_of(store, q)) {
            Err(e) => ended(p, Outcome::Failed(e)),
            Ok(text) => {
                let dead = dead_of(lines_of(text));
                let next = later(store, seq![q]);
                validity_told(
                    lines_from(true, dead, 0, Seq::empty(), next),
                    dead,
                    plan,
                    p,
                    next,
                )
            },
        },
    )
}

/// A survey: the dead paths if they are wanted, what may be reclaimed, and what is pinned.
pub open spec fn survey_run(
    plan: PlanView,
    cache: CacheView,
    now: u64,
    want_collectable: bool,
    store: Store,
) -> Run<Snapshot> {
    let p = Progress { now, collectable: None, reclaimable: 0, warnings: Seq::empty(), cache };
    if want_collectable {
        collectable_run(plan, p, store)
    } else {
        reclaimable_run(plan, p, store)
    }
}

// ---------------------------------------------------------------------------------------------
// Surveys
// ---------------------------------------------------------------------------------------------

/// How a survey ended.
pub enum Ending {
    /// With its figures.
    Told(Summary),
    /// Without them, for this reason.
    Failed(StoreError),
    /// Without them, as one of the sums is above `u64::MAX`.
    Overflow,
}

impl View for Ending {
    type V = Outcome;

    open spec fn view(&self) -> Outcome {
        match self {
            Ending::Told(s) => Outcome::Told(*s),
            Ending::Failed(e) => Outcome::Failed(e@),
            Ending::Overflow => Outcome::Overflow,
        }
    }
}

/// What a survey is about.
pub enum Step {
    /// The dead paths are asked for.
    Dead,
    /// Which of these dead paths are invalid is asked for.
    Validity(Vec<String>, Lines),
    /// The dead paths are measured.
    DeadSizes(Measure),
    /// The groups that may be deleted are sized.
    Groups(Sizing),
    /// The closure of the system roots is asked for.
    SystemClosure(Lines),
    /// The closure of the user roots is asked for; that of the system roots came.
    UserClosure(Vec<String>, Lines),
    /// What the system roots pin is measured; what only the user roots pin comes next.
    SystemSizes(Vec<String>, Measure),
    /// What only the user roots pin is measured; the sum for the system roots came.
    UserSizes(u64, Measure),
    /// It is over.
    Over(Ending),
}

/// A survey under way.
pub struct Survey {
    pub plan: Plan,
    pub now: u64,
    pub collectable: Option<u64>,
    pub reclaimable: u64,
    pub warnings: Vec<String>,
    pub cache: Cache,
    pub step: Step,
}

impl Survey {
    pub open spec fn wf(self) -> bool {
        match self.step {
            Step::Dead => self.warnings@.len() == 0,
            Step::Validity(_, l) => self.warnings@.len() == 0 && l.wf() && l.awaits() is Some,
            Step::DeadSizes(m) => self.warnings@.len() == 0 && m.wf(self.cache.sizes@)
                && m.awaits() is Some,
            Step::Groups(g) => g.wf() && g.awaits() is Some,
            Step::SystemClosure(l) => l.wf() && l.awaits() is Some,
            Step::UserClosure(_, l) => l.wf() && l.awaits() is Some,
            Step::SystemSizes(_, m) => m.wf(self.cache.sizes@) && m.awaits() is Some,
            Step::UserSizes(_, m) => m.wf(self.cache.sizes@) && m.awaits() is Some,
            Step::Over(_) => true,
        }
    }

    /// The warnings so far.
    pub open spec fn warned(self) -> Seq<String> {
        match self.step {
            Step::Groups(g) => g.warnings@,
            _ => self.warnings@,
        }
    }

    /// The version of the cache.
    pub open spec fn version(self) -> u32 {
        match self.step {
            Step::Groups(g) => g.cache.version,
            _ => self.cache.version,
        }
    }

    /// How far it has come.
    pub open spec fn progress(self) -> Progress {
        Progress {
            now: self.now,
            collectable: self.collectable,
            reclaimable: self.reclaimable,
            warnings: texts(self.warnings@),
            cache: self.cache@,
        }
    }

    /// The question that is waiting for its answer.
    pub open spec fn awaits(self) -> Option<QueryView> {
        match self.step {
            Step::Dead => Some(QueryView::Dead),
            Step::Validity(_, l) => l.awaits(),
            Step::DeadSizes(m) => m.awaits(),
            Step::Groups(g) => g.awaits(),
            Step::SystemClosure(l) => l.awaits(),
            Step::UserClosure(_, l) => l.awaits(),
            Step::SystemSizes(_, m) => m.awaits(),
            Step::UserSizes(_, m) => m.awaits(),
            Step::Over(_) => None,
        }
    }

    /// What is still to come with the given store.
    pub open spec fn rest(self, store: Store) -> Run<Snapshot> {
        let p = self.progress();
        let known = self.cache.sizes@;
        match self.step {
            Step::Dead => collectable_run(self.plan@, p, store),
            Step::Validity(dead, l) => validity_told(
                l.rest(store),
                texts(dead@),
                self.plan@,
                p,
                store,
            ),
            Step::DeadSizes(m) => dead_sized(m.rest(known, store), self.plan@, p, store),
            Step::Groups(g) => groups_sized(g.rest(store), self.plan@, p, store),
            Step::SystemClosure(l) => system_closed(l.rest(store), self.plan@.user, p, store),
            Step::UserClosure(system, l) => user_closed(l.rest(store), texts(system@), p, store),
            Step::SystemSizes(beyond, m) => system_sized(
                m.rest(known, store),
                texts(beyond@),
                p,
                store,
            ),
            Step::UserSizes(system, m) => user_sized(m.rest(known, store), system, p),
            Step::Over(e) => ended(p, e@),
        }
    }

    /// Ends.
    fn end(&mut self, e: Ending)
        requires
            old(self).step is Over,
        ensures
            final(self).wf(),
            final(self).version() == old(self).version(),
            final(self).warned() == old(self).warnings@,
            forall|store: Store|
                #[trigger] final(self).rest(store) == ended(old(self).progress(), e@),
    {
        self.step = Step::Over(e);
    }

    /// Goes on with the sizes of what only user roots pin.
    fn take_user_sizes(&mut self, system: u64, m: Measure)
        requires
            old(self).step is Over,
            m.wf(old(self).cache.sizes@),
        ensures
            final(self).wf(),
            final(self).version() == old(self).version(),
            final(self).warned() == old(self).warnings@,
            forall|store: Store|
                #[trigger] final(self).rest(store) == user_sized(
                    m.rest(old(self).cache.sizes@, store),
                    system,
                    old(self).progress(),
                ),
    {
        broadcast use {lemma_after_nothing, lemma_later_nothing};

        if m.pending().is_some() {
            self.step = Step::UserSizes(system, m);
            return ;
        }
        let ghost p = self.progress();
        let sizes = m.finish(&mut self.cache);
        let ghost s = sizes_result(sizes);
        assert(self.progress() =~= knowing(p, self.cache.sizes@));
        match sizes {
            Err(e) => {
                self.end(Ending::Failed(e));
            },
            Ok(v) => match checked_total(&v) {
                None => {
                    self.end(Ending::Overflow);
                },
                Some(user) => {
                    let summary = Summary {
                        now: self.now,
                        collectable_bytes: self.collectable,
                        reclaimable_bytes: self.reclaimable,
                        pinned: Pinned { user_bytes: user, system_bytes: system },
                    };
                    self.end(Ending::Told(summary));
                },
            },
        }
    }

    /// Goes on with the sizes of what system roots pin.
    fn take_system_sizes(&mut self, beyond: Vec<String>, m: Measure)
        requires
            old(self).step is Over,
            m.wf(old(self).cache.sizes@),
        ensures
            final(self).wf(),
            final(self).version() == old(self).version(),
            final(self).warned() == old(self).warnings@,
            forall|store: Store|
                #[trigger] final(self).rest(store) == system_sized(
                    m.rest(old(self).cache.sizes@, store),
                    texts(beyond@),
                    old(self).progress(),
                    store,
                ),
    {
        broadcast use {lemma_after_nothing, lemma_later_nothing};

        if m.pending().is_some() {
            self.step = Step::SystemSizes(beyond, m);
            return ;
        }
        let ghost p = self.progress();
        let sizes = m.finish(&mut self.cache);
        let ghost s = sizes_result(sizes);
        assert(self.progress() =~= knowing(p, self.cache.sizes@));
        match sizes {
            Err(e) => {
                self.end(Ending::Failed(e));
            },
            Ok(v) => match checked_total(&v) {
                None => {
                    self.end(Ending::Overflow);
                },
                Some(system) => {
                    let next = cached_sizes(beyond, &self.cache);
                    self.take_user_sizes(system, next);
                },
            },
        }
    }

    /// Goes on with the closure of the user roots.
    fn take_user_closure(&mut self, system: Vec<String>, l: Lines)
        requires
            old(self).step is Over,
            l.wf(),
        ensures
            final(self).wf(),
            final(self).version() == old(self).version(),
            final(self).warned() == old(self).warnings@,
            forall|store: Store|
                #[trigger] final(self).rest(store) == user_closed(
                    l.rest(store),
                    texts(system@),
                    old(self).progress(),
                    store,
                ),
    {
        broadcast use {lemma_after_nothing, lemma_later_nothing};

        if l.pending().is_some() {
            self.step = Step::UserClosure(system, l);
            return ;
        }
        match l.finish() {
            Err(e) => {
                self.end(Ending::Failed(e));
            },
            Ok(user) => {
                let base = sort_and_dedup(system);
                let beyond = without(sort_and_dedup(user), &base);
                let next = cached_sizes(base, &self.cache);
                self.take_system_sizes(beyond, next);
            },
        }
    }

    /// Goes on with the closure of the system roots.
    fn take_system_closure(&mut self, l: Lines)
        requires
            old(self).step is Over,
            l.wf(),
        ensures
            final(self).wf(),
            final(self).version() == old(self).version(),
            final(self).warned() == old(self).warnings@,
            forall|store: Store|
                #[trigger] final(self).rest(store) == system_closed(
                    l.rest(store),
                    old(self).plan@.user,
                    old(self).progress(),
                    store,
                ),
    {
        broadcast use {lemma_after_nothing, lemma_later_nothing};

        if l.pending().is_some() {
            self.step = Step::SystemClosure(l);
            return ;
        }
        match l.finish() {
            Err(e) => {
                self.end(Ending::Failed(e));
            },
            Ok(system) => {
                let next = requisites(crate::text::copy_strings(&self.plan.user));
                self.take_user_closure(system, next);
            },
        }
    }

    /// Goes on with the sizes of the groups that may be deleted.
    fn take_groups(&mut self, g: Sizing)
        requires
            old(self).step is Over,
            g.wf(),
        ensures
            final(self).wf(),
            final(self).version() == g.cache.version,
            final(self).warned() == g.warnings@,
            forall|store: Store|
                #[trigger] final(self).rest(store) == groups_sized(
                    g.rest(store),
                    old(self).plan@,
                    old(self).progress(),
                    store,
                ),
    {
        broadcast use {lemma_after_nothing, lemma_later_nothing};

        if g.pending().is_some() {
            self.step = Step::Groups(g);
            return ;
        }
        let ghost p = self.progress();
        let (sizes, warnings, cache) = g.finish();
        self.warnings = warnings;
        self.cache = cache;
        assert(self.progress() =~= (Progress {
            warnings: texts(warnings@),
            cache: cache@,
            ..p
        }));
        match sizes {
            None => {
                self.end(Ending::Overflow);
            },
            Some(v) => match checked_total(&v) {
                None => {
                    self.end(Ending::Overflow);
                },
                Some(n) => {
                    self.reclaimable = n;
                    let next = requisites(crate::text::copy_strings(&self.plan.system));
                    self.take_system_closure(next);
                },
            },
        }
    }

    /// Goes on with what may be reclaimed.
    fn reclaim(&mut self)
        requires
            old(self).step is Over,
            old(self).warnings@.len() == 0,
        ensures
            final(self).wf(),
            final(self).version() == old(self).version(),
            final(self).warned() == old(self).warnings@,
            forall|store: Store|
                #[trigger] final(self).rest(store) == reclaimable_run(
                    old(self).plan@,
                    old(self).progress(),
                    store,
                ),
    {
        let mut cache = Cache::empty();
        std::mem::swap(&mut cache, &mut self.cache);
        let mut jobs: Vec<Job> = Vec::new();
        std::mem::swap(&mut jobs, &mut self.plan.jobs);
        let sizing = Sizing::start(jobs, cache);
        assert(sizing.warnings@ =~= self.warnings@);
        self.take_groups(sizing);
    }

    /// Goes on with the sizes of the dead paths.
    fn take_dead_sizes(&mut self, m: Measure)
        requires
            old(self).step is Over,
            old(self).warnings@.len() == 0,
            m.wf(old(self).cache.sizes@),
        ensures
            final(self).wf(),
            final(self).version() == old(self).version(),
            final(self).warned() == old(self).warnings@,
            forall|store: Store|
                #[trigger] final(self).rest(store) == dead_sized(
                    m.rest(old(self).cache.sizes@, store),
                    old(self).plan@,
                    old(self).progress(),
                    store,
                ),
    {
        broadcast use {lemma_after_nothing, lemma_later_nothing};

        if m.pending().is_some() {
            self.step = Step::DeadSizes(m);
            return ;
        }
        let ghost p = self.progress();
        let sizes = m.finish(&mut self.cache);
        let ghost s = sizes_result(sizes);
        assert(self.progress() =~= knowing(p, self.cache.sizes@));
        match sizes {
            Err(e) => {
                self.end(Ending::Failed(e));
            },
            Ok(v) => match checked_total(&v) {
                None => {
                    self.end(Ending::Overflow);
                },
                Some(n) => {
                    self.collectable = Some(n);
                    self.reclaim();
                },
            },
        }
    }

    /// Goes on with which of the dead paths are invalid.
    fn take_validity(&mut self, dead: Vec<String>, l: Lines)
        requires
            old(self).step is Over,
            old(self).warnings@.len() == 0,
            l.wf(),
        ensures
            final(self).wf(),
            final(self).version() == old(self).version(),
            final(self).warned() == old(self).warnings@,
            forall|store: Store|
                #[trigger] final(self).rest(store) == validity_told(
                    l.rest(store),
                    texts(dead@),
                    old(self).plan@,
                    old(self).progress(),
                    store,
                ),
    {
        broadcast use {lemma_after_nothing, lemma_later_nothing};

        if l.pending().is_some() {
            self.step = Step::Validity(dead, l);
            return ;
        }
        match l.finish() {
            Err(e) => {
                self.end(Ending::Failed(e));
            },
            Ok(invalid) => {
                let live = without(dead, &invalid);
                let next = cached_sizes(live, &self.cache);
                self.take_dead_sizes(next);
            },
        }
    }

    /// Goes on with the dead paths, or without them.
    fn take_dead(&mut self, dead: Result<Vec<String>, StoreError>)
        requires
            old(self).step is Over,
            old(self).warnings@.len() == 0,
        ensures
            final(self).wf(),
            final(self).version() == old(self).version(),
            final(self).warned() == old(self).warnings@,
            forall|store: Store|
                #[trigger] final(self).rest(store) == (match texts_result(dead) {
                    Err(e) => ended(old(self).progress(), Outcome::Failed(e)),
                    Ok(paths) => validity_told(
                        lines_from(true, paths, 0, Seq::empty(), store),
                        paths,
                        old(self).plan@,
                        old(self).progress(),
                        store,
                    ),
                }),
    {
        match dead {
            Err(e) => {
                self.end(Ending::Failed(e));
            },
            Ok(paths) => {
                let next = invalid_paths(crate::text::copy_strings(&paths));
                self.take_validity(paths, next);
            },
        }
    }

    /// The question that is waiting for its answer.
    pub fn pending(&self) -> (r: Option<Query>)
        requires
            self.wf(),
        ensures
            query_view(r) == self.awaits(),
    {
        match &self.step {
            Step::Dead => Some(Query::Dead),
            Step::Validity(_, l) => l.pending(),
            Step::DeadSizes(m) => m.pending(),
            Step::Groups(g) => g.pending(),
            Step::SystemClosure(l) => l.pending(),
            Step::UserClosure(_, l) => l.pending(),
            Step::SystemSizes(_, m) => m.pending(),
            Step::UserSizes(_, m) => m.pending(),
            Step::Over(_) => None,
        }
    }

    /// The warnings so far; what is said once is not taken back.
    pub fn warnings_so_far(&self) -> (r: &Vec<String>)
        ensures
            r@ == self.warned(),
    {
        match &self.step {
            Step::Groups(g) => &g.warnings,
            _ => &self.warnings,
        }
    }

    /// The survey at another step.
    spec fn at(self, step: Step) -> Survey {
        Survey { step, ..self }
    }

    /// Whether this is what becomes of a survey when the question that is waiting is answered.
    spec fn follows(self, before: Survey, reply: ReplyView) -> bool {
        &&& self.wf()
        &&& self.version() == before.version()
        &&& before.warned().is_prefix_of(self.warned())
        &&& forall|store: Store|
            answer_of(store, before.awaits()->0) == reply ==> #[trigger] before.rest(store)
                == asking(
                before.awaits()->0,
                self.rest(later(store, seq![before.awaits()->0])),
            )
    }

    /// Takes in an answer on the dead paths.
    fn feed_dead(&mut self, reply: Reply)
        requires
            old(self).step is Over,
            old(self).at(Step::Dead).wf(),
        ensures
            final(self).follows(old(self).at(Step::Dead), reply@),
    {
        let dead = dead_paths(reply);
        self.take_dead(dead);
    }

    /// Takes in an answer on which of the dead paths are invalid.
    fn feed_validity(&mut self, dead: Vec<String>, l: Lines, reply: Reply)
        requires
            old(self).step is Over,
            old(self).at(Step::Validity(dead, l)).wf(),
        ensures
            final(self).follows(old(self).at(Step::Validity(dead, l)), reply@),
    {
        broadcast use {lemma_after_asking, lemma_later_asking};

        let ghost before = self.at(Step::Validity(dead, l));
        let ghost q = l.awaits()->0;
        let mut next = l;
        next.feed(reply);
        self.take_validity(dead, next);
        assert forall|store: Store| answer_of(store, q) == reply@ implies #[trigger] before.rest(
            store,
        ) == asking(q, self.rest(later(store, seq![q]))) by {
            assert(l.rest(store) == asking(q, next.rest(later(store, seq![q]))));
        }
    }

    /// Takes in an answer on the sizes of the dead paths.
    fn feed_dead_sizes(&mut self, m: Measure, reply: Reply)
        requires
            old(self).step is Over,
            old(self).at(Step::DeadSizes(m)).wf(),
        ensures
            final(self).follows(old(self).at(Step::DeadSizes(m)), reply@),
    {
        broadcast use {lemma_after_asking, lemma_later_asking};

        let ghost before = self.at(Step::DeadSizes(m));
        let ghost q = m.awaits()->0;
        let ghost known = self.cache.sizes@;
        let mut next = m;
        next.feed(reply);
        self.take_dead_sizes(next);
        assert forall|store: Store| answer_of(store, q) == reply@ implies #[trigger] before.rest(
            store,
        ) == asking(q, self.rest(later(store, seq![q]))) by {
            assert(m.rest(known, store) == asking(q, next.rest(known, later(store, seq![q]))));
        }
    }

    /// Takes in an answer on the groups that may be deleted.
    fn feed_groups(&mut self, g: Sizing, reply: Reply)
        requires
            old(self).step is Over,
            old(self).at(Step::Groups(g)).wf(),
        ensures
            final(self).follows(old(self).at(Step::Groups(g)), reply@),
    {
        broadcast use {lemma_after_asking, lemma_later_asking};

        let ghost before = self.at(Step::Groups(g));
        let ghost q = g.awaits()->0;
        let mut next = g;
        next.feed(reply);
        self.take_groups(next);
        assert forall|store: Store| answer_of(store, q) == reply@ implies #[trigger] before.rest(
            store,
        ) == asking(q, self.rest(later(store, seq![q]))) by {
            assert(g.rest(store) == asking(q, next.rest(later(store, seq![q]))));
        }
    }

    /// Takes in an answer on the closure of the system roots.
    fn feed_system_closure(&mut self, l: Lines, reply: Reply)
        requires
            old(self).step is Over,
            old(self).at(Step::SystemClosure(l)).wf(),
        ensures
            final(self).follows(old(self).at(Step::SystemClosure(l)), reply@),
    {
        broadcast use {lemma_after_asking, lemma_later_asking};

        let ghost before = self.at(Step::SystemClosure(l));
        let ghost q = l.awaits()->0;
        let mut next = l;
        next.feed(reply);
        self.take_system_closure(next);
        assert forall|store: Store| answer_of(store, q) == reply@ implies #[trigger] before.rest(
            store,
        ) == asking(q, self.rest(later(store, seq![q]))) by {
            assert(l.rest(store) == asking(q, next.rest(later(store, seq![q]))));
        }
    }

    /// Takes in an answer on the closure of the user roots.
    fn feed_user_closure(&mut self, system: Vec<String>, l: Lines, reply: Reply)
        requires
            old(self).step is Over,
            old(self).at(Step::UserClosure(system, l)).wf(),
        ensures
            final(self).follows(old(self).at(Step::UserClosure(system, l)), reply@),
    {
        broadcast use {lemma_after_asking, lemma_later_asking};

        let ghost before = self.at(Step::UserClosure(system, l));
        let ghost q = l.awaits()->0;
        let mut next = l;
        next.feed(reply);
        self.take_user_closure(system, next);
        assert forall|store: Store| answer_of(store, q) == reply@ implies #[trigger] before.rest(
            store,
        ) == asking(q, self.rest(later(store, seq![q]))) by {
            assert(l.rest(store) == asking(q, next.rest(later(store, seq![q]))));
        }
    }

    /// Takes in an answer on the sizes of what system roots pin.
    fn feed_system_sizes(&mut self, beyond: Vec<String>, m: Measure, reply: Reply)
        requires
            old(self).step is Over,
            old(self).at(Step::SystemSizes(beyond, m)).wf(),
        ensures
            final(self).follows(old(self).at(Step::SystemSizes(beyond, m)), reply@),
    {
        broadcast use {lemma_after_asking, lemma_later_asking};

        let ghost before = self.at(Step::SystemSizes(beyond, m));
        let ghost q = m.awaits()->0;
        let ghost known = self.cache.sizes@;
        let mut next = m;
        next.feed(reply);
        self.take_system_sizes(beyond, next);
        assert forall|store: Store| answer_of(store, q) == reply@ implies #[trigger] before.rest(
            store,
        ) == asking(q, self.rest(later(store, seq![q]))) by {
            assert(m.rest(known, store) == asking(q, next.rest(known, later(store, seq![q]))));
        }
    }

    /// Takes in an answer on the sizes of what only user roots pin.
    fn feed_user_sizes(&mut self, system: u64, m: Measure, reply: Reply)
        requires
            old(self).step is Over,
            old(self).at(Step::UserSizes(system, m)).wf(),
        ensures
            final(self).follows(old(self).at(Step::UserSizes(system, m)), reply@),
    {
        broadcast use {lemma_after_asking, lemma_later_asking};

        let ghost before = self.at(Step::UserSizes(system, m));
        let ghost q = m.awaits()->0;
        let ghost known = self.cache.sizes@;
        let mut next = m;
        next.feed(reply);
        self.take_user_sizes(system, next);
        assert forall|store: Store| answer_of(store, q) == reply@ implies #[trigger] before.rest(
            store,
        ) == asking(q, self.rest(later(store, seq![q]))) by {
            assert(m.rest(known, store) == asking(q, next.rest(known, later(store, seq![q]))));
        }
    }

    /// Takes in the answer to the question that is waiting for it.
    pub fn feed(&mut self, reply: Reply)
        requires
            old(self).wf(),
            old(self).awaits() is Some,
        ensures
            final(self).wf(),
            final(self).version() == old(self).version(),
            old(self).warned().is_prefix_of(final(self).warned()),
            forall|store: Store|
                answer_of(store, old(self).awaits()->0) == reply@ ==> #[trigger] old(self).rest(
                    store,
                ) == asking(
                    old(self).awaits()->0,
                    final(self).rest(later(store, seq![old(self).awaits()->0])),
                ),
    {
        let ghost before = *self;
        let mut step = Step::Over(Ending::Overflow);
        std::mem::swap(&mut step, &mut self.step);
        assert(before == self.at(step));
        match step {
            Step::Over(_) => {},
            Step::Dead => {
                self.feed_dead(reply);
            },
            Step::Validity(dead, l) => {
                self.feed_validity(dead, l, reply);
            },
            Step::DeadSizes(m) => {
                self.feed_dead_sizes(m, reply);
            },
            Step::Groups(g) => {
                self.feed_groups(g, reply);
            },
            Step::SystemClosure(l) => {
                self.feed_system_closure(l, reply);
            },
            Step::UserClosure(system, l) => {
                self.feed_user_closure(system, l, reply);
            },
            Step::SystemSizes(beyond, m) => {
                self.feed_system_sizes(beyond, m, reply);
            },
            Step::UserSizes(system, m) => {
                self.feed_user_sizes(system, m, reply);
            },
        }
    }

    /// What came of it, once nothing is waiting any more: how it ended, the warnings on the way,
    /// and the cache.
    pub fn finish(self) -> (r: (Ending, Vec<String>, Cache))
        requires
            self.wf(),
            self.awaits() is None,
        ensures
            r.1@ == self.warned(),
            r.2.version == self.version(),
            forall|store: Store|
                #[trigger] self.rest(store) == settled(
                    Snapshot { outcome: r.0@, warnings: texts(r.1@), cache: r.2@ },
                ),
    {
        let ending = match self.step {
            Step::Over(e) => e,
            _ => Ending::Overflow,
        };
        (ending, self.warnings, self.cache)
    }
}

/// Surveys the store for the summary of scanned groups. The size cache is used for all figures,
/// and takes in what is learned on the way. The caller puts the questions that are pending to the
/// store and feeds the replies.
pub fn compute(groups: &[Group], cache: Cache, now: u64, want_collectable: bool) -> (r: Survey)
    ensures
        r.wf(),
        r.version() == cache.version,
        r.warned().len() == 0,
        forall|store: Store|
            #[trigger] r.rest(store) == survey_run(
                plan_of(groups@),
                cache@,
                now,
                want_collectable,
                store,
            ),
{
    let mut r = Survey {
        plan: plan(groups),
        now,
        collectable: None,
        reclaimable: 0,
        warnings: Vec::new(),
        cache,
        step: Step::Over(Ending::Overflow),
    };
    assert(texts(r.warnings@) =~= Seq::<Seq<char>>::empty());
    if want_collectable {
        r.step = Step::Dead;
    } else {
        r.reclaim();
    }
    r
}

// ---------------------------------------------------------------------------------------------
// Table
// ---------------------------------------------------------------------------------------------

/// What is said of the dead paths.
pub open spec fn collectable_text(n: Option<u64>) -> Seq<char> {
    match n {
        Some(b) => size_text(b),
        None => "(skipped; pass --collectable)"@,
    }
}

/// The summary as lines for humans.
pub open spec fn summary_text(s: Summary) -> Seq<char> {
    "Collectable now (dead paths):   "@ + collectable_text(s.collectable_bytes)
        + "\nReclaimable (prune safe roots): "@ + size_text(s.reclaimable_bytes)
        + "\nPinned — system:                "@ + size_text(s.pinned.system_bytes)
        + "\nPinned — user (beyond system):  "@ + size_text(s.pinned.user_bytes) + "\n"@
}

/// Renders the summary as lines for humans.
pub fn render_table(s: &Summary) -> (r: String)
    ensures
        r@ == summary_text(*s),
{
    let collectable = match s.collectable_bytes {
        Some(b) => iec_size(b),
        None => String::from_str("(skipped; pass --collectable)"),
    };
    String::from_str("Collectable now (dead paths):   ").concat(collectable.as_str()).concat(
        "\nReclaimable (prune safe roots): ",
    ).concat(iec_size(s.reclaimable_bytes).as_str()).concat(
        "\nPinned — system:                ",
    ).concat(iec_size(s.pinned.system_bytes).as_str()).concat(
        "\nPinned — user (beyond system):  ",
    ).concat(iec_size(s.pinned.user_bytes).as_str()).concat("\n")
}

// ---------------------------------------------------------------------------------------------
// Laws
// ---------------------------------------------------------------------------------------------

/// What a summary reads as: each figure on a line of its own, behind what it is, and the dead paths
/// as skipped where they were not asked for.
pub proof fn law_summary_lines(s: Summary)
    ensures
        ({
            let dead = match s.collectable_bytes {
                Some(b) => size_text(b),
                None => "(skipped; pass --collectable)"@,
            };
            summary_text(s) == "Collectable now (dead paths):   "@ + dead
                + "\nReclaimable (prune safe roots): "@ + size_text(s.reclaimable_bytes)
                + "\nPinned — system:                "@ + size_text(s.pinned.system_bytes)
                + "\nPinned — user (beyond system):  "@ + size_text(s.pinned.user_bytes) + "\n"@
        }),
{
}

} // verus!
