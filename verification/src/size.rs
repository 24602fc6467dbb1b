//! The union closure size of each group, with the help of the cache, which is filled on the way.

use vstd::prelude::*;
use vstd::string::*;

use crate::cache::{Cache, CacheView};
use crate::nix::{
    after, answer_of, asking, later, lemma_after_asking, lemma_after_nothing, lemma_later_asking,
    lemma_later_nothing, lines_from, query_view, settled, sizes_from, sizes_result, Lines, Query,
    QueryView, Reply, ReplyView, Run, SizeQuery, Store, StoreError, StoreErrorView,
};
use crate::text::{copy_strings, join, sort_and_dedup, sorted_set, texts};
use crate::walk::{set_key, Group};

verus! {

// ---------------------------------------------------------------------------------------------
// Sums
// ---------------------------------------------------------------------------------------------

/// The sum of sizes.
pub open spec fn total(s: Seq<u64>) -> nat
    decreases s.len(),
{
    if s.len() == 0 {
        0
    } else {
        total(s.drop_last()) + s.last() as nat
    }
}

/// A sum is at least the sum of each of its beginnings.
pub proof fn lemma_total_grows(s: Seq<u64>, i: int)
    requires
        0 <= i <= s.len(),
    ensures
        total(s.take(i)) <= total(s),
    decreases s.len(),
{
    if i == s.len() {
        assert(s.take(i) =~= s);
    } else {
        lemma_total_grows(s.drop_last(), i);
        assert(s.drop_last().take(i) =~= s.take(i));
    }
}

/// Adds up sizes; nothing where the sum exceeds `u64::MAX`.
pub fn checked_total(v: &Vec<u64>) -> (r: Option<u64>)
    ensures
        match r {
            Some(n) => n == total(v@),
            None => total(v@) > u64::MAX,
        },
{
    let mut n: u64 = 0;
    let mut i: usize = 0;
    while i < v.len()
        invariant
            i <= v@.len(),
            n == total(v@.take(i as int)),
        decreases v.len() - i,
    {
        assert(v@.take(i + 1).drop_last() =~= v@.take(i as int));
        proof {
            lemma_total_grows(v@, i + 1);
        }
        match n.checked_add(v[i]) {
            None => {
                return None;
            },
            Some(m) => {
                n = m;
            },
        }
        i = i + 1;
    }
    assert(v@.take(v@.len() as int) =~= v@);
    Some(n)
}

// ---------------------------------------------------------------------------------------------
// Sizes of paths
// ---------------------------------------------------------------------------------------------

/// The sizes of store paths, as far as they are known.
pub type Known = Map<Seq<char>, u64>;

/// The paths whose sizes are not known.
pub open spec fn missing_of(paths: Seq<Seq<char>>, known: Known) -> Seq<Seq<char>> {
    paths.filter(|p: Seq<char>| !known.contains_key(p))
}

/// What is known once the sizes of some paths came in.
pub open spec fn filled(known: Known, paths: Seq<Seq<char>>, sizes: Seq<u64>) -> Known
    decreases paths.len(),
{
    if paths.len() == 0 {
        known
    } else {
        filled(known, paths.drop_last(), sizes.drop_last()).insert(paths.last(), sizes.last())
    }
}

/// The size of a path, zero where it is not known.
pub open spec fn size_in(known: Known, p: Seq<char>) -> u64 {
    if known.contains_key(p) {
        known[p]
    } else {
        0
    }
}

/// The sizes of paths, zero for those that are not known.
pub open spec fn sizes_in(paths: Seq<Seq<char>>, known: Known) -> Seq<u64> {
    paths.map_values(|p: Seq<char>| size_in(known, p))
}

/// What came of measuring paths: their sizes, or why there are none, and what is known then.
#[verifier::ext_equal]
pub struct Measured {
    pub sizes: Result<Seq<u64>, StoreErrorView>,
    pub known: Known,
}

/// What comes of measuring `paths` when the sizes of the missing ones are `r`.
pub open spec fn measured(
    paths: Seq<Seq<char>>,
    known: Known,
    r: Result<Seq<u64>, StoreErrorView>,
) -> Measured {
    match r {
        Ok(v) => {
            let more = filled(known, missing_of(paths, known), v);
            Measured { sizes: Ok(sizes_in(paths, more)), known: more }
        },
        Err(e) => Measured { sizes: Err(e), known },
    }
}

/// Measuring paths: the store is asked for the sizes that are not known.
pub open spec fn measuring(paths: Seq<Seq<char>>, known: Known, store: Store) -> Run<Measured> {
    let r = sizes_from(missing_of(paths, known), 0, Seq::empty(), store);
    Run { asked: r.asked, result: measured(paths, known, r.result) }
}

/// Paths that are being measured.
pub struct Measure {
    pub paths: Vec<String>,
    pub query: SizeQuery,
}

impl Measure {
    pub open spec fn wf(self, known: Known) -> bool {
        &&& self.query.wf()
        &&& texts(self.query.paths@) == missing_of(texts(self.paths@), known)
    }

    /// What is still to come of it with the given store.
    pub open spec fn rest(self, known: Known, store: Store) -> Run<Measured> {
        let r = self.query.rest(store);
        Run { asked: r.asked, result: measured(texts(self.paths@), known, r.result) }
    }

    /// The question that is waiting for its answer.
    pub open spec fn awaits(self) -> Option<QueryView> {
        self.query.awaits()
    }

    /// The question that is waiting for its answer.
    pub fn pending(&self) -> (r: Option<Query>)
        requires
            self.query.wf(),
        ensures
            query_view(r) == self.awaits(),
    {
        self.query.pending()
    }

    /// Takes in the answer to the question that is waiting for it.
    pub fn feed(&mut self, reply: Reply)
        requires
            old(self).query.wf(),
            old(self).awaits() is Some,
        ensures
            final(self).paths == old(self).paths,
            final(self).query.wf(),
            final(self).query.paths == old(self).query.paths,
            forall|known: Known, store: Store|
                answer_of(store, old(self).awaits()->0) == reply@ ==> #[trigger] old(self).rest(
                    known,
                    store,
                ) == asking(
                    old(self).awaits()->0,
                    final(self).rest(known, later(store, seq![old(self).awaits()->0])),
                ),
    {
        let ghost q = self.query.awaits()->0;
        let ghost before = *self;
        self.query.feed(reply);
        proof {
            assert forall|known: Known, store: Store|
                answer_of(store, q) == reply@ implies #[trigger] before.rest(known, store)
                == asking(q, self.rest(known, later(store, seq![q]))) by {
                assert(before.query.rest(store) == asking(
                    q,
                    self.query.rest(later(store, seq![q])),
                ));
            }
        }
    }

    /// What came of it, once nothing is waiting any more; new sizes go into the cache.
    pub fn finish(self, cache: &mut Cache) -> (r: Result<Vec<u64>, StoreError>)
        requires
            self.wf(old(cache).sizes@),
            self.awaits() is None,
        ensures
            final(cache).version == old(cache).version,
            final(cache).groups == old(cache).groups,
            forall|store: Store|
                #[trigger] self.rest(old(cache).sizes@, store) == settled(
                    Measured { sizes: sizes_result(r), known: final(cache).sizes@ },
                ),
    {
        let Measure { paths, query } = self;
        let ghost known = cache.sizes@;
        let ghost missing = texts(query.paths@);
        let names = copy_strings(&query.paths);
        match query.finish() {
            Err(e) => Err(e),
            Ok(v) => {
                let mut i: usize = 0;
                while i < names.len()
                    invariant
                        i <= names@.len(),
                        names@.len() == v@.len(),
                        texts(names@) == missing,
                        cache.version == old(cache).version,
                        cache.groups == old(cache).groups,
                        cache.sizes@ == filled(
                            known,
                            missing.take(i as int),
                            v@.take(i as int),
                        ),
                    decreases names.len() - i,
                {
                    assert(missing.take(i + 1).drop_last() =~= missing.take(i as int));
                    assert(v@.take(i + 1).drop_last() =~= v@.take(i as int));
                    assert(missing.take(i + 1).last() == names@[i as int]@);
                    cache.sizes.insert(names[i].clone(), v[i]);
                    i = i + 1;
                }
                assert(missing.take(missing.len() as int) =~= missing);
                assert(v@.take(v@.len() as int) =~= v@);
                let mut r: Vec<u64> = Vec::new();
                let mut j: usize = 0;
                while j < paths.len()
                    invariant
                        j <= paths@.len(),
                        r@ == sizes_in(texts(paths@), cache.sizes@).take(j as int),
                    decreases paths.len() - j,
                {
                    let size: u64 = match cache.sizes.get(paths[j].as_str()) {
                        Some(n) => n,
                        None => 0,
                    };
                    r.push(size);
                    assert(r@ =~= sizes_in(texts(paths@), cache.sizes@).take(j + 1));
                    j = j + 1;
                }
                assert(r@ =~= sizes_in(texts(paths@), cache.sizes@));
                Ok(r)
            },
        }
    }
}

/// The NAR size of each path, aligned to the input order, from the cache where it knows them and
/// still to be asked for where it does not.
pub fn cached_sizes(paths: Vec<String>, cache: &Cache) -> (r: Measure)
    ensures
        r.wf(cache.sizes@),
        r.paths == paths,
        forall|store: Store|
            #[trigger] r.rest(cache.sizes@, store) == measuring(
                texts(paths@),
                cache.sizes@,
                store,
            ),
{
    let ghost known = cache.sizes@;
    let ghost all = texts(paths@);
    let ghost p = |p: Seq<char>| !known.contains_key(p);
    let mut missing: Vec<String> = Vec::new();
    let mut i: usize = 0;
    proof {
        reveal(Seq::filter);
        assert(texts(missing@) =~= all.take(0).filter(p));
    }
    while i < paths.len()
        invariant
            i <= paths@.len(),
            all == texts(paths@),
            known == cache.sizes@,
            p == (|p: Seq<char>| !known.contains_key(p)),
            texts(missing@) == all.take(i as int).filter(p),
        decreases paths.len() - i,
    {
        let ghost before = texts(missing@);
        proof {
            reveal(Seq::filter);
            assert(all.take(i + 1).drop_last() =~= all.take(i as int));
            assert(all.take(i + 1).last() == paths@[i as int]@);
        }
        if cache.sizes.get(paths[i].as_str()).is_none() {
            missing.push(paths[i].clone());
            assert(texts(missing@) =~= before.push(paths@[i as int]@));
        }
        i = i + 1;
    }
    assert(all.take(all.len() as int) =~= all);
    Measure { paths, query: crate::nix::sizes(missing) }
}

// ---------------------------------------------------------------------------------------------
// Sizes of groups
// ---------------------------------------------------------------------------------------------

/// What is wanted of a group: its location, for a warning, and its members.
pub struct Job {
    pub loc: String,
    pub members: Vec<String>,
}

/// What is wanted of a group, by its texts.
pub struct JobView {
    pub loc: Seq<char>,
    pub members: Seq<Seq<char>>,
}

impl View for Job {
    type V = JobView;

    open spec fn view(&self) -> JobView {
        JobView { loc: self.loc@, members: texts(self.members@) }
    }
}

/// What is wanted of groups.
pub open spec fn jobs_view(v: Seq<Job>) -> Seq<JobView> {
    v.map_values(|j: Job| j@)
}

/// What is wanted of a group.
pub open spec fn job_of(g: &Group) -> JobView {
    JobView { loc: g.loc@, members: texts(g.members@) }
}

/// What is wanted of groups.
pub open spec fn jobs_of(v: Seq<&Group>) -> Seq<JobView> {
    v.map_values(|g: &Group| job_of(g))
}

/// What came of one group.
pub enum Tally {
    /// Its size.
    Size(u64),
    /// Why there is no size.
    Failed(StoreErrorView),
    /// Its size is above `u64::MAX`.
    Overflow,
}

/// The sum of sizes, if there are any.
pub open spec fn tally_of(r: Result<Seq<u64>, StoreErrorView>) -> Tally {
    match r {
        Err(e) => Tally::Failed(e),
        Ok(v) => if total(v) > u64::MAX {
            Tally::Overflow
        } else {
            Tally::Size(total(v) as u64)
        },
    }
}

/// What came of a group whose closure was measured; its size goes into the cache.
pub open spec fn closed(m: Measured, key: Seq<char>, cache: CacheView) -> (Tally, CacheView) {
    let tally = tally_of(m.sizes);
    match tally {
        Tally::Size(n) => (
            tally,
            CacheView { sizes: m.known, groups: cache.groups.insert(key, n) },
        ),
        _ => (tally, CacheView { sizes: m.known, groups: cache.groups }),
    }
}

/// The closure of a group is measured.
pub open spec fn closure_sized(
    m: Run<Measured>,
    key: Seq<char>,
    cache: CacheView,
) -> Run<(Tally, CacheView)> {
    Run { asked: m.asked, result: closed(m.result, key, cache) }
}

/// The closure of a group is asked for; then it is measured.
pub open spec fn closure_found(
    c: Run<Result<Seq<Seq<char>>, StoreErrorView>>,
    key: Seq<char>,
    cache: CacheView,
    store: Store,
) -> Run<(Tally, CacheView)> {
    match c.result {
        Err(e) => Run { asked: c.asked, result: (Tally::Failed(e), cache) },
        Ok(all) => after(
            c.asked,
            closure_sized(
                measuring(sorted_set(all), cache.sizes, later(store, c.asked)),
                key,
                cache,
            ),
        ),
    }
}

/// The size of a group that the cache does not know: the sum of the sizes of all paths in the
/// union closure of its members, each counted once.
pub open spec fn cold(members: Seq<Seq<char>>, cache: CacheView, store: Store) -> Run<
    (Tally, CacheView),
> {
    closure_found(
        lines_from(false, members, 0, Seq::empty(), store),
        set_key(members),
        cache,
        store,
    )
}

/// The size of a group that the cache knows: it is trusted only if every member still exists.
pub open spec fn warm(
    size: u64,
    members: Seq<Seq<char>>,
    cache: CacheView,
    store: Store,
) -> Run<(Tally, CacheView)> {
    let q = QueryView::Present(members);
    if answer_of(store, q) == ReplyView::Present(true) {
        asking(q, settled((Tally::Size(size), cache)))
    } else {
        asking(q, cold(members, cache, later(store, seq![q])))
    }
}

/// The size of one group; that of a group without members is zero.
pub open spec fn group_run(members: Seq<Seq<char>>, cache: CacheView, store: Store) -> Run<
    (Tally, CacheView),
> {
    if members.len() == 0 {
        settled((Tally::Size(0), cache))
    } else if cache.groups.contains_key(set_key(members)) {
        warm(cache.groups[set_key(members)], members, cache, store)
    } else {
        cold(members, cache, store)
    }
}

/// What came of sizing groups: a size for each, unless one is too large to be told; a warning for
/// each whose size could not be found out, which then counts as zero; and what is known then.
#[verifier::ext_equal]
pub struct SizedGroups {
    pub sizes: Option<Seq<u64>>,
    pub warnings: Seq<Seq<char>>,
    pub cache: CacheView,
}

/// The warning for a group whose size could not be found out.
pub open spec fn warning(loc: Seq<char>, e: Seq<char>) -> Seq<char> {
    "warning: closure size for "@ + loc + ": "@ + e
}

/// The sizes of the groups from `i` on, behind the sizes `out` and the warnings `warnings`.
pub open spec fn groups_from(
    jobs: Seq<JobView>,
    i: int,
    out: Seq<u64>,
    warnings: Seq<Seq<char>>,
    cache: CacheView,
    store: Store,
) -> Run<SizedGroups>
    decreases jobs.len() - i, 1int,
{
    if i >= jobs.len() {
        settled(SizedGroups { sizes: Some(out), warnings, cache })
    } else {
        let g = group_run(jobs[i].members, cache, store);
        after(
            g.asked,
            groups_after(g.result, jobs, i, out, warnings, later(store, g.asked)),
        )
    }
}

/// The sizes of the groups behind `i`, when `r` came of that one.
pub open spec fn groups_after(
    r: (Tally, CacheView),
    jobs: Seq<JobView>,
    i: int,
    out: Seq<u64>,
    warnings: Seq<Seq<char>>,
    store: Store,
) -> Run<SizedGroups>
    decreases jobs.len() - i, 0int,
{
    if i >= jobs.len() {
        settled(SizedGroups { sizes: Some(out), warnings, cache: r.1 })
    } else {
        match r.0 {
            Tally::Overflow => settled(SizedGroups { sizes: None, warnings, cache: r.1 }),
            Tally::Size(n) => groups_from(jobs, i + 1, out.push(n), warnings, r.1, store),
            Tally::Failed(e) => groups_from(
                jobs,
                i + 1,
                out.push(0),
                warnings.push(warning(jobs[i].loc, e.message)),
                r.1,
                store,
            ),
        }
    }
}

/// What is going on with the group whose turn it is.
pub enum Stage {
    /// Nothing: all groups are done, or one was too large.
    Idle,
    /// Its cached size is trusted if its members exist.
    Probing(u64),
    /// Its closure is asked for.
    Closing(Lines),
    /// Its closure is measured.
    Measuring(Measure),
}

/// Groups whose sizes are being found out, one after the other.
pub struct Sizing {
    pub jobs: Vec<Job>,
    pub cache: Cache,
    pub out: Vec<u64>,
    pub warnings: Vec<String>,
    pub overflow: bool,
    pub stage: Stage,
}

impl Sizing {
    pub open spec fn wf(self) -> bool {
        &&& self.out@.len() <= self.jobs@.len()
        &&& match self.stage {
            Stage::Idle => self.overflow || self.out@.len() == self.jobs@.len(),
            Stage::Probing(_) => !self.overflow && self.out@.len() < self.jobs@.len(),
            Stage::Closing(l) => !self.overflow && self.out@.len() < self.jobs@.len() && l.wf()
                && l.awaits() is Some,
            Stage::Measuring(m) => !self.overflow && self.out@.len() < self.jobs@.len() && m.wf(
                self.cache.sizes@,
            ) && m.awaits() is Some,
        }
    }

    /// The members of the group whose turn it is.
    pub open spec fn members(self) -> Seq<Seq<char>> {
        jobs_view(self.jobs@)[self.out@.len() as int].members
    }

    /// The question that is waiting for its answer.
    pub open spec fn awaits(self) -> Option<QueryView> {
        match self.stage {
            Stage::Idle => None,
            Stage::Probing(_) => Some(QueryView::Present(self.members())),
            Stage::Closing(l) => l.awaits(),
            Stage::Measuring(m) => m.awaits(),
        }
    }

    /// What is still to come of the groups behind the one whose turn it is, when `r` came of that
    /// one.
    pub open spec fn next(self, r: (Tally, CacheView), store: Store) -> Run<SizedGroups> {
        groups_after(
            r,
            jobs_view(self.jobs@),
            self.out@.len() as int,
            self.out@,
            texts(self.warnings@),
            store,
        )
    }

    /// What is still to come when `g` is still to come of the group whose turn it is.
    pub open spec fn going_on(self, g: Run<(Tally, CacheView)>, store: Store) -> Run<SizedGroups> {
        after(g.asked, self.next(g.result, later(store, g.asked)))
    }

    /// What is still to come when no group is under way.
    pub open spec fn from_here(self, store: Store) -> Run<SizedGroups> {
        groups_from(
            jobs_view(self.jobs@),
            self.out@.len() as int,
            self.out@,
            texts(self.warnings@),
            self.cache@,
            store,
        )
    }

    /// What is still to come with the given store.
    pub open spec fn rest(self, store: Store) -> Run<SizedGroups> {
        if self.overflow {
            settled(
                SizedGroups { sizes: None, warnings: texts(self.warnings@), cache: self.cache@ },
            )
        } else {
            match self.stage {
                Stage::Idle => self.from_here(store),
                Stage::Probing(n) => self.going_on(
                    warm(n, self.members(), self.cache@, store),
                    store,
                ),
                Stage::Closing(l) => self.going_on(
                    closure_found(l.rest(store), set_key(self.members()), self.cache@, store),
                    store,
                ),
                Stage::Measuring(m) => self.going_on(
                    closure_sized(
                        m.rest(self.cache.sizes@, store),
                        set_key(self.members()),
                        self.cache@,
                    ),
                    store,
                ),
            }
        }
    }

    /// Starts to find out the sizes of groups.
    pub fn start(jobs: Vec<Job>, cache: Cache) -> (r: Sizing)
        ensures
            r.wf(),
            r.jobs == jobs,
            r.warnings@.len() == 0,
            r.cache.version == cache.version,
            forall|store: Store|
                #[trigger] r.rest(store) == groups_from(
                    jobs_view(jobs@),
                    0,
                    Seq::empty(),
                    Seq::empty(),
                    cache@,
                    store,
                ),
    {
        let mut r = Sizing {
            jobs,
            cache,
            out: Vec::new(),
            warnings: Vec::new(),
            overflow: false,
            stage: Stage::Idle,
        };
        assert(texts(r.warnings@) =~= Seq::<Seq<char>>::empty());
        assert(r.out@ =~= Seq::<u64>::empty());
        r.advance();
        r
    }

    /// Whether no group is under way and one is still to come.
    spec fn between(self) -> bool {
        self.stage is Idle && !self.overflow && self.out@.len() <= self.jobs@.len()
    }

    /// Goes on to the next group that a question must be asked for.
    fn advance(&mut self)
        requires
            old(self).between(),
        ensures
            final(self).wf(),
            final(self).jobs == old(self).jobs,
            final(self).warnings == old(self).warnings,
            final(self).cache.version == old(self).cache.version,
            forall|store: Store| #[trigger] final(self).rest(store) == old(self).from_here(store),
    {
        while self.out.len() < self.jobs.len()
            invariant_except_break
                self.between(),
                self.jobs == old(self).jobs,
                self.warnings == old(self).warnings,
                self.cache.version == old(self).cache.version,
                forall|store: Store|
                    #[trigger] self.from_here(store) == old(self).from_here(store),
            ensures
                self.wf(),
                self.jobs == old(self).jobs,
                self.warnings == old(self).warnings,
                self.cache.version == old(self).cache.version,
                forall|store: Store|
                    #[trigger] self.rest(store) == old(self).from_here(store),
            decreases self.jobs.len() - self.out.len(),
        {
            broadcast use {
            lemma_after_asking,
            lemma_after_nothing,
            lemma_later_asking,
            lemma_later_nothing,
        };

            let i: usize = self.out.len();
            let ghost before = *self;
            let ghost job = jobs_view(self.jobs@)[i as int];
            assert(job == self.jobs@[i as int]@);
            if self.jobs[i].members.len() == 0 {
                self.out.push(0);
                proof {
                    assert(job.members.len() == 0);
                    assert forall|store: Store| #[trigger] self.from_here(store) == old(
                        self,
                    ).from_here(store) by {
                        assert(before.from_here(store) == self.from_here(store));
                    }
                }
            } else {
                let members = copy_strings(&self.jobs[i].members);
                let key = join(&members, "\n");
                match self.cache.groups.get(key.as_str()) {
                    Some(n) => {
                        self.stage = Stage::Probing(n);
                    },
                    None => {
                        let lines = crate::nix::requisites(members);
                        assert(lines.wf());
                        self.stage = Stage::Closing(lines);
                    },
                }
                proof {
                    assert(job.members.len() > 0);
                    assert forall|store: Store| #[trigger] self.rest(store) == old(
                        self,
                    ).from_here(store) by {
                        assert(before.from_here(store) == self.rest(store));
                    }
                }
                break;
            }
        }
    }

    /// Takes in what came of the group whose turn it is, and goes on.
    fn take_tally(&mut self, tally: Result<Option<u64>, StoreError>)
        requires
            old(self).between(),
            old(self).out@.len() < old(self).jobs@.len(),
        ensures
            final(self).wf(),
            final(self).jobs == old(self).jobs,
            old(self).warnings@.is_prefix_of(final(self).warnings@),
            final(self).cache.version == old(self).cache.version,
            forall|store: Store|
                #[trigger] final(self).rest(store) == old(self).next(
                    (tally_view(tally), old(self).cache@),
                    store,
                ),
    {
        let i: usize = self.out.len();
        let ghost before = *self;
        let ghost jobs = jobs_view(self.jobs@);
        assert(jobs[i as int] == self.jobs@[i as int]@);
        match tally {
            Ok(None) => {
                self.overflow = true;
            },
            Ok(Some(n)) => {
                self.out.push(n);
                self.advance();
            },
            Err(e) => {
                let w = String::from_str("warning: closure size for ").concat(
                    self.jobs[i].loc.as_str(),
                ).concat(": ").concat(e.message.as_str());
                let ghost w0 = texts(self.warnings@);
                let ghost t = w@;
                self.warnings.push(w);
                assert(texts(self.warnings@) =~= w0.push(t));
                self.out.push(0);
                self.advance();
            },
        }
    }

    /// Takes in a measurement of the closure of the group whose turn it is, and goes on.
    fn take_measure(&mut self, m: Measure)
        requires
            old(self).between(),
            old(self).out@.len() < old(self).jobs@.len(),
            m.wf(old(self).cache.sizes@),
        ensures
            final(self).wf(),
            final(self).jobs == old(self).jobs,
            old(self).warnings@.is_prefix_of(final(self).warnings@),
            final(self).cache.version == old(self).cache.version,
            forall|store: Store|
                #[trigger] final(self).rest(store) == old(self).going_on(
                    closure_sized(
                        m.rest(old(self).cache.sizes@, store),
                        set_key(old(self).members()),
                        old(self).cache@,
                    ),
                    store,
                ),
    {
        broadcast use {lemma_after_nothing, lemma_later_nothing};

        let ghost before = *self;
        match m.pending() {
            Some(_) => {
                self.stage = Stage::Measuring(m);
            },
            None => {
                let i: usize = self.out.len();
                assert(jobs_view(self.jobs@)[i as int] == self.jobs@[i as int]@);
                let sizes = m.finish(&mut self.cache);
                let tally = match sizes {
                    Err(e) => Err(e),
                    Ok(v) => Ok(checked_total(&v)),
                };
                assert(tally_view(tally) == tally_of(sizes_result(sizes)));
                match &tally {
                    Ok(Some(n)) => {
                        let key = join(&self.jobs[i].members, "\n");
                        self.cache.groups.insert(key, *n);
                    },
                    _ => {},
                }
                let ghost middle = *self;
                proof {
                    assert forall|store: Store|
                        #![trigger before.going_on(
                            closure_sized(
                                m.rest(before.cache.sizes@, store),
                                set_key(before.members()),
                                before.cache@,
                            ),
                            store,
                        )]
                        before.going_on(
                            closure_sized(
                                m.rest(before.cache.sizes@, store),
                                set_key(before.members()),
                                before.cache@,
                            ),
                            store,
                        ) == middle.next((tally_view(tally), middle.cache@), store) by {
                        let r = m.rest(before.cache.sizes@, store);
                        let c = closed(r.result, set_key(before.members()), before.cache@);
                        assert(c.0 == tally_view(tally));
                        assert(c.1 =~= middle.cache@);
                    }
                }
                self.take_tally(tally);
            },
        }
    }

    /// Takes in the closure of the group whose turn it is, as far as it came, and goes on.
    fn take_closure(&mut self, l: Lines)
        requires
            old(self).between(),
            old(self).out@.len() < old(self).jobs@.len(),
            l.wf(),
        ensures
            final(self).wf(),
            final(self).jobs == old(self).jobs,
            old(self).warnings@.is_prefix_of(final(self).warnings@),
            final(self).cache.version == old(self).cache.version,
            forall|store: Store|
                #[trigger] final(self).rest(store) == old(self).going_on(
                    closure_found(
                        l.rest(store),
                        set_key(old(self).members()),
                        old(self).cache@,
                        store,
                    ),
                    store,
                ),
    {
        broadcast use {lemma_after_nothing, lemma_later_nothing};

        let ghost before = *self;
        match l.pending() {
            Some(_) => {
                self.stage = Stage::Closing(l);
            },
            None => {
                match l.finish() {
                    Err(e) => {
                        self.take_tally(Err(e));
                    },
                    Ok(all) => {
                        let reqs = sort_and_dedup(all);
                        let m = cached_sizes(reqs, &self.cache);
                        self.take_measure(m);
                    },
                }
            },
        }
    }

    /// The question that is waiting for its answer.
    pub fn pending(&self) -> (r: Option<Query>)
        requires
            self.wf(),
        ensures
            query_view(r) == self.awaits(),
    {
        match &self.stage {
            Stage::Idle => None,
            Stage::Probing(_) => {
                let i: usize = self.out.len();
                assert(jobs_view(self.jobs@)[i as int] == self.jobs@[i as int]@);
                Some(Query::Present(copy_strings(&self.jobs[i].members)))
            },
            Stage::Closing(l) => l.pending(),
            Stage::Measuring(m) => m.pending(),
        }
    }

    /// Takes in the answer to the question that is waiting for it.
    pub fn feed(&mut self, reply: Reply)
        requires
            old(self).wf(),
            old(self).awaits() is Some,
        ensures
            final(self).wf(),
            final(self).jobs == old(self).jobs,
            old(self).warnings@.is_prefix_of(final(self).warnings@),
            final(self).cache.version == old(self).cache.version,
            forall|store: Store|
                answer_of(store, old(self).awaits()->0) == reply@ ==> #[trigger] old(self).rest(
                    store,
                ) == asking(
                    old(self).awaits()->0,
                    final(self).rest(later(store, seq![old(self).awaits()->0])),
                ),
    {
        broadcast use {
            lemma_after_asking,
            lemma_after_nothing,
            lemma_later_asking,
            lemma_later_nothing,
        };

        let ghost before = *self;
        let ghost q = self.awaits()->0;
        let mut stage = Stage::Idle;
        std::mem::swap(&mut stage, &mut self.stage);
        let ghost idle = *self;
        assert(idle.members() == before.members());
        let i: usize = self.out.len();
        assert(jobs_view(self.jobs@)[i as int] == self.jobs@[i as int]@);
        match stage {
            Stage::Idle => {},
            Stage::Probing(n) => {
                let present = match &reply {
                    Reply::Present(b) => *b,
                    _ => false,
                };
                if present {
                    self.take_tally(Ok(Some(n)));
                    proof {
                        assert forall|store: Store|
                            answer_of(store, q) == reply@ implies #[trigger] before.rest(store)
                            == asking(q, self.rest(later(store, seq![q]))) by {
                            let next = later(store, seq![q]);
                            let none = Seq::<QueryView>::empty();
                            let w = warm(n, before.members(), before.cache@, store);
                            assert(w.asked =~= seq![q] + none);
                            assert(before.rest(store) == after(
                                seq![q] + none,
                                idle.next(w.result, later(next, none)),
                            ));
                        }
                    }
                } else {
                    let lines = crate::nix::requisites(copy_strings(&self.jobs[i].members));
                    self.take_closure(lines);
                    proof {
                        assert forall|store: Store|
                            answer_of(store, q) == reply@ implies #[trigger] before.rest(store)
                            == asking(q, self.rest(later(store, seq![q]))) by {
                            let next = later(store, seq![q]);
                            let c = cold(before.members(), before.cache@, next);
                            assert(before.rest(store) == after(
                                seq![q] + c.asked,
                                idle.next(c.result, later(next, c.asked)),
                            ));
                        }
                    }
                }
            },
            Stage::Closing(l) => {
                let mut lines = l;
                lines.feed(reply);
                self.take_closure(lines);
                proof {
                    let key = set_key(before.members());
                    assert forall|store: Store|
                        answer_of(store, q) == reply@ implies #[trigger] before.rest(store)
                        == asking(q, self.rest(later(store, seq![q]))) by {
                        let next = later(store, seq![q]);
                        assert(l.rest(store) == asking(q, lines.rest(next)));
                        let now = closure_found(lines.rest(next), key, before.cache@, next);
                        let was = closure_found(l.rest(store), key, before.cache@, store);
                        assert(later(store, seq![q] + lines.rest(next).asked) == later(
                            next,
                            lines.rest(next).asked,
                        ));
                        assert(was =~= asking(q, now));
                        assert(before.rest(store) == after(
                            seq![q] + now.asked,
                            idle.next(now.result, later(next, now.asked)),
                        ));
                    }
                }
            },
            Stage::Measuring(m) => {
                let mut measure = m;
                measure.feed(reply);
                self.take_measure(measure);
                proof {
                    let key = set_key(before.members());
                    let known = before.cache.sizes@;
                    assert forall|store: Store|
                        answer_of(store, q) == reply@ implies #[trigger] before.rest(store)
                        == asking(q, self.rest(later(store, seq![q]))) by {
                        let next = later(store, seq![q]);
                        assert(m.rest(known, store) == asking(q, measure.rest(known, next)));
                        let now = closure_sized(measure.rest(known, next), key, before.cache@);
                        assert(before.rest(store) == after(
                            seq![q] + now.asked,
                            idle.next(now.result, later(next, now.asked)),
                        ));
                    }
                }
            },
        }
    }

    /// What came of it, once nothing is waiting any more: a size for each group, unless one was
    /// above `u64::MAX`; the warnings; and the cache.
    pub fn finish(self) -> (r: (Option<Vec<u64>>, Vec<String>, Cache))
        requires
            self.wf(),
            self.awaits() is None,
        ensures
            r.0 matches Some(v) ==> v@.len() == self.jobs@.len(),
            r.1 == self.warnings,
            r.2.version == self.cache.version,
            forall|store: Store|
                #[trigger] self.rest(store) == settled(
                    SizedGroups {
                        sizes: match r.0 {
                            Some(v) => Some(v@),
                            None => None,
                        },
                        warnings: texts(r.1@),
                        cache: r.2@,
                    },
                ),
    {
        proof {
            if self.stage is Closing {
                assert(self.stage->Closing_0.awaits() is Some);
            }
        }
        let sizes = if self.overflow {
            None
        } else {
            Some(self.out)
        };
        (sizes, self.warnings, self.cache)
    }
}

/// What came of one group.
pub open spec fn tally_view(r: Result<Option<u64>, StoreError>) -> Tally {
    match r {
        Ok(Some(n)) => Tally::Size(n),
        Ok(None) => Tally::Overflow,
        Err(e) => Tally::Failed(e@),
    }
}

/// What is wanted of groups.
pub fn jobs_for(groups: &[&Group]) -> (r: Vec<Job>)
    ensures
        jobs_view(r@) == jobs_of(groups@),
{
    let mut jobs: Vec<Job> = Vec::new();
    let mut i: usize = 0;
    while i < groups.len()
        invariant
            i <= groups@.len(),
            jobs_view(jobs@) == jobs_of(groups@).take(i as int),
        decreases groups.len() - i,
    {
        let ghost before = jobs_view(jobs@);
        let g = groups[i];
        let job = Job { loc: g.loc.clone(), members: copy_strings(&g.members) };
        let ghost v = job@;
        jobs.push(job);
        assert(jobs_view(jobs@) =~= before.push(v));
        assert(jobs_of(groups@).take(i + 1) =~= jobs_of(groups@).take(i as int).push(v));
        i = i + 1;
    }
    assert(jobs_of(groups@).take(groups@.len() as int) =~= jobs_of(groups@));
    jobs
}

/// The union closure size (bytes) of each group in `groups`, aligned to the input order, still to
/// be found out. The cache is used where it can be, and takes in what is learned on the way.
pub fn group_sizes(groups: &[&Group], cache: Cache) -> (r: Sizing)
    ensures
        r.wf(),
        r.jobs@.len() == groups@.len(),
        r.warnings@.len() == 0,
        r.cache.version == cache.version,
        forall|store: Store|
            #[trigger] r.rest(store) == groups_from(
                jobs_of(groups@),
                0,
                Seq::empty(),
                Seq::empty(),
                cache@,
                store,
            ),
{
    let jobs = jobs_for(groups);
    assert(jobs@.len() == jobs_view(jobs@).len());
    Sizing::start(jobs, cache)
}

} // verus!
