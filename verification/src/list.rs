//! The listing: which groups are candidates, which of them are shown, in what order and how.

use vstd::prelude::*;
use vstd::string::*;

use crate::cache::{blank, CacheView};
use crate::format::{age_of, outcome_view, parse_age, parse_size, size_of, with_message};
use crate::laws::{
    cache_tellable, cached_group_size, cached_group_sizes, closure_size, covered, dead_tellable,
    honest, keys_tell_apart, keys_tell_presence, law_cache_does_not_show,
    law_sizes_are_what_the_cache_tells, law_summary_is_what_the_cache_tells, listed, sound,
    tells_presence, through, Facts,
};
use crate::nix::Store;
use crate::output::{
    age_at, before_by_name, before_by_number, law_rows_are_ordered_by_their_column,
    law_rows_show_their_groups, reclaimable, row_lines, row_links, row_of, shows, sort_rows,
    table_text, Row, RowOrder, RowView, SortKey,
};
use crate::size::{groups_from, job_of, jobs_of, total, JobView};
use crate::sort::{in_order, peers, same, sorted_from, Preorder};
use crate::summary::{deletable_jobs, members_in, plan_of, survey_run, Outcome};
use crate::text::{debug_form, lemma_lex_reflexive, text_key, text_le, texts, trimmed};
use crate::walk::Group;

verus! {

// ---------------------------------------------------------------------------------------------
// Options
// ---------------------------------------------------------------------------------------------

/// What to do with the roots.
#[derive(Clone, Copy, PartialEq, Eq, Structural, Debug)]
pub enum Mode {
    /// Browse them.
    Tui,
    /// Delete them, after confirmation unless `yes`.
    Delete { yes: bool },
    /// Print their indirect symlink paths.
    PrintLinks,
    /// Print them as JSON.
    Json,
    /// Print them as a table.
    Table,
}

/// The mode that options ask for; where several are given, the first of these in this order.
pub fn mode_of(tui: bool, delete: bool, yes: bool, print_links: bool, json: bool) -> (r: Mode)
    ensures
        r == (if tui {
            Mode::Tui
        } else if delete {
            Mode::Delete { yes }
        } else if print_links {
            Mode::PrintLinks
        } else if json {
            Mode::Json
        } else {
            Mode::Table
        }),
{
    if tui {
        Mode::Tui
    } else if delete {
        Mode::Delete { yes }
    } else if print_links {
        Mode::PrintLinks
    } else if json {
        Mode::Json
    } else {
        Mode::Table
    }
}

/// Whether only roots that may be deleted are acted on: deleting and printing links always are
/// restricted to them, the table and the JSON listing unless all are asked for.
pub open spec fn restricted(mode: Mode, all: bool) -> bool {
    mode is Delete || mode is PrintLinks || !all
}

/// Whether only roots that may be deleted are acted on.
pub fn shortlist_only(mode: Mode, all: bool) -> (r: bool)
    ensures
        r == restricted(mode, all),
{
    match mode {
        Mode::Delete { .. } => true,
        Mode::PrintLinks => true,
        _ => !all,
    }
}

/// The least size that a `--min-size` value asks for; zero where there is none.
pub fn size_floor(arg: Option<&str>) -> (r: Result<u64, String>)
    ensures
        outcome_view(r) == (match arg {
            None => Ok(0),
            Some(s) => with_message(size_of(s@), "size"@, debug_form(trimmed(s@))),
        }),
{
    match arg {
        None => Ok(0),
        Some(s) => parse_size(s),
    }
}

/// The least age that a `--min-age` value asks for; zero where there is none.
pub fn age_floor(arg: Option<&str>) -> (r: Result<u64, String>)
    ensures
        outcome_view(r) == (match arg {
            None => Ok(0),
            Some(s) => with_message(age_of(s@), "age"@, debug_form(trimmed(s@))),
        }),
{
    match arg {
        None => Ok(0),
        Some(s) => parse_age(s),
    }
}

// ---------------------------------------------------------------------------------------------
// Candidates
// ---------------------------------------------------------------------------------------------

/// Whether a group is a candidate, before its size is known.
pub open spec fn is_candidate(g: Group, shortlist: bool, min_age: u64, now: u64) -> bool {
    (!shortlist || g.may_delete()) && age_at(now, g.newest_mtime) >= min_age
}

/// The candidates among groups.
pub open spec fn candidates_of(
    groups: Seq<Group>,
    shortlist: bool,
    min_age: u64,
    now: u64,
) -> Seq<Group> {
    groups.filter(|g: Group| is_candidate(g, shortlist, min_age, now))
}

/// Groups behind references.
pub open spec fn behind(v: Seq<&Group>) -> Seq<Group> {
    v.map_values(|g: &Group| *g)
}

/// The candidates among groups. This comes before sizing, so that no closure is computed for a
/// group that will not be shown.
pub fn candidates<'a>(groups: &'a [Group], shortlist: bool, min_age: u64, now: u64) -> (r: Vec<
    &'a Group,
>)
    ensures
        behind(r@) == candidates_of(groups@, shortlist, min_age, now),
{
    let ghost p = |g: Group| is_candidate(g, shortlist, min_age, now);
    let mut r: Vec<&'a Group> = Vec::new();
    let mut i: usize = 0;
    proof {
        reveal(Seq::filter);
        assert(behind(r@) =~= groups@.take(0).filter(p));
    }
    while i < groups.len()
        invariant
            i <= groups@.len(),
            p == (|g: Group| is_candidate(g, shortlist, min_age, now)),
            behind(r@) == groups@.take(i as int).filter(p),
        decreases groups.len() - i,
    {
        let ghost before = behind(r@);
        proof {
            reveal(Seq::filter);
            assert(groups@.take(i + 1).drop_last() =~= groups@.take(i as int));
            assert(groups@.take(i + 1).last() == groups@[i as int]);
        }
        let g = &groups[i];
        if (!shortlist || g.deletable()) && now.saturating_sub(g.newest_mtime) >= min_age {
            r.push(g);
            assert(behind(r@) =~= before.push(groups@[i as int]));
        }
        i = i + 1;
    }
    assert(groups@.take(groups@.len() as int) =~= groups@);
    r
}

// ---------------------------------------------------------------------------------------------
// Rows
// ---------------------------------------------------------------------------------------------

/// Rows by their texts.
pub open spec fn row_views(rows: Seq<Row>) -> Seq<RowView> {
    rows.map_values(|r: Row| r@)
}

/// The rows of the groups that are large enough.
pub open spec fn kept(groups: Seq<Group>, sizes: Seq<u64>, min_size: u64, now: u64) -> Seq<RowView>
    decreases groups.len(),
{
    if groups.len() == 0 {
        Seq::empty()
    } else {
        let before = kept(groups.drop_last(), sizes.drop_last(), min_size, now);
        if sizes.last() >= min_size {
            before.push(row_of(&groups.last(), sizes.last(), now))
        } else {
            before
        }
    }
}

/// Whether `rows` are the rows of the groups that are large enough, sorted.
pub open spec fn listing_of(
    rows: Seq<Row>,
    groups: Seq<Group>,
    sizes: Seq<u64>,
    min_size: u64,
    now: u64,
    key: SortKey,
    desc: bool,
) -> bool {
    exists|unsorted: Seq<Row>|
        row_views(unsorted) == kept(groups, sizes, min_size, now) && #[trigger] sorted_from(
            &(RowOrder { key, desc }),
            rows,
            unsorted,
        )
}

/// The rows of the groups that are large enough, sorted by a column in its natural direction or
/// the other way round.
pub fn listing(
    groups: &[&Group],
    sizes: &Vec<u64>,
    min_size: u64,
    now: u64,
    key: SortKey,
    reverse: bool,
) -> (r: Vec<Row>)
    requires
        groups@.len() == sizes@.len(),
    ensures
        listing_of(
            r@,
            behind(groups@),
            sizes@,
            min_size,
            now,
            key,
            key.descends() != reverse,
        ),
{
    let ghost all = behind(groups@);
    let mut r: Vec<Row> = Vec::new();
    let mut i: usize = 0;
    assert(row_views(r@) =~= kept(all.take(0), sizes@.take(0), min_size, now));
    while i < groups.len()
        invariant
            i <= groups@.len(),
            groups@.len() == sizes@.len(),
            all == behind(groups@),
            row_views(r@) == kept(all.take(i as int), sizes@.take(i as int), min_size, now),
        decreases groups.len() - i,
    {
        let ghost before = row_views(r@);
        assert(all.take(i + 1).drop_last() =~= all.take(i as int));
        assert(sizes@.take(i + 1).drop_last() =~= sizes@.take(i as int));
        assert(all.take(i + 1).last() == *groups@[i as int]);
        if sizes[i] >= min_size {
            let row = Row::from_group(groups[i], sizes[i], now);
            let ghost v = row@;
            r.push(row);
            assert(row_views(r@) =~= before.push(v));
        }
        i = i + 1;
    }
    assert(all.take(all.len() as int) =~= all);
    assert(sizes@.take(sizes@.len() as int) =~= sizes@);
    let desc = key.default_desc() != reverse;
    sort_rows(&mut r, key, desc);
    r
}

// ---------------------------------------------------------------------------------------------
// Laws
// ---------------------------------------------------------------------------------------------

/// Deleting and printing links are restricted to what may be deleted, and so is everything else
/// unless all is asked for.
pub proof fn law_restriction(all: bool, yes: bool)
    ensures
        restricted(Mode::Delete { yes }, all),
        restricted(Mode::PrintLinks, all),
        restricted(Mode::Table, all) <==> !all,
        restricted(Mode::Json, all) <==> !all,
        restricted(Mode::Tui, all) <==> !all,
{
}

/// The filter leaves out what it must and nothing else: the candidates are the groups that are
/// writable and not protected, or all of them without the shortlist, and of these the ones whose
/// newest root is at least `min_age` old, whatever their kind; they stay in their order.
pub proof fn law_every_old_enough_group_is_a_candidate(
    groups: Seq<Group>,
    shortlist: bool,
    min_age: u64,
    now: u64,
)
    ensures
        candidates_of(groups, shortlist, min_age, now) == groups.filter(
            |g: Group|
                (shortlist ==> g.writable && !g.protected) && (min_age == 0 || g.newest_mtime
                    + min_age <= now),
        ),
        forall|k: int|
            0 <= k < groups.len() && (shortlist ==> (#[trigger] groups[k]).writable
                && !groups[k].protected) && (min_age == 0 || groups[k].newest_mtime + min_age
                <= now) ==> candidates_of(groups, shortlist, min_age, now).contains(groups[k]),
{
    let p = |g: Group| is_candidate(g, shortlist, min_age, now);
    let q = |g: Group|
        (shortlist ==> g.writable && !g.protected) && (min_age == 0 || g.newest_mtime + min_age
            <= now);
    assert(p =~= q);
    assert forall|k: int|
        0 <= k < groups.len() && (shortlist ==> (#[trigger] groups[k]).writable
            && !groups[k].protected) && (min_age == 0 || groups[k].newest_mtime + min_age
            <= now) implies candidates_of(groups, shortlist, min_age, now).contains(groups[k]) by {
        groups.lemma_filter_contains(p, k);
    }
}

/// Whether a row is that of a group that is large enough.
spec fn kept_row(
    v: RowView,
    groups: Seq<Group>,
    sizes: Seq<u64>,
    min_size: u64,
    now: u64,
) -> bool {
    exists|k: int|
        0 <= k < groups.len() && #[trigger] sizes[k] >= min_size && v == row_of(
            &groups[k],
            sizes[k],
            now,
        )
}

/// Whether a row shows a group that is large enough.
pub open spec fn shows_large(
    r: Row,
    groups: Seq<Group>,
    sizes: Seq<u64>,
    min_size: u64,
    now: u64,
) -> bool {
    exists|k: int|
        0 <= k < groups.len() && #[trigger] sizes[k] >= min_size && shows(
            r,
            groups[k],
            sizes[k],
            now,
        )
}

proof fn lemma_kept_rows(groups: Seq<Group>, sizes: Seq<u64>, min_size: u64, now: u64)
    requires
        groups.len() == sizes.len(),
    ensures
        ({
            let rows = kept(groups, sizes, min_size, now);
            &&& rows.len() == sizes.filter(|n: u64| n >= min_size).len()
            &&& forall|k: int|
                0 <= k < groups.len() && #[trigger] sizes[k] >= min_size ==> rows.contains(
                    row_of(&groups[k], sizes[k], now),
                )
            &&& forall|j: int|
                0 <= j < rows.len() ==> kept_row(
                    #[trigger] rows[j],
                    groups,
                    sizes,
                    min_size,
                    now,
                )
        }),
    decreases groups.len(),
{
    reveal(Seq::filter);
    let rows = kept(groups, sizes, min_size, now);
    if groups.len() > 0 {
        let g = groups.drop_last();
        let s = sizes.drop_last();
        let before = kept(g, s, min_size, now);
        lemma_kept_rows(g, s, min_size, now);
        assert forall|k: int|
            0 <= k < groups.len() && #[trigger] sizes[k] >= min_size implies rows.contains(
            row_of(&groups[k], sizes[k], now),
        ) by {
            if k < g.len() {
                assert(s[k] == sizes[k]);
                let j = choose|j: int|
                    0 <= j < before.len() && before[j] == row_of(&g[k], s[k], now);
                assert(rows[j] == row_of(&groups[k], sizes[k], now));
            } else {
                assert(rows[rows.len() - 1] == row_of(&groups[k], sizes[k], now));
            }
        }
        assert forall|j: int| 0 <= j < rows.len() implies kept_row(
            #[trigger] rows[j],
            groups,
            sizes,
            min_size,
            now,
        ) by {
            if j < before.len() {
                assert(rows[j] == before[j]);
                assert(kept_row(before[j], g, s, min_size, now));
                let k = choose|k: int|
                    0 <= k < g.len() && #[trigger] s[k] >= min_size && before[j] == row_of(
                        &g[k],
                        s[k],
                        now,
                    );
                assert(sizes[k] == s[k] && groups[k] == g[k]);
            } else {
                assert(sizes[groups.len() - 1] >= min_size);
            }
        }
    }
}

/// A listing misses no group and makes none up: every group that is large enough has its row, every
/// row is that of such a group, there are as many rows as such groups; and each row comes before
/// those behind it, or with them, in the order of the column.
pub proof fn law_every_large_group_is_listed(
    rows: Seq<Row>,
    groups: Seq<Group>,
    sizes: Seq<u64>,
    min_size: u64,
    now: u64,
    key: SortKey,
    desc: bool,
)
    requires
        groups.len() == sizes.len(),
        listing_of(rows, groups, sizes, min_size, now, key, desc),
    ensures
        forall|k: int|
            0 <= k < groups.len() && #[trigger] sizes[k] >= min_size ==> exists|i: int|
                0 <= i < rows.len() && shows(#[trigger] rows[i], groups[k], sizes[k], now),
        forall|i: int|
            0 <= i < rows.len() ==> shows_large(#[trigger] rows[i], groups, sizes, min_size, now),
        rows.len() == sizes.filter(|n: u64| n >= min_size).len(),
        forall|i: int, j: int|
            0 <= i < j < rows.len() ==> match key {
                SortKey::Size => before_by_number(
                    #[trigger] rows[i],
                    #[trigger] rows[j],
                    rows[i].size,
                    rows[j].size,
                    desc,
                ),
                SortKey::Age => before_by_number(
                    rows[i],
                    rows[j],
                    rows[i].age,
                    rows[j].age,
                    desc,
                ),
                SortKey::Name => if rows[i].loc@ == rows[j].loc@ || !desc {
                    before_by_name(rows[i], rows[j])
                } else {
                    before_by_name(rows[j], rows[i])
                },
            },
{
    broadcast use vstd::seq_lib::group_to_multiset_ensures;

    let c = RowOrder { key, desc };
    let u = choose|u: Seq<Row>|
        row_views(u) == kept(groups, sizes, min_size, now) && #[trigger] sorted_from(&c, rows, u);
    let views = kept(groups, sizes, min_size, now);
    lemma_kept_rows(groups, sizes, min_size, now);
    assert(rows.len() == rows.to_multiset().len());
    assert(u.len() == u.to_multiset().len());
    assert(u.len() == views.len());
    assert forall|k: int| 0 <= k < groups.len() && #[trigger] sizes[k] >= min_size implies exists|
        i: int,
    |
        0 <= i < rows.len() && shows(#[trigger] rows[i], groups[k], sizes[k], now) by {
        let v = row_of(&groups[k], sizes[k], now);
        let j = choose|j: int| 0 <= j < views.len() && views[j] == v;
        assert(u[j]@ == v);
        assert(u.contains(u[j]));
        assert(u.to_multiset().count(u[j]) > 0);
        assert(rows.contains(u[j]));
        let i = choose|i: int| 0 <= i < rows.len() && rows[i] == u[j];
        law_rows_show_their_groups(rows[i], groups[k], sizes[k], now);
    }
    assert forall|i: int| 0 <= i < rows.len() implies shows_large(
        #[trigger] rows[i],
        groups,
        sizes,
        min_size,
        now,
    ) by {
        assert(rows.contains(rows[i]));
        assert(rows.to_multiset().count(rows[i]) > 0);
        assert(u.contains(rows[i]));
        let j = choose|j: int| 0 <= j < u.len() && u[j] == rows[i];
        assert(views[j] == rows[i]@);
        assert(kept_row(views[j], groups, sizes, min_size, now));
        let k = choose|k: int|
            0 <= k < groups.len() && #[trigger] sizes[k] >= min_size && views[j] == row_of(
                &groups[k],
                sizes[k],
                now,
            );
        law_rows_show_their_groups(rows[i], groups[k], sizes[k], now);
    }
    assert forall|i: int, j: int| 0 <= i < j < rows.len() implies match key {
        SortKey::Size => before_by_number(
            #[trigger] rows[i],
            #[trigger] rows[j],
            rows[i].size,
            rows[j].size,
            desc,
        ),
        SortKey::Age => before_by_number(rows[i], rows[j], rows[i].age, rows[j].age, desc),
        SortKey::Name => if rows[i].loc@ == rows[j].loc@ || !desc {
            before_by_name(rows[i], rows[j])
        } else {
            before_by_name(rows[j], rows[i])
        },
    } by {
        assert(c.le(rows[i], rows[j]));
        law_rows_are_ordered_by_their_column(rows[i], rows[j], desc);
    }
}

/// Every row of a listing is the row of a candidate that is large enough; where only roots that
/// may be deleted are acted on, it may be deleted.
pub proof fn law_listing_holds_only_candidates(
    rows: Seq<Row>,
    groups: Seq<Group>,
    shortlist: bool,
    min_age: u64,
    sizes: Seq<u64>,
    min_size: u64,
    now: u64,
    key: SortKey,
    desc: bool,
)
    requires
        sizes.len() == candidates_of(groups, shortlist, min_age, now).len(),
        listing_of(
            rows,
            candidates_of(groups, shortlist, min_age, now),
            sizes,
            min_size,
            now,
            key,
            desc,
        ),
    ensures
        forall|i: int|
            0 <= i < rows.len() ==> {
                &&& (#[trigger] rows[i]).size >= min_size
                &&& rows[i].age >= min_age
                &&& shortlist ==> rows[i].deletable && !rows[i].protected
            },
{
    broadcast use vstd::seq_lib::group_to_multiset_ensures;

    let c = candidates_of(groups, shortlist, min_age, now);
    let u = choose|u: Seq<Row>|
        row_views(u) == kept(c, sizes, min_size, now) && #[trigger] sorted_from(
            &(RowOrder { key, desc }),
            rows,
            u,
        );
    let p = |g: Group| is_candidate(g, shortlist, min_age, now);
    assert forall|k: int| 0 <= k < c.len() implies is_candidate(
        #[trigger] c[k],
        shortlist,
        min_age,
        now,
    ) by {
        groups.lemma_filter_pred(p, k);
        assert(p(c[k]));
    }
    lemma_kept(c, sizes, shortlist, min_age, min_size, now);
    assert forall|i: int| 0 <= i < rows.len() implies {
        &&& (#[trigger] rows[i]).size >= min_size
        &&& rows[i].age >= min_age
        &&& shortlist ==> rows[i].deletable && !rows[i].protected
    } by {
        assert(rows.contains(rows[i]));
        assert(rows.to_multiset().count(rows[i]) > 0);
        assert(u.contains(rows[i]));
        let j = choose|j: int| 0 <= j < u.len() && u[j] == rows[i];
        assert(row_views(u)[j] == rows[i]@);
    }
}

proof fn lemma_kept(
    c: Seq<Group>,
    sizes: Seq<u64>,
    shortlist: bool,
    min_age: u64,
    min_size: u64,
    now: u64,
)
    requires
        c.len() == sizes.len(),
        forall|k: int|
            0 <= k < c.len() ==> is_candidate(#[trigger] c[k], shortlist, min_age, now),
    ensures
        forall|k: int|
            0 <= k < kept(c, sizes, min_size, now).len() ==> {
                &&& (#[trigger] kept(c, sizes, min_size, now)[k]).size >= min_size
                &&& kept(c, sizes, min_size, now)[k].age >= min_age
                &&& shortlist ==> kept(c, sizes, min_size, now)[k].deletable && !kept(
                    c,
                    sizes,
                    min_size,
                    now,
                )[k].protected
            },
    decreases c.len(),
{
    if c.len() > 0 {
        let d = c.drop_last();
        assert forall|k: int| 0 <= k < d.len() implies is_candidate(
            #[trigger] d[k],
            shortlist,
            min_age,
            now,
        ) by {
            assert(d[k] == c[k]);
        }
        lemma_kept(d, sizes.drop_last(), shortlist, min_age, min_size, now);
        let g = c.last();
        assert(is_candidate(c[c.len() - 1], shortlist, min_age, now));
        let before = kept(d, sizes.drop_last(), min_size, now);
        let now_kept = kept(c, sizes, min_size, now);
        assert forall|k: int| 0 <= k < now_kept.len() implies {
            &&& (#[trigger] now_kept[k]).size >= min_size
            &&& now_kept[k].age >= min_age
            &&& shortlist ==> now_kept[k].deletable && !now_kept[k].protected
        } by {
            if k < before.len() {
                assert(now_kept[k] == before[k]);
            } else {
                assert(now_kept[k] == row_of(&g, sizes.last(), now));
            }
        }
    }
}

/// What the order says of two rows depends on their texts alone.
proof fn lemma_order_by_views(a: Row, b: Row, x: Row, c: &RowOrder)
    requires
        a@ == b@,
    ensures
        c.le(a, x) == c.le(b, x),
        c.le(x, a) == c.le(x, b),
{
    assert(a.loc@ == a@.loc && b.loc@ == b@.loc);
    assert(a.key@ == a@.key && b.key@ == b@.key);
    assert(a.size == a@.size && b.size == b@.size);
    assert(a.age == a@.age && b.age == b@.age);
}

proof fn lemma_last_views(c: &RowOrder, s: Seq<Row>, x: Row)
    requires
        s.len() > 0,
    ensures
        row_views(s) == row_views(s.drop_last()).push(s.last()@),
        same(c, x, s.last()) ==> peers(c, s, x) == peers(c, s.drop_last(), x).push(s.last()),
        !same(c, x, s.last()) ==> peers(c, s, x) == peers(c, s.drop_last(), x),
        row_views(peers(c, s, x)) == (if same(c, x, s.last()) {
            row_views(peers(c, s.drop_last(), x)).push(s.last()@)
        } else {
            row_views(peers(c, s.drop_last(), x))
        }),
{
    reveal(Seq::filter);
    assert(row_views(s) =~= row_views(s.drop_last()).push(s.last()@));
    if same(c, x, s.last()) {
        assert(row_views(peers(c, s, x)) =~= row_views(peers(c, s.drop_last(), x)).push(
            s.last()@,
        ));
    }
}

/// Rows with the same texts have peers with the same texts.
proof fn lemma_peer_views(c: &RowOrder, a: Seq<Row>, b: Seq<Row>, x: Row)
    requires
        row_views(a) == row_views(b),
    ensures
        row_views(peers(c, a, x)) == row_views(peers(c, b, x)),
    decreases a.len(),
{
    assert(a.len() == row_views(a).len());
    assert(b.len() == row_views(b).len());
    reveal(Seq::filter);
    if a.len() > 0 {
        assert(row_views(a).last() == a.last()@);
        assert(row_views(b).last() == b.last()@);
        lemma_last_views(c, a, x);
        lemma_last_views(c, b, x);
        assert(row_views(a.drop_last()) =~= row_views(a).drop_last());
        assert(row_views(b.drop_last()) =~= row_views(b).drop_last());
        lemma_peer_views(c, a.drop_last(), b.drop_last(), x);
        lemma_order_by_views(a.last(), b.last(), x, c);
    } else {
        assert(a =~= b);
    }
}

proof fn lemma_no_peer_views(c: &RowOrder, s: Seq<Row>, x: Row)
    requires
        forall|i: int| 0 <= i < s.len() ==> !same(c, x, #[trigger] s[i]),
    ensures
        peers(c, s, x).len() == 0,
    decreases s.len(),
{
    reveal(Seq::filter);
    if s.len() > 0 {
        let t = s.drop_last();
        assert forall|i: int| 0 <= i < t.len() implies !same(c, x, #[trigger] t[i]) by {
            assert(t[i] == s[i]);
        }
        lemma_no_peer_views(c, t, x);
        assert(!same(c, x, s[s.len() - 1]));
    }
}

proof fn lemma_last_reaches(c: &RowOrder, a: Seq<Row>, b: Seq<Row>)
    requires
        a.len() > 0,
        in_order(c, b),
        forall|x: Row| row_views(#[trigger] peers(c, a, x)) == row_views(peers(c, b, x)),
    ensures
        b.len() > 0,
        c.le(a.last(), b.last()),
{
    let x = a.last();
    c.total(x, x);
    lemma_last_views(c, a, x);
    assert(row_views(peers(c, a, x)) == row_views(peers(c, b, x)));
    assert(row_views(peers(c, b, x)).len() > 0);
    if forall|i: int| 0 <= i < b.len() ==> !same(c, x, #[trigger] b[i]) {
        lemma_no_peer_views(c, b, x);
    }
    let i = choose|i: int| 0 <= i < b.len() && same(c, x, #[trigger] b[i]);
    if i < b.len() - 1 {
        c.transitive(x, b[i], b[b.len() - 1]);
    }
}

/// There is one way only to sort rows, as far as their texts go.
proof fn lemma_one_order(c: &RowOrder, a: Seq<Row>, b: Seq<Row>)
    requires
        in_order(c, a),
        in_order(c, b),
        forall|x: Row| row_views(#[trigger] peers(c, a, x)) == row_views(peers(c, b, x)),
    ensures
        row_views(a) == row_views(b),
    decreases a.len(),
{
    if a.len() == 0 {
        if b.len() > 0 {
            assert forall|x: Row| row_views(#[trigger] peers(c, b, x)) == row_views(
                peers(c, a, x),
            ) by {
                assert(row_views(peers(c, a, x)) == row_views(peers(c, b, x)));
            }
            lemma_last_reaches(c, b, a);
        }
        assert(a =~= b);
    } else {
        let x = a.last();
        lemma_last_reaches(c, a, b);
        assert forall|z: Row| row_views(#[trigger] peers(c, b, z)) == row_views(
            peers(c, a, z),
        ) by {
            assert(row_views(peers(c, a, z)) == row_views(peers(c, b, z)));
        }
        lemma_last_reaches(c, b, a);
        let y = b.last();
        c.total(x, x);
        lemma_last_views(c, a, x);
        lemma_last_views(c, b, x);
        assert(row_views(peers(c, a, x)) == row_views(peers(c, b, x)));
        assert(row_views(peers(c, a, x)).last() == x@);
        assert(row_views(peers(c, b, x)).last() == y@);
        let a0 = a.drop_last();
        let b0 = b.drop_last();
        assert forall|z: Row| row_views(#[trigger] peers(c, a0, z)) == row_views(
            peers(c, b0, z),
        ) by {
            lemma_last_views(c, a, z);
            lemma_last_views(c, b, z);
            lemma_order_by_views(x, y, z, c);
            assert(row_views(peers(c, a, z)) == row_views(peers(c, b, z)));
            if same(c, z, x) {
                assert(row_views(peers(c, a0, z)) =~= row_views(peers(c, a, z)).drop_last());
                assert(row_views(peers(c, b0, z)) =~= row_views(peers(c, b, z)).drop_last());
            }
        }
        lemma_one_order(c, a0, b0);
    }
}

/// What is printed of rows depends on their texts alone.
proof fn lemma_print_by_views(a: Seq<Row>, b: Seq<Row>, marked: bool)
    requires
        row_views(a) == row_views(b),
    ensures
        reclaimable(a) == reclaimable(b),
        row_lines(a, marked) == row_lines(b, marked),
        row_links(a) == row_links(b),
    decreases a.len(),
{
    assert(a.len() == row_views(a).len());
    assert(b.len() == row_views(b).len());
    if a.len() > 0 {
        assert(row_views(a).last() == a.last()@);
        assert(row_views(b).last() == b.last()@);
        assert(row_views(a.drop_last()) =~= row_views(a).drop_last());
        assert(row_views(b.drop_last()) =~= row_views(b).drop_last());
        lemma_print_by_views(a.drop_last(), b.drop_last(), marked);
        let x = a.last();
        let y = b.last();
        assert(x.loc@ == x@.loc && y.loc@ == y@.loc);
        assert(texts(x.links@) == x@.links && texts(y.links@) == y@.links);
        assert(x.size == x@.size && y.size == y@.size);
        assert(x.age == x@.age && y.age == y@.age);
        assert(x.count == x@.count && y.count == y@.count);
        assert(x.deletable == x@.deletable && y.deletable == y@.deletable);
        assert(x.protected == x@.protected && y.protected == y@.protected);
    }
}

/// A listing has one outcome only: what is listed, the table, its total and the links that are
/// printed or deleted are the same whenever the groups and their sizes are.
pub proof fn law_listing_has_one_outcome(
    a: Seq<Row>,
    b: Seq<Row>,
    groups: Seq<Group>,
    sizes: Seq<u64>,
    min_size: u64,
    now: u64,
    key: SortKey,
    desc: bool,
    all: bool,
)
    requires
        listing_of(a, groups, sizes, min_size, now, key, desc),
        listing_of(b, groups, sizes, min_size, now, key, desc),
    ensures
        row_views(a) == row_views(b),
        table_text(a, all) == table_text(b, all),
        reclaimable(a) == reclaimable(b),
        row_links(a) == row_links(b),
{
    let c = RowOrder { key, desc };
    let views = kept(groups, sizes, min_size, now);
    let u = choose|u: Seq<Row>| row_views(u) == views && #[trigger] sorted_from(&c, a, u);
    let v = choose|v: Seq<Row>| row_views(v) == views && #[trigger] sorted_from(&c, b, v);
    assert forall|x: Row| row_views(#[trigger] peers(&c, a, x)) == row_views(
        peers(&c, b, x),
    ) by {
        lemma_peer_views(&c, u, v, x);
        assert(peers(&c, a, x) == peers(&c, u, x));
        assert(peers(&c, b, x) == peers(&c, v, x));
    }
    lemma_one_order(&c, a, b);
    lemma_print_by_views(a, b, all);
}

/// Bypassing the cache gives the same output: with stores that answer by the same facts, a listing
/// from the sizes of a run with a cache of which all is true and one from the sizes of a run
/// without a cache show the same rows, the same table and the same links.
pub proof fn law_cache_does_not_show_in_listing(
    store: Store,
    other: Store,
    f: Facts,
    groups: Seq<&Group>,
    cache: CacheView,
    a: Seq<Row>,
    b: Seq<Row>,
    min_size: u64,
    now: u64,
    key: SortKey,
    desc: bool,
    all: bool,
)
    requires
        honest(store, f),
        honest(other, f),
        sound(cache, f),
        keys_tell_apart(f),
        forall|k: int|
            0 <= k < groups.len() ==> ((#[trigger] groups[k]).members@.len() == 0 || listed(
                f,
                texts(groups[k].members@),
            )),
        forall|k: int|
            0 <= k < groups.len() ==> closure_size(f, texts((#[trigger] groups[k]).members@))
                <= u64::MAX,
        ({
            let jobs = jobs_of(groups);
            let with = groups_from(jobs, 0, Seq::empty(), Seq::empty(), cache, store).result;
            let without = groups_from(jobs, 0, Seq::empty(), Seq::empty(), blank(), other).result;
            &&& with.sizes matches Some(s) && listing_of(
                a,
                behind(groups),
                s,
                min_size,
                now,
                key,
                desc,
            )
            &&& without.sizes matches Some(s) && listing_of(
                b,
                behind(groups),
                s,
                min_size,
                now,
                key,
                desc,
            )
        }),
    ensures
        row_views(a) == row_views(b),
        table_text(a, all) == table_text(b, all),
        reclaimable(a) == reclaimable(b),
        row_links(a) == row_links(b),
{
    let jobs = jobs_of(groups);
    assert forall|k: int| 0 <= k < jobs.len() implies ((#[trigger] jobs[k]).members.len() == 0
        || listed(f, jobs[k].members)) by {
        assert(jobs[k].members == texts(groups[k].members@));
    }
    assert forall|k: int| 0 <= k < jobs.len() implies closure_size(
        f,
        (#[trigger] jobs[k]).members,
    ) <= u64::MAX by {
        assert(jobs[k].members == texts(groups[k].members@));
    }
    law_cache_does_not_show(store, other, f, jobs, cache);
    let with = groups_from(jobs, 0, Seq::empty(), Seq::empty(), cache, store).result;
    law_listing_has_one_outcome(
        a,
        b,
        behind(groups),
        with.sizes->0,
        min_size,
        now,
        key,
        desc,
        all,
    );
}

proof fn lemma_reclaimable_without(s: Seq<Row>, i: int)
    requires
        0 <= i < s.len(),
    ensures
        reclaimable(s) == reclaimable(s.remove(i)) + if s[i].deletable {
            s[i].size as nat
        } else {
            0
        },
    decreases s.len(),
{
    let t = s.remove(i);
    if i == s.len() - 1 {
        assert(t =~= s.drop_last());
    } else {
        lemma_reclaimable_without(s.drop_last(), i);
        assert(t.drop_last() =~= s.drop_last().remove(i));
        assert(t.last() == s.last());
    }
}

/// The total does not depend on the order of the rows.
proof fn lemma_reclaimable_of_permutation(a: Seq<Row>, b: Seq<Row>)
    requires
        a.to_multiset() == b.to_multiset(),
    ensures
        reclaimable(a) == reclaimable(b),
    decreases a.len(),
{
    broadcast use vstd::seq_lib::group_to_multiset_ensures;

    assert(a.len() == a.to_multiset().len());
    assert(b.len() == b.to_multiset().len());
    if a.len() > 0 {
        let x = a.last();
        assert(a.contains(x));
        assert(b.to_multiset().count(x) > 0);
        assert(b.contains(x));
        let i = choose|i: int| 0 <= i < b.len() && b[i] == x;
        lemma_reclaimable_without(a, a.len() - 1);
        lemma_reclaimable_without(b, i);
        lemma_reclaimable_of_permutation(a.remove(a.len() - 1), b.remove(i));
    }
}

proof fn lemma_reclaimable_of_kept(rows: Seq<Row>, groups: Seq<Group>, sizes: Seq<u64>, now: u64)
    requires
        groups.len() == sizes.len(),
        row_views(rows) == kept(groups, sizes, 0, now),
        forall|k: int| 0 <= k < groups.len() ==> (#[trigger] groups[k]).may_delete(),
    ensures
        reclaimable(rows) == total(sizes),
    decreases groups.len(),
{
    assert(rows.len() == row_views(rows).len());
    if groups.len() > 0 {
        let g = groups.drop_last();
        assert forall|k: int| 0 <= k < g.len() implies (#[trigger] g[k]).may_delete() by {
            assert(g[k] == groups[k]);
        }
        assert(groups[groups.len() - 1].may_delete());
        let before = kept(g, sizes.drop_last(), 0, now);
        assert(row_views(rows) == before.push(row_of(&groups.last(), sizes.last(), now)));
        assert(row_views(rows).last() == rows.last()@);
        assert(row_views(rows.drop_last()) =~= row_views(rows).drop_last());
        assert(before =~= row_views(rows).drop_last());
        lemma_reclaimable_of_kept(rows.drop_last(), g, sizes.drop_last(), now);
        assert(rows.last().size == rows.last()@.size);
        assert(rows.last().deletable == rows.last()@.deletable);
    }
}

/// What a summary sizes for what may be reclaimed are the candidates of the plain listing.
proof fn lemma_summary_candidates(groups: Seq<Group>, now: u64)
    ensures
        deletable_jobs(groups) == candidates_of(groups, true, 0, now).map_values(
            |g: Group| job_of(&g),
        ),
    decreases groups.len(),
{
    reveal(Seq::filter);
    let f = |g: Group| job_of(&g);
    let c = candidates_of(groups, true, 0, now);
    if groups.len() > 0 {
        let d = candidates_of(groups.drop_last(), true, 0, now);
        lemma_summary_candidates(groups.drop_last(), now);
        if groups.last().may_delete() {
            assert(c.map_values(f) =~= d.map_values(f).push(job_of(&groups.last())));
        }
    } else {
        assert(deletable_jobs(groups) =~= c.map_values(f));
    }
}

/// What a summary says may be reclaimed is the total of the plain listing: both size the same
/// groups, and the listing adds up what the summary adds up.
pub proof fn law_summary_matches_listing(
    groups: Seq<Group>,
    rows: Seq<Row>,
    sizes: Seq<u64>,
    now: u64,
    key: SortKey,
    desc: bool,
)
    requires
        sizes.len() == candidates_of(groups, true, 0, now).len(),
        listing_of(rows, candidates_of(groups, true, 0, now), sizes, 0, now, key, desc),
    ensures
        plan_of(groups).jobs == candidates_of(groups, true, 0, now).map_values(
            |g: Group| job_of(&g),
        ),
        reclaimable(rows) == total(sizes),
{
    lemma_summary_candidates(groups, now);
    let c = candidates_of(groups, true, 0, now);
    let u = choose|u: Seq<Row>|
        row_views(u) == kept(c, sizes, 0, now) && #[trigger] sorted_from(
            &(RowOrder { key, desc }),
            rows,
            u,
        );
    let p = |g: Group| is_candidate(g, true, 0, now);
    assert forall|k: int| 0 <= k < c.len() implies (#[trigger] c[k]).may_delete() by {
        groups.lemma_filter_pred(p, k);
        assert(p(c[k]));
    }
    lemma_reclaimable_of_kept(u, c, sizes, now);
    lemma_reclaimable_of_permutation(rows, u);
}

/// What is wanted of all groups.
pub open spec fn all_jobs(groups: Seq<Group>) -> Seq<JobView> {
    groups.map_values(|g: Group| job_of(&g))
}

/// What may be reclaimed of the rows of all groups is the sum over those that may be deleted.
proof fn lemma_reclaimable_of_all(
    size: spec_fn(JobView) -> u64,
    groups: Seq<Group>,
    rows: Seq<Row>,
    now: u64,
)
    requires
        rows.len() == groups.len(),
        forall|i: int|
            0 <= i < rows.len() ==> (#[trigger] rows[i])@ == row_of(
                &groups[i],
                size(job_of(&groups[i])),
                now,
            ),
    ensures
        reclaimable(rows) == total(deletable_jobs(groups).map_values(size)),
    decreases groups.len(),
{
    let jobs = deletable_jobs(groups);
    if groups.len() > 0 {
        let g = groups.last();
        let r = rows.last();
        let before = deletable_jobs(groups.drop_last());
        assert forall|i: int| 0 <= i < rows.drop_last().len() implies (
        #[trigger] rows.drop_last()[i])@ == row_of(
            &groups.drop_last()[i],
            size(job_of(&groups.drop_last()[i])),
            now,
        ) by {
            assert(rows.drop_last()[i] == rows[i]);
            assert(groups.drop_last()[i] == groups[i]);
        }
        lemma_reclaimable_of_all(size, groups.drop_last(), rows.drop_last(), now);
        assert(rows[rows.len() - 1]@ == row_of(&g, size(job_of(&g)), now));
        assert(r.size == r@.size && r.deletable == r@.deletable);
        if g.may_delete() {
            assert(jobs.map_values(size).drop_last() =~= before.map_values(size));
            assert(jobs.map_values(size).last() == size(job_of(&g)));
        }
    } else {
        assert(jobs.map_values(size) =~= Seq::<u64>::empty());
    }
}

/// The facts cover the roots of a scope where they cover the members of all groups.
proof fn lemma_roots_covered(f: Facts, groups: Seq<Group>, user: bool)
    requires
        forall|k: int|
            0 <= k < groups.len() ==> covered(f, texts((#[trigger] groups[k]).members@)),
    ensures
        covered(f, members_in(groups, user)),
    decreases groups.len(),
{
    if groups.len() > 0 {
        let rest = groups.drop_last();
        assert forall|k: int| 0 <= k < rest.len() implies covered(
            f,
            texts((#[trigger] rest[k]).members@),
        ) by {
            assert(rest[k] == groups[k]);
        }
        lemma_roots_covered(f, rest, user);
        let a = members_in(rest, user);
        let b = texts(groups[groups.len() - 1].members@);
        assert forall|i: int| 0 <= i < (a + b).len() implies (f.covers)(#[trigger] (a + b)[i]) by {
            if i < a.len() {
                assert((a + b)[i] == a[i]);
            } else {
                assert((a + b)[i] == b[i - a.len()]);
            }
        }
    }
}

proof fn lemma_deletable_jobs(groups: Seq<Group>, k: int)
    requires
        0 <= k < deletable_jobs(groups).len(),
    ensures
        exists|i: int|
            0 <= i < groups.len() && deletable_jobs(groups)[k] == job_of(&#[trigger] groups[i]),
    decreases groups.len(),
{
    let rest = groups.drop_last();
    if k < deletable_jobs(rest).len() {
        lemma_deletable_jobs(rest, k);
        let i = choose|i: int|
            0 <= i < rest.len() && deletable_jobs(rest)[k] == job_of(&#[trigger] rest[i]);
        assert(groups[i] == rest[i]);
        assert(deletable_jobs(groups)[k] == job_of(&groups[i]));
    } else {
        assert(deletable_jobs(groups)[k] == job_of(&groups[groups.len() - 1]));
    }
}

/// What a summary says may be reclaimed is also the total over the rows of all groups, of which it
/// counts those that may be deleted, each with its whole closure. That holds for any cache that
/// both start from, be it true or not, with stores that answer by the same facts, and whether the
/// dead paths are wanted or not.
pub proof fn law_summary_matches_all_rows(
    store: Store,
    other: Store,
    f: Facts,
    here: spec_fn(Seq<Seq<char>>) -> bool,
    groups: Seq<Group>,
    cache: CacheView,
    rows: Seq<Row>,
    now: u64,
    want: bool,
    dead: Seq<Seq<char>>,
    invalid: spec_fn(Seq<char>) -> bool,
)
    requires
        honest(store, f),
        honest(other, f),
        tells_presence(store, here),
        tells_presence(other, here),
        keys_tell_apart(through(cache.sizes, f)),
        keys_tell_presence(f, here),
        forall|k: int|
            0 <= k < groups.len() ==> ((#[trigger] groups[k]).members@.len() == 0 || listed(
                f,
                texts(groups[k].members@),
            )),
        forall|k: int|
            0 <= k < groups.len() ==> cached_group_size(
                f,
                here,
                cache,
                texts((#[trigger] groups[k]).members@),
            ) <= u64::MAX,
        total(cached_group_sizes(f, here, cache, deletable_jobs(groups))) <= u64::MAX,
        closure_size(
            through(cache.sizes, f),
            members_in(groups, false) + members_in(groups, true),
        ) <= u64::MAX,
        dead_tellable(other, f, cache.sizes, want, dead, invalid),
        rows.len() == groups.len(),
        ({
            let run = groups_from(
                all_jobs(groups),
                0,
                Seq::empty(),
                Seq::empty(),
                cache,
                store,
            ).result;
            run.sizes matches Some(v) && forall|i: int|
                0 <= i < rows.len() ==> (#[trigger] rows[i])@ == row_of(&groups[i], v[i], now)
        }),
    ensures
        reclaimable(rows) == total(cached_group_sizes(f, here, cache, deletable_jobs(groups))),
        survey_run(plan_of(groups), cache, now, want, other).result.outcome matches Outcome::Told(
            s,
        ) && s.reclaimable_bytes == reclaimable(rows),
{
    let size = |j: JobView| cached_group_size(f, here, cache, j.members) as u64;
    let jobs = all_jobs(groups);
    assert forall|k: int| 0 <= k < jobs.len() implies ((#[trigger] jobs[k]).members.len() == 0
        || listed(f, jobs[k].members)) && cached_group_size(f, here, cache, jobs[k].members)
        <= u64::MAX by {
        assert(jobs[k].members == texts(groups[k].members@));
    }
    law_sizes_are_what_the_cache_tells(
        store,
        f,
        here,
        cache,
        jobs,
        0,
        Seq::empty(),
        Seq::empty(),
        cache,
    );
    assert(jobs.skip(0) =~= jobs);
    let v = cached_group_sizes(f, here, cache, jobs);
    assert(Seq::<u64>::empty() + v =~= v);
    assert forall|i: int| 0 <= i < rows.len() implies (#[trigger] rows[i])@ == row_of(
        &groups[i],
        size(job_of(&groups[i])),
        now,
    ) by {
        assert(v[i] == size(jobs[i]));
    }
    lemma_reclaimable_of_all(size, groups, rows, now);
    assert(deletable_jobs(groups).map_values(size) =~= cached_group_sizes(
        f,
        here,
        cache,
        deletable_jobs(groups),
    ));
    let wanted = deletable_jobs(groups);
    assert forall|k: int| 0 <= k < wanted.len() implies ((#[trigger] wanted[k]).members.len() == 0
        || listed(f, wanted[k].members)) && cached_group_size(f, here, cache, wanted[k].members)
        <= u64::MAX by {
        lemma_deletable_jobs(groups, k);
        let i = choose|i: int| 0 <= i < groups.len() && wanted[k] == job_of(&#[trigger] groups[i]);
        assert(wanted[k].members == texts(groups[i].members@));
    }
    assert forall|k: int| 0 <= k < groups.len() implies covered(
        f,
        texts((#[trigger] groups[k]).members@),
    ) by {
        assert(groups[k].members@.len() == 0 || listed(f, texts(groups[k].members@)));
    }
    lemma_roots_covered(f, groups, false);
    lemma_roots_covered(f, groups, true);
    assert(cache_tellable(f, here, cache, plan_of(groups)));
    law_summary_is_what_the_cache_tells(
        other,
        f,
        here,
        plan_of(groups),
        cache,
        now,
        want,
        dead,
        invalid,
    );
}

// ---------------------------------------------------------------------------------------------
// Laws of the calls
// ---------------------------------------------------------------------------------------------

/// Browsing goes before everything else, deleting before printing links, that before JSON; without
/// an option there is the table. Whether a deletion goes without a question is up to `yes` alone.
pub proof fn law_modes(
    tui: bool,
    delete: bool,
    yes: bool,
    print_links: bool,
    json: bool,
    mode: Mode,
)
    requires
        call_ensures(mode_of, (tui, delete, yes, print_links, json), mode),
    ensures
        mode is Tui <==> tui,
        mode is Delete <==> delete && !tui,
        mode is PrintLinks <==> print_links && !delete && !tui,
        mode is Table <==> !tui && !delete && !print_links && !json,
        mode matches Mode::Delete { yes: y } ==> y == yes,
{
}

/// Without a least size or age everything is large and old enough; with one, it is what the value
/// says, and a value that cannot be read is refused with the same words.
pub proof fn law_floors(
    s: &str,
    none: Result<u64, String>,
    some: Result<u64, String>,
    read: Result<u64, String>,
)
    ensures
        call_ensures(size_floor, (None::<&str>,), none) ==> none == Ok::<u64, String>(0),
        call_ensures(age_floor, (None::<&str>,), none) ==> none == Ok::<u64, String>(0),
        call_ensures(size_floor, (Some(s),), some) && call_ensures(parse_size, (s,), read)
            ==> outcome_view(some) == outcome_view(read),
        call_ensures(age_floor, (Some(s),), some) && call_ensures(parse_age, (s,), read)
            ==> outcome_view(some) == outcome_view(read),
{
}

/// A listing has the largest or the oldest groups first, or goes by name from the start; reversed,
/// it is the other way round.
pub proof fn law_listings_start_with_the_most(
    groups: &[&Group],
    sizes: &Vec<u64>,
    min_size: u64,
    now: u64,
    key: SortKey,
    reverse: bool,
    rows: Vec<Row>,
    i: int,
    j: int,
)
    requires
        groups@.len() == sizes@.len(),
        call_ensures(listing, (groups, sizes, min_size, now, key, reverse), rows),
        0 <= i < j < rows@.len(),
    ensures
        key is Size && !reverse ==> rows@[i].size >= rows@[j].size,
        key is Size && reverse ==> rows@[i].size <= rows@[j].size,
        key is Age && !reverse ==> rows@[i].age >= rows@[j].age,
        key is Age && reverse ==> rows@[i].age <= rows@[j].age,
        key is Name && !reverse ==> text_le(rows@[i].loc@, rows@[j].loc@),
        key is Name && reverse ==> text_le(rows@[j].loc@, rows@[i].loc@),
        rows@[i].size >= min_size,
{
    let desc = key.descends() != reverse;
    let all = behind(groups@);
    law_every_large_group_is_listed(rows@, all, sizes@, min_size, now, key, desc);
    assert(before_by_name(rows@[i], rows@[j]) || !before_by_name(rows@[i], rows@[j]));
    assert(shows_large(rows@[i], all, sizes@, min_size, now));
    lemma_lex_reflexive(text_key(rows@[i].loc@));
}

/// The candidates are the groups, in their order, that are old enough, and that may be deleted
/// where only such are wanted.
pub proof fn law_candidates_are_old_enough(
    groups: &[Group],
    shortlist: bool,
    min_age: u64,
    now: u64,
    found: Vec<&Group>,
)
    requires
        call_ensures(candidates, (groups, shortlist, min_age, now), found),
    ensures
        behind(found@) == groups@.filter(
            |g: Group|
                (shortlist ==> g.writable && !g.protected) && (min_age == 0 || g.newest_mtime
                    + min_age <= now),
        ),
{
    law_every_old_enough_group_is_a_candidate(groups@, shortlist, min_age, now);
}

} // verus!
