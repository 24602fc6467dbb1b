//! Output modes: table, JSON document, links, deletion.

use std::cmp::Ordering;
use vstd::prelude::*;
use vstd::string::*;

use crate::format::{age_text, human_age, iec_size, size_text};
use crate::number::{decimal, decimal_text};
use crate::sort::{in_order, merge_sort, sorted_from, Preorder};
use crate::text::{
    align_right, copy_strings, law_trimming, lemma_lex_reflexive, lemma_lex_total,
    lemma_lex_transitive, lemma_text_antisymmetric, right_aligned, same_text, text_at_most,
    text_key, text_le, texts, trim, trimmed, white,
};
use crate::walk::Group;

verus! {

// ---------------------------------------------------------------------------------------------
// Rows
// ---------------------------------------------------------------------------------------------

/// Column to sort the listing by.
#[derive(Clone, Copy, PartialEq, Eq, Structural, Debug)]
pub enum SortKey {
    Size,
    Name,
    Age,
}

impl SortKey {
    /// Whether the natural direction of a column is descending.
    pub open spec fn descends(self) -> bool {
        !(self is Name)
    }

    /// The name of a column.
    pub open spec fn name(self) -> Seq<char> {
        match self {
            SortKey::Size => "size"@,
            SortKey::Name => "name"@,
            SortKey::Age => "age"@,
        }
    }

    /// Natural default direction: size/age descending (biggest/oldest first), name ascending.
    pub fn default_desc(self) -> (r: bool)
        ensures
            r == self.descends(),
    {
        match self {
            SortKey::Name => false,
            _ => true,
        }
    }

    pub fn label(self) -> (r: &'static str)
        ensures
            r@ == self.name(),
    {
        match self {
            SortKey::Size => "size",
            SortKey::Name => "name",
            SortKey::Age => "age",
        }
    }
}

/// One displayed group, with its resolved size and age.
pub struct Row {
    pub size: u64,
    pub age: u64,
    pub newest_mtime: u64,
    pub count: usize,
    pub loc: String,
    pub kind: &'static str,
    pub links: Vec<String>,
    pub deletable: bool,
    pub protected: bool,
    pub key: String,
}

/// How long before `now` a moment was; nothing for one that is still to come.
pub open spec fn age_at(now: u64, moment: u64) -> u64 {
    if now >= moment {
        (now - moment) as u64
    } else {
        0
    }
}

/// One displayed group, by its texts.
#[verifier::ext_equal]
pub struct RowView {
    pub size: u64,
    pub age: u64,
    pub newest_mtime: u64,
    pub count: usize,
    pub loc: Seq<char>,
    pub kind: Seq<char>,
    pub links: Seq<Seq<char>>,
    pub deletable: bool,
    pub protected: bool,
    pub key: Seq<char>,
}

impl View for Row {
    type V = RowView;

    open spec fn view(&self) -> RowView {
        RowView {
            size: self.size,
            age: self.age,
            newest_mtime: self.newest_mtime,
            count: self.count,
            loc: self.loc@,
            kind: self.kind@,
            links: texts(self.links@),
            deletable: self.deletable,
            protected: self.protected,
            key: self.key@,
        }
    }
}

/// The row of a group.
pub open spec fn row_of(g: &Group, size: u64, now: u64) -> RowView {
    RowView {
        size,
        age: age_at(now, g.newest_mtime),
        newest_mtime: g.newest_mtime,
        count: g.count,
        loc: g.loc@,
        kind: g.kind.name(),
        links: texts(g.links@),
        deletable: g.may_delete(),
        protected: g.protected,
        key: g.key@,
    }
}

impl Row {
    /// Builds a display row from a group and its resolved closure size.
    pub fn from_group(g: &Group, size: u64, now: u64) -> (r: Row)
        ensures
            r@ == row_of(g, size, now),
    {
        Row {
            size,
            age: now.saturating_sub(g.newest_mtime),
            newest_mtime: g.newest_mtime,
            count: g.count,
            loc: g.loc.clone(),
            kind: g.kind.as_str(),
            links: copy_strings(&g.links),
            deletable: g.deletable(),
            protected: g.protected,
            key: g.key.clone(),
        }
    }
}

// ---------------------------------------------------------------------------------------------
// Order
// ---------------------------------------------------------------------------------------------

/// How two numbers compare.
pub open spec fn number_order(a: u64, b: u64) -> Ordering {
    if a < b {
        Ordering::Less
    } else if a == b {
        Ordering::Equal
    } else {
        Ordering::Greater
    }
}

/// How two texts compare.
pub open spec fn text_order(a: Seq<char>, b: Seq<char>) -> Ordering {
    if a == b {
        Ordering::Equal
    } else if text_le(a, b) {
        Ordering::Less
    } else {
        Ordering::Greater
    }
}

/// A comparison seen from the other side.
pub open spec fn reversed(o: Ordering) -> Ordering {
    match o {
        Ordering::Less => Ordering::Greater,
        Ordering::Equal => Ordering::Equal,
        Ordering::Greater => Ordering::Less,
    }
}

/// The first comparison that tells two things apart.
pub open spec fn first_difference(a: Ordering, b: Ordering) -> Ordering {
    match a {
        Ordering::Equal => b,
        _ => a,
    }
}

/// How two rows compare in a column.
pub open spec fn column_order(a: Row, b: Row, key: SortKey) -> Ordering {
    match key {
        SortKey::Size => number_order(a.size, b.size),
        SortKey::Age => number_order(a.age, b.age),
        SortKey::Name => text_order(a.loc@, b.loc@),
    }
}

/// How two rows compare: by a column, in its direction, then by location, then by group key.
pub open spec fn row_order(a: Row, b: Row, key: SortKey, desc: bool) -> Ordering {
    let base = column_order(a, b, key);
    let first = if desc {
        reversed(base)
    } else {
        base
    };
    first_difference(
        first,
        first_difference(text_order(a.loc@, b.loc@), text_order(a.key@, b.key@)),
    )
}

fn compare_numbers(a: u64, b: u64) -> (r: Ordering)
    ensures
        r == number_order(a, b),
{
    if a < b {
        Ordering::Less
    } else if a == b {
        Ordering::Equal
    } else {
        Ordering::Greater
    }
}

fn compare_texts(a: &str, b: &str) -> (r: Ordering)
    ensures
        r == text_order(a@, b@),
{
    if same_text(a, b) {
        Ordering::Equal
    } else if text_at_most(a, b) {
        Ordering::Less
    } else {
        Ordering::Greater
    }
}

/// Ordering of two rows under the given sort key and direction.
pub fn order(a: &Row, b: &Row, key: SortKey, desc: bool) -> (r: Ordering)
    ensures
        r == row_order(*a, *b, key, desc),
{
    let base = match key {
        SortKey::Size => compare_numbers(a.size, b.size),
        SortKey::Age => compare_numbers(a.age, b.age),
        SortKey::Name => compare_texts(a.loc.as_str(), b.loc.as_str()),
    };
    let first = match (desc, base) {
        (true, Ordering::Less) => Ordering::Greater,
        (true, Ordering::Greater) => Ordering::Less,
        (_, o) => o,
    };
    match first {
        Ordering::Equal => match compare_texts(a.loc.as_str(), b.loc.as_str()) {
            Ordering::Equal => compare_texts(a.key.as_str(), b.key.as_str()),
            o => o,
        },
        o => o,
    }
}

/// The order of rows under a sort key and direction.
pub struct RowOrder {
    pub key: SortKey,
    pub desc: bool,
}

/// Of any two texts, one comes first, and only equal texts come in either order.
proof fn lemma_text_order(a: Seq<char>, b: Seq<char>)
    ensures
        text_order(b, a) == reversed(text_order(a, b)),
        text_order(a, b) == Ordering::Equal <==> a == b,
{
    lemma_lex_total(text_key(a), text_key(b));
    if text_le(a, b) && text_le(b, a) {
        lemma_text_antisymmetric(a, b);
    }
}

proof fn lemma_text_order_transitive(a: Seq<char>, b: Seq<char>, c: Seq<char>)
    ensures
        text_order(a, b) == Ordering::Less && text_order(b, c) == Ordering::Less ==> text_order(
            a,
            c,
        ) == Ordering::Less,
{
    if text_order(a, b) == Ordering::Less && text_order(b, c) == Ordering::Less {
        lemma_lex_transitive(text_key(a), text_key(b), text_key(c));
        if a == c {
            lemma_text_antisymmetric(a, b);
        }
    }
}

impl Preorder<Row> for RowOrder {
    open spec fn le(&self, a: Row, b: Row) -> bool {
        row_order(a, b, self.key, self.desc) != Ordering::Greater
    }

    proof fn total(&self, a: Row, b: Row) {
        lemma_text_order(a.loc@, b.loc@);
        lemma_text_order(a.key@, b.key@);
    }

    proof fn transitive(&self, a: Row, b: Row, c: Row) {
        lemma_text_order(a.loc@, b.loc@);
        lemma_text_order(b.loc@, c.loc@);
        lemma_text_order(a.loc@, c.loc@);
        lemma_text_order(a.key@, b.key@);
        lemma_text_order(b.key@, c.key@);
        lemma_text_order(a.key@, c.key@);
        lemma_text_order_transitive(a.loc@, b.loc@, c.loc@);
        lemma_text_order_transitive(c.loc@, b.loc@, a.loc@);
        lemma_text_order_transitive(a.key@, b.key@, c.key@);
        lemma_text_order_transitive(c.key@, b.key@, a.key@);
    }

    fn test(&self, a: &Row, b: &Row) -> (r: bool) {
        match order(a, b, self.key, self.desc) {
            Ordering::Greater => false,
            _ => true,
        }
    }
}

/// Sorts rows by `key`/`desc`, with a total order (location then group key as tie-breakers).
pub fn sort_rows(rows: &mut Vec<Row>, key: SortKey, desc: bool)
    ensures
        sorted_from(&(RowOrder { key, desc }), final(rows)@, old(rows)@),
{
    let mut taken: Vec<Row> = Vec::new();
    std::mem::swap(rows, &mut taken);
    *rows = merge_sort(&RowOrder { key, desc }, taken);
}

/// Only rows that agree in the column, the location and the group key are not told apart.
pub proof fn law_order_tells_rows_apart(a: Row, b: Row, key: SortKey, desc: bool)
    ensures
        row_order(a, b, key, desc) == Ordering::Equal <==> {
            &&& column_order(a, b, key) == Ordering::Equal
            &&& a.loc@ == b.loc@
            &&& a.key@ == b.key@
        },
        row_order(b, a, key, desc) == reversed(row_order(a, b, key, desc)),
{
    lemma_text_order(a.loc@, b.loc@);
    lemma_text_order(a.key@, b.key@);
}

/// Whether a row comes before another, or with it, where the columns do not tell them apart: by
/// their locations, and by their group keys where these are the same.
pub open spec fn before_by_name(a: Row, b: Row) -> bool {
    if a.loc@ == b.loc@ {
        text_le(a.key@, b.key@)
    } else {
        text_le(a.loc@, b.loc@)
    }
}

/// Whether a row comes before another, or with it: by a number of theirs, the greater one first if
/// `desc`, and by their names where these are the same.
pub open spec fn before_by_number(a: Row, b: Row, x: u64, y: u64, desc: bool) -> bool {
    if x == y {
        before_by_name(a, b)
    } else if desc {
        x > y
    } else {
        x < y
    }
}

/// The order of rows: by size, by age or by location, in either direction; then by location, then
/// by group key.
pub proof fn law_rows_are_ordered_by_their_column(a: Row, b: Row, desc: bool)
    ensures
        (RowOrder { key: SortKey::Size, desc }).le(a, b) <==> before_by_number(
            a,
            b,
            a.size,
            b.size,
            desc,
        ),
        (RowOrder { key: SortKey::Age, desc }).le(a, b) <==> before_by_number(
            a,
            b,
            a.age,
            b.age,
            desc,
        ),
        (RowOrder { key: SortKey::Name, desc: false }).le(a, b) <==> before_by_name(a, b),
        (RowOrder { key: SortKey::Name, desc: true }).le(a, b) <==> if a.loc@ == b.loc@ {
            text_le(a.key@, b.key@)
        } else {
            text_le(b.loc@, a.loc@)
        },
{
    lemma_text_order(a.loc@, b.loc@);
    lemma_text_order(a.key@, b.key@);
    lemma_lex_reflexive(text_key(a.key@));
}

/// Size and age come in descending order by themselves, names in ascending order; and the columns
/// are called by these names.
pub proof fn law_columns()
    ensures
        SortKey::Size.descends(),
        SortKey::Age.descends(),
        !SortKey::Name.descends(),
        SortKey::Size.name() == "size"@,
        SortKey::Age.name() == "age"@,
        SortKey::Name.name() == "name"@,
{
}

/// Whether a row shows a group of a size at a time.
pub open spec fn shows(r: Row, g: Group, size: u64, now: u64) -> bool {
    &&& r.size == size
    &&& g.newest_mtime <= now ==> r.age + g.newest_mtime == now
    &&& g.newest_mtime > now ==> r.age == 0
    &&& r.newest_mtime == g.newest_mtime
    &&& r.count == g.count
    &&& r.loc@ == g.loc@
    &&& r.kind@ == if g.kind is Direnv {
        "direnv"@
    } else {
        "single"@
    }
    &&& texts(r.links@) == texts(g.links@)
    &&& r.deletable == (g.writable && !g.protected)
    &&& r.protected == g.protected
    &&& r.key@ == g.key@
}

/// The row of a group shows the group.
pub proof fn law_rows_show_their_groups(r: Row, g: Group, size: u64, now: u64)
    requires
        r@ == row_of(&g, size, now),
    ensures
        shows(r, g, size, now),
{
}

/// Reversing turns a column around, and nothing else: the order of rows that agree in the column
/// stays.
pub proof fn law_reverse_turns_the_column(a: Row, b: Row, key: SortKey)
    ensures
        column_order(a, b, key) != Ordering::Equal ==> row_order(a, b, key, true) == reversed(
            row_order(a, b, key, false),
        ),
        column_order(a, b, key) == Ordering::Equal ==> row_order(a, b, key, true) == row_order(
            a,
            b,
            key,
            false,
        ),
{
}

/// Whether no two different rows agree in the column, the location and the group key.
pub open spec fn told_apart(s: Seq<Row>, key: SortKey) -> bool {
    forall|i: int, j: int|
        0 <= i < j < s.len() && column_order(#[trigger] s[i], #[trigger] s[j], key)
            == Ordering::Equal && s[i].loc@ == s[j].loc@ && s[i].key@ == s[j].key@ ==> s[i] == s[j]
}

/// Rows in order that can be told apart end with the same row, however they came.
proof fn lemma_same_last_row(a: Seq<Row>, b: Seq<Row>, key: SortKey, desc: bool)
    requires
        in_order(&(RowOrder { key, desc }), a),
        in_order(&(RowOrder { key, desc }), b),
        a.to_multiset() == b.to_multiset(),
        told_apart(a, key),
        a.len() > 0,
        b.len() > 0,
    ensures
        a.last() == b.last(),
{
    broadcast use vstd::seq_lib::group_to_multiset_ensures;

    let c = RowOrder { key, desc };
    let x = a.last();
    let y = b.last();
    assert(a.contains(x));
    assert(b.to_multiset().count(x) > 0);
    assert(b.contains(x));
    let i = choose|i: int| 0 <= i < b.len() && b[i] == x;
    assert(b.contains(y));
    assert(a.to_multiset().count(y) > 0);
    assert(a.contains(y));
    let j = choose|j: int| 0 <= j < a.len() && a[j] == y;
    if x != y {
        assert(c.le(b[i], b[b.len() - 1]));
        assert(c.le(a[j], a[a.len() - 1]));
        law_order_tells_rows_apart(x, y, key, desc);
        assert(a[j] == a[a.len() - 1]);
    }
}

/// Rows stay in order, and can still be told apart, when the last of them goes.
proof fn lemma_rows_but_the_last(a: Seq<Row>, key: SortKey, desc: bool)
    requires
        in_order(&(RowOrder { key, desc }), a),
        a.len() > 0,
    ensures
        in_order(&(RowOrder { key, desc }), a.drop_last()),
        told_apart(a, key) ==> told_apart(a.drop_last(), key),
{
    let c = RowOrder { key, desc };
    let a0 = a.drop_last();
    assert forall|p: int, q: int| 0 <= p < q < a0.len() implies c.le(
        #[trigger] a0[p],
        #[trigger] a0[q],
    ) by {
        assert(a0[p] == a[p] && a0[q] == a[q]);
    }
    if told_apart(a, key) {
        assert forall|p: int, q: int|
            0 <= p < q < a0.len() && column_order(#[trigger] a0[p], #[trigger] a0[q], key)
                == Ordering::Equal && a0[p].loc@ == a0[q].loc@ && a0[p].key@
                == a0[q].key@ implies a0[p] == a0[q] by {
            assert(a0[p] == a[p] && a0[q] == a[q]);
        }
    }
}

/// Sorting rows that can be told apart has one outcome only, however they came. Rows of different
/// groups can: they differ in their location or in their group key.
pub proof fn law_sorting_has_one_outcome(
    a: Seq<Row>,
    b: Seq<Row>,
    key: SortKey,
    desc: bool,
)
    requires
        in_order(&(RowOrder { key, desc }), a),
        in_order(&(RowOrder { key, desc }), b),
        a.to_multiset() == b.to_multiset(),
        told_apart(a, key),
    ensures
        a == b,
    decreases a.len(),
{
    broadcast use vstd::seq_lib::group_to_multiset_ensures;

    assert(a.len() == a.to_multiset().len());
    assert(b.len() == b.to_multiset().len());
    if a.len() == 0 {
        assert(a =~= b);
    } else {
        let a0 = a.drop_last();
        let b0 = b.drop_last();
        lemma_same_last_row(a, b, key, desc);
        assert(a0 =~= a.remove(a.len() - 1));
        assert(b0 =~= b.remove(b.len() - 1));
        lemma_rows_but_the_last(a, key, desc);
        lemma_rows_but_the_last(b, key, desc);
        law_sorting_has_one_outcome(a0, b0, key, desc);
        assert(a =~= a0.push(a.last()));
        assert(b =~= b0.push(b.last()));
    }
}

// ---------------------------------------------------------------------------------------------
// Table
// ---------------------------------------------------------------------------------------------

/// The sum of the sizes of the rows that may be deleted.
pub open spec fn reclaimable(rows: Seq<Row>) -> nat
    decreases rows.len(),
{
    if rows.len() == 0 {
        0
    } else if rows.last().deletable {
        reclaimable(rows.drop_last()) + rows.last().size as nat
    } else {
        reclaimable(rows.drop_last())
    }
}

/// A sum is at least the sum of each of its beginnings.
pub proof fn lemma_reclaimable_grows(s: Seq<Row>, i: int)
    requires
        0 <= i <= s.len(),
    ensures
        reclaimable(s.take(i)) <= reclaimable(s),
    decreases s.len(),
{
    if i == s.len() {
        assert(s.take(i) =~= s);
    } else {
        lemma_reclaimable_grows(s.drop_last(), i);
        assert(s.drop_last().take(i) =~= s.take(i));
    }
}

/// Adds up the sizes of the rows that may be deleted; nothing where the sum exceeds `u64::MAX`.
pub fn total_reclaimable(rows: &[Row]) -> (r: Option<u64>)
    ensures
        match r {
            Some(n) => n == reclaimable(rows@),
            None => reclaimable(rows@) > u64::MAX,
        },
{
    let mut n: u64 = 0;
    let mut i: usize = 0;
    while i < rows.len()
        invariant
            i <= rows@.len(),
            n == reclaimable(rows@.take(i as int)),
        decreases rows.len() - i,
    {
        assert(rows@.take(i + 1).drop_last() =~= rows@.take(i as int));
        assert(rows@.take(i + 1).last() == rows@[i as int]);
        proof {
            lemma_reclaimable_grows(rows@, i + 1);
        }
        if rows[i].deletable {
            match n.checked_add(rows[i].size) {
                None => {
                    return None;
                },
                Some(m) => {
                    n = m;
                },
            }
        }
        i = i + 1;
    }
    assert(rows@.take(rows@.len() as int) =~= rows@);
    Some(n)
}

/// What may be reclaimed adds up: nothing of no rows, the size of a row that may be deleted and
/// nothing of another, and of rows behind others the two sums together.
pub proof fn law_reclaimable_adds_up(a: Seq<Row>, b: Seq<Row>, r: Row)
    ensures
        reclaimable(Seq::empty()) == 0,
        r.deletable ==> reclaimable(seq![r]) == r.size,
        !r.deletable ==> reclaimable(seq![r]) == 0,
        reclaimable(a + b) == reclaimable(a) + reclaimable(b),
    decreases b.len(),
{
    let one = seq![r];
    assert(one.drop_last() =~= Seq::<Row>::empty());
    assert(one.last() == r);
    assert(reclaimable(one) == reclaimable(one.drop_last()) + if r.deletable {
        r.size as nat
    } else {
        0
    });
    if b.len() == 0 {
        assert(a + b =~= a);
    } else {
        law_reclaimable_adds_up(a, b.drop_last(), r);
        assert((a + b).drop_last() =~= a + b.drop_last());
        assert((a + b).last() == b.last());
    }
}

/// One line of the table: three columns to the right of their fields, then the location.
pub open spec fn table_line(a: Seq<char>, b: Seq<char>, c: Seq<char>, d: Seq<char>) -> Seq<char> {
    right_aligned(a, 10) + "  "@ + right_aligned(b, 6) + "  "@ + right_aligned(c, 5) + "  "@ + d
        + "\n"@
}

/// What is put behind the location of a row that may not be deleted, where such rows are marked.
pub open spec fn mark_of(r: Row, marked: bool) -> Seq<char> {
    if marked && !r.deletable {
        if r.protected {
            "  [protected]"@
        } else {
            "  [root-owned]"@
        }
    } else {
        Seq::empty()
    }
}

/// The location of a row with its mark.
pub open spec fn marked_location(r: Row, marked: bool) -> Seq<char> {
    r.loc@ + mark_of(r, marked)
}

/// The line of a row.
pub open spec fn row_line(r: Row, marked: bool) -> Seq<char> {
    table_line(
        size_text(r.size),
        age_text(r.age),
        decimal(r.count as nat),
        marked_location(r, marked),
    )
}

/// The lines of rows.
pub open spec fn row_lines(rows: Seq<Row>, marked: bool) -> Seq<char>
    decreases rows.len(),
{
    if rows.len() == 0 {
        Seq::empty()
    } else {
        row_lines(rows.drop_last(), marked) + row_line(rows.last(), marked)
    }
}

/// The table: a heading, a line for each row, and the total of the rows that may be deleted.
pub open spec fn table_text(rows: Seq<Row>, all: bool) -> Seq<char> {
    table_line("SIZE"@, "AGE"@, "ROOTS"@, "LOCATION"@) + table_line(
        "----"@,
        "---"@,
        "-----"@,
        "--------"@,
    ) + row_lines(rows, all) + table_line("----"@, ""@, ""@, ""@) + table_line(
        size_text(reclaimable(rows) as u64),
        ""@,
        ""@,
        "TOTAL reclaimable (sum of closures; paths shared across groups counted per-group)"@,
    )
}

/// The location of a row is marked only where such rows are marked and it may not be deleted: as
/// protected, or as owned by root.
pub proof fn law_marks(r: Row)
    ensures
        marked_location(r, false) == r.loc@,
        r.deletable ==> marked_location(r, true) == r.loc@,
        !r.deletable && r.protected ==> marked_location(r, true) == r.loc@ + "  [protected]"@,
        !r.deletable && !r.protected ==> marked_location(r, true) == r.loc@ + "  [root-owned]"@,
{
    assert(r.loc@ + Seq::<char>::empty() =~= r.loc@);
}

/// The line of a row: its size, its age and the number of its roots, to the right of fields of ten,
/// six and five characters with two spaces behind each, then its location.
pub proof fn law_row_lines(a: Seq<Row>, b: Seq<Row>, r: Row, marked: bool)
    ensures
        row_lines(seq![r], marked) == right_aligned(size_text(r.size), 10) + "  "@ + right_aligned(
            age_text(r.age),
            6,
        ) + "  "@ + right_aligned(decimal(r.count as nat), 5) + "  "@ + marked_location(r, marked)
            + "\n"@,
        row_lines(a + b, marked) == row_lines(a, marked) + row_lines(b, marked),
    decreases b.len(),
{
    let one = seq![r];
    assert(one.drop_last() =~= Seq::<Row>::empty());
    assert(one.last() == r);
    assert(row_lines(one, marked) == row_lines(one.drop_last(), marked) + row_line(r, marked));
    assert(row_lines(one.drop_last(), marked) == Seq::<char>::empty());
    assert(row_lines(one, marked) =~= row_line(r, marked));
    if b.len() == 0 {
        assert(a + b =~= a);
        assert(row_lines(a, marked) + row_lines(b, marked) =~= row_lines(a, marked));
    } else {
        law_row_lines(a, b.drop_last(), r, marked);
        assert((a + b).drop_last() =~= a + b.drop_last());
        assert((a + b).last() == b.last());
        assert(row_lines(a + b, marked) =~= row_lines(a, marked) + row_lines(b, marked));
    }
}

/// The table: two lines of headings, the lines of the rows, a rule, and the total of the rows that
/// may be deleted.
pub proof fn law_table_holds_rows_and_total(rows: Seq<Row>, all: bool)
    ensures
        ({
            let field = |s: Seq<char>, w: int| right_aligned(s, w) + "  "@;
            let heading = field("SIZE"@, 10) + field("AGE"@, 6) + field("ROOTS"@, 5)
                + "LOCATION"@ + "\n"@;
            let rule = field("----"@, 10) + field("---"@, 6) + field("-----"@, 5) + "--------"@
                + "\n"@;
            let end = field("----"@, 10) + field(""@, 6) + field(""@, 5) + ""@ + "\n"@;
            let sum = field(size_text(reclaimable(rows) as u64), 10) + field(""@, 6) + field(
                ""@,
                5,
            )
                + "TOTAL reclaimable (sum of closures; paths shared across groups counted per-group)"@
                + "\n"@;
            table_text(rows, all) == heading + rule + row_lines(rows, all) + end + sum
        }),
{
    lemma_table_line("SIZE"@, "AGE"@, "ROOTS"@, "LOCATION"@);
    lemma_table_line("----"@, "---"@, "-----"@, "--------"@);
    lemma_table_line("----"@, ""@, ""@, ""@);
    lemma_table_line(
        size_text(reclaimable(rows) as u64),
        ""@,
        ""@,
        "TOTAL reclaimable (sum of closures; paths shared across groups counted per-group)"@,
    );
}

proof fn lemma_table_line(a: Seq<char>, b: Seq<char>, c: Seq<char>, d: Seq<char>)
    ensures
        table_line(a, b, c, d) == (right_aligned(a, 10) + "  "@) + (right_aligned(b, 6) + "  "@) + (
        right_aligned(c, 5) + "  "@) + d + "\n"@,
{
    assert(table_line(a, b, c, d) =~= (right_aligned(a, 10) + "  "@) + (right_aligned(b, 6)
        + "  "@) + (right_aligned(c, 5) + "  "@) + d + "\n"@);
}

/// Writes one line of the table.
fn line(a: &str, b: &str, c: &str, d: &str) -> (r: String)
    ensures
        r@ == table_line(a@, b@, c@, d@),
{
    align_right(a, 10).concat("  ").concat(align_right(b, 6).as_str()).concat("  ").concat(
        align_right(c, 5).as_str(),
    ).concat("  ").concat(d).concat("\n")
}

/// The location of a row, with a mark where it may not be deleted and such rows are marked.
pub fn location(r: &Row, marked: bool) -> (t: String)
    ensures
        t@ == marked_location(*r, marked),
{
    let mut loc = r.loc.clone();
    if marked && !r.deletable {
        if r.protected {
            loc.append("  [protected]");
        } else {
            loc.append("  [root-owned]");
        }
    }
    assert(r.loc@ + Seq::<char>::empty() =~= r.loc@);
    loc
}

/// Renders the human table. Reclaimable total counts deletable rows only.
pub fn render_table(rows: &[Row], all: bool) -> (r: String)
    requires
        reclaimable(rows@) <= u64::MAX,
    ensures
        r@ == table_text(rows@, all),
{
    let mut s = line("SIZE", "AGE", "ROOTS", "LOCATION");
    s.append(line("----", "---", "-----", "--------").as_str());
    let ghost head = s@;
    let mut total: u64 = 0;
    let mut i: usize = 0;
    assert(head + row_lines(rows@.take(0), all) =~= head);
    while i < rows.len()
        invariant
            i <= rows@.len(),
            reclaimable(rows@) <= u64::MAX,
            total == reclaimable(rows@.take(i as int)),
            s@ == head + row_lines(rows@.take(i as int), all),
        decreases rows.len() - i,
    {
        assert(rows@.take(i + 1).drop_last() =~= rows@.take(i as int));
        assert(rows@.take(i + 1).last() == rows@[i as int]);
        proof {
            lemma_reclaimable_grows(rows@, i + 1);
        }
        let r = &rows[i];
        if r.deletable {
            total = total + r.size;
        }
        s.append(
            line(
                iec_size(r.size).as_str(),
                human_age(r.age).as_str(),
                decimal_text(r.count as u64).as_str(),
                location(r, all).as_str(),
            ).as_str(),
        );
        assert(s@ =~= head + row_lines(rows@.take(i + 1), all));
        i = i + 1;
    }
    assert(rows@.take(rows@.len() as int) =~= rows@);
    s.append(line("----", "", "", "").as_str());
    s.append(
        line(
            iec_size(total).as_str(),
            "",
            "",
            "TOTAL reclaimable (sum of closures; paths shared across groups counted per-group)",
        ).as_str(),
    );
    s
}

// ---------------------------------------------------------------------------------------------
// JSON document
// ---------------------------------------------------------------------------------------------

/// One group in the JSON document.
pub struct GroupJson {
    pub location: String,
    pub kind: &'static str,
    pub roots: usize,
    pub size_bytes: u64,
    pub size_human: String,
    pub newest_mtime: u64,
    pub age_seconds: u64,
    pub age_human: String,
    pub deletable: bool,
    pub protected: bool,
    pub links: Vec<String>,
}

/// The JSON document.
pub struct TopJson {
    pub gcroots_dir: String,
    pub now: u64,
    pub groups: Vec<GroupJson>,
    pub total_reclaimable_bytes: u64,
}

/// Whether `g` is the group of the JSON document for a row.
pub open spec fn json_of(g: GroupJson, r: Row) -> bool {
    &&& g.location@ == r.loc@
    &&& g.kind == r.kind
    &&& g.roots == r.count
    &&& g.size_bytes == r.size
    &&& g.size_human@ == size_text(r.size)
    &&& g.newest_mtime == r.newest_mtime
    &&& g.age_seconds == r.age
    &&& g.age_human@ == age_text(r.age)
    &&& g.deletable == r.deletable
    &&& g.protected == r.protected
    &&& texts(g.links@) == texts(r.links@)
}

/// A group of the JSON document says what its row does, and how that reads.
pub proof fn law_json_says_what_rows_show(g: GroupJson, r: Row)
    requires
        json_of(g, r),
    ensures
        g.location@ == r.loc@,
        g.kind@ == r.kind@,
        g.roots == r.count,
        g.size_bytes == r.size,
        g.size_human@ == size_text(r.size),
        g.newest_mtime == r.newest_mtime,
        g.age_seconds == r.age,
        g.age_human@ == age_text(r.age),
        g.deletable == r.deletable,
        g.protected == r.protected,
        texts(g.links@) == texts(r.links@),
{
}

/// What the JSON listing says: each row in its order, and the total of the rows that may be
/// deleted.
pub fn json_listing(rows: &[Row], gcroots_dir: &str, now: u64) -> (r: TopJson)
    requires
        reclaimable(rows@) <= u64::MAX,
    ensures
        r.gcroots_dir@ == gcroots_dir@,
        r.now == now,
        r.groups@.len() == rows@.len(),
        forall|i: int| 0 <= i < rows@.len() ==> json_of(#[trigger] r.groups@[i], rows@[i]),
        r.total_reclaimable_bytes == reclaimable(rows@),
{
    let mut groups: Vec<GroupJson> = Vec::new();
    let mut i: usize = 0;
    while i < rows.len()
        invariant
            i <= rows@.len(),
            groups@.len() == i,
            forall|j: int| 0 <= j < i ==> json_of(#[trigger] groups@[j], rows@[j]),
        decreases rows.len() - i,
    {
        let r = &rows[i];
        groups.push(
            GroupJson {
                location: r.loc.clone(),
                kind: r.kind,
                roots: r.count,
                size_bytes: r.size,
                size_human: iec_size(r.size),
                newest_mtime: r.newest_mtime,
                age_seconds: r.age,
                age_human: human_age(r.age),
                deletable: r.deletable,
                protected: r.protected,
                links: copy_strings(&r.links),
            },
        );
        i = i + 1;
    }
    let total: u64 = match total_reclaimable(rows) {
        Some(n) => n,
        None => 0,
    };
    TopJson {
        gcroots_dir: String::from_str(gcroots_dir),
        now,
        groups,
        total_reclaimable_bytes: total,
    }
}

// ---------------------------------------------------------------------------------------------
// Links and deletion
// ---------------------------------------------------------------------------------------------

/// The indirect symlink paths of rows, row by row.
pub open spec fn row_links(rows: Seq<Row>) -> Seq<Seq<char>>
    decreases rows.len(),
{
    if rows.len() == 0 {
        Seq::empty()
    } else {
        row_links(rows.drop_last()) + texts(rows.last().links@)
    }
}

/// The links of rows are those of each row, one row after the other: none of no rows, and the links
/// of rows behind others come behind theirs.
pub proof fn law_links_come_row_by_row(a: Seq<Row>, b: Seq<Row>, r: Row)
    ensures
        row_links(Seq::empty()) == Seq::<Seq<char>>::empty(),
        row_links(seq![r]) == texts(r.links@),
        row_links(a + b) == row_links(a) + row_links(b),
    decreases b.len(),
{
    let one = seq![r];
    assert(one.drop_last() =~= Seq::<Row>::empty());
    assert(one.last() == r);
    assert(row_links(one) == row_links(one.drop_last()) + texts(r.links@));
    assert(row_links(one.drop_last()) == Seq::<Seq<char>>::empty());
    assert(row_links(one) =~= texts(r.links@));
    if b.len() == 0 {
        assert(a + b =~= a);
        assert(row_links(a) + row_links(b) =~= row_links(a));
    } else {
        law_links_come_row_by_row(a, b.drop_last(), r);
        assert((a + b).drop_last() =~= a + b.drop_last());
        assert((a + b).last() == b.last());
        assert(row_links(a + b) =~= row_links(a) + row_links(b));
    }
}

/// The indirect symlink paths of every row, group by group.
pub fn all_links(rows: &[Row]) -> (r: Vec<String>)
    ensures
        texts(r@) == row_links(rows@),
{
    let mut r: Vec<String> = Vec::new();
    let mut i: usize = 0;
    assert(texts(r@) =~= Seq::<Seq<char>>::empty());
    while i < rows.len()
        invariant
            i <= rows@.len(),
            texts(r@) == row_links(rows@.take(i as int)),
        decreases rows.len() - i,
    {
        assert(rows@.take(i + 1).drop_last() =~= rows@.take(i as int));
        assert(rows@.take(i + 1).last() == rows@[i as int]);
        let ghost before = texts(r@);
        let mut links = copy_strings(&rows[i].links);
        r.append(&mut links);
        assert(texts(r@) =~= before + texts(rows@[i as int].links@));
        i = i + 1;
    }
    assert(rows@.take(rows@.len() as int) =~= rows@);
    r
}

/// Symlinks that are being removed, one after the other.
pub struct Removal {
    pub links: Vec<String>,
    /// How many of them were tried.
    pub tried: usize,
    /// How many of those could not be removed.
    pub failed: usize,
}

/// What to do about a deletion that was asked for.
pub enum Deletion {
    /// There is nothing to delete.
    Nothing,
    /// Ask first.
    Confirm(Removal),
    /// Go ahead.
    Go(Removal),
}

/// What the removal of symlinks is reported as when it is over.
pub open spec fn removal_report(removed: nat, all: nat) -> Seq<char> {
    "Removed "@ + decimal(removed) + "/"@ + decimal(all)
        + " root symlink(s). Run 'nix-collect-garbage' to reclaim the store space."@
}

/// What is asked before symlinks are removed.
pub open spec fn removal_prompt(n: nat) -> Seq<char> {
    "Delete the "@ + decimal(n) + " indirect symlink(s) for the roots above? [y/N] "@
}

impl Removal {
    /// The removal of these symlinks, none of which was tried yet.
    pub fn start(links: Vec<String>) -> (r: Removal)
        ensures
            r.wf(),
            r.links == links,
            r.tried == 0,
            r.failed == 0,
    {
        Removal { links, tried: 0, failed: 0 }
    }

    pub open spec fn wf(self) -> bool {
        self.failed <= self.tried <= self.links@.len()
    }

    /// The question to ask first.
    pub fn prompt(&self) -> (r: String)
        ensures
            r@ == removal_prompt(self.links@.len()),
    {
        String::from_str("Delete the ").concat(decimal_text(self.links.len() as u64).as_str()).concat(
            " indirect symlink(s) for the roots above? [y/N] ",
        )
    }

    /// The symlink to remove next.
    pub fn next_link(&self) -> (r: Option<String>)
        requires
            self.wf(),
        ensures
            match r {
                Some(l) => self.tried < self.links@.len() && l@ == self.links@[self.tried as int]@,
                None => self.tried == self.links@.len(),
            },
    {
        if self.tried < self.links.len() {
            Some(self.links[self.tried].clone())
        } else {
            None
        }
    }

    /// Takes in whether the symlink was removed, and gives the line that reports it.
    pub fn tell(&mut self, removed: bool) -> (r: String)
        requires
            old(self).wf(),
            old(self).tried < old(self).links@.len(),
        ensures
            final(self).wf(),
            final(self).links == old(self).links,
            final(self).tried == old(self).tried + 1,
            final(self).failed == old(self).failed + if removed {
                0int
            } else {
                1
            },
            r@ == if removed {
                "removed "@ + old(self).links@[old(self).tried as int]@
            } else {
                "FAILED  "@ + old(self).links@[old(self).tried as int]@
            },
    {
        let i: usize = self.tried;
        assert(i < self.links.len());
        self.tried = i + 1;
        if removed {
            String::from_str("removed ").concat(self.links[i].as_str())
        } else {
            self.failed = self.failed + 1;
            String::from_str("FAILED  ").concat(self.links[i].as_str())
        }
    }

    /// The report, once all symlinks were tried, and the exit code: zero if all were removed.
    pub fn finish(&self) -> (r: (String, u8))
        requires
            self.wf(),
            self.tried == self.links@.len(),
        ensures
            r.0@ == removal_report(
                (self.links@.len() - self.failed) as nat,
                self.links@.len(),
            ),
            r.1 == if self.failed > 0 {
                1int
            } else {
                0
            },
    {
        let report = String::from_str("Removed ").concat(
            decimal_text((self.links.len() - self.failed) as u64).as_str(),
        ).concat("/").concat(decimal_text(self.links.len() as u64).as_str()).concat(
            " root symlink(s). Run 'nix-collect-garbage' to reclaim the store space.",
        );
        (
            report,
            if self.failed > 0 {
                1
            } else {
                0
            },
        )
    }
}

/// Whether `d` is what to do about the deletion of symlinks: nothing where there are none, and
/// otherwise to try them all, without a question only if `yes`.
pub open spec fn planned(d: Deletion, links: Seq<Seq<char>>, yes: bool) -> bool {
    match d {
        Deletion::Nothing => links.len() == 0,
        Deletion::Confirm(r) => !yes && links.len() > 0 && texts(r.links@) == links && r.tried == 0
            && r.failed == 0,
        Deletion::Go(r) => yes && links.len() > 0 && texts(r.links@) == links && r.tried == 0
            && r.failed == 0,
    }
}

/// Plans to delete the indirect symlinks of `rows` (already the deletable shortlist).
pub fn delete(rows: &[Row], yes: bool) -> (r: Deletion)
    ensures
        planned(r, row_links(rows@), yes),
{
    let links = all_links(rows);
    assert(links@.len() == texts(links@).len());
    if links.len() == 0 {
        return Deletion::Nothing;
    }
    let removal = Removal::start(links);
    if yes {
        Deletion::Go(removal)
    } else {
        Deletion::Confirm(removal)
    }
}

/// Whether an answer is an explicit yes.
pub open spec fn says_yes(answer: Seq<char>) -> bool {
    let t = trimmed(answer);
    t == "y"@ || t == "Y"@ || t == "yes"@ || t == "YES"@
}

/// The exit code of a deletion that removes nothing.
pub open spec fn code_before_removal(d: Deletion, confirmed: bool) -> Option<u8> {
    match d {
        Deletion::Nothing => Some(0u8),
        Deletion::Confirm(_) => if confirmed {
            None
        } else {
            Some(1u8)
        },
        Deletion::Go(_) => None,
    }
}

/// The exit code of a deletion that removes nothing: zero where there is nothing to delete, and
/// one where it has to be confirmed and is not. Where symlinks are removed, [`Removal::finish`]
/// gives the exit code.
pub fn exit_code(d: &Deletion, confirmed: bool) -> (r: Option<u8>)
    ensures
        r == code_before_removal(*d, confirmed),
{
    match d {
        Deletion::Nothing => Some(0),
        Deletion::Confirm(_) => if confirmed {
            None
        } else {
            Some(1)
        },
        Deletion::Go(_) => None,
    }
}

/// Decides whether a deletion is confirmed: there must be a terminal that gave an answer, and the
/// answer must be an explicit yes.
pub fn confirmed(answer: Option<&str>) -> (r: bool)
    ensures
        r == (answer matches Some(a) && says_yes(a@)),
{
    match answer {
        Some(a) => confirm(a),
        None => false,
    }
}

/// Decides whether an answer is an explicit yes.
pub fn confirm(answer: &str) -> (r: bool)
    ensures
        r == says_yes(answer@),
{
    let t = trim(answer);
    let a = t.as_str();
    same_text(a, "y") || same_text(a, "Y") || same_text(a, "yes") || same_text(a, "YES")
}

/// What counts as a yes: `y`, `Y`, `yes` and `YES`, in white space or not, and nothing else.
pub proof fn law_explicit_yes(a: Seq<char>, word: Seq<char>, b: Seq<char>)
    requires
        forall|i: int| 0 <= i < a.len() ==> white(#[trigger] a[i]),
        forall|i: int| 0 <= i < b.len() ==> white(#[trigger] b[i]),
        word.len() > 0 ==> !white(word[0]) && !white(word.last()),
    ensures
        says_yes(a + word + b) <==> {
            ||| word == seq!['y']
            ||| word == seq!['Y']
            ||| word == seq!['y', 'e', 's']
            ||| word == seq!['Y', 'E', 'S']
        },
{
    law_trimming(a, word, b);
    reveal_strlit("y");
    reveal_strlit("Y");
    reveal_strlit("yes");
    reveal_strlit("YES");
    assert("y"@ =~= seq!['y']);
    assert("Y"@ =~= seq!['Y']);
    assert("yes"@ =~= seq!['y', 'e', 's']);
    assert("YES"@ =~= seq!['Y', 'E', 'S']);
}

/// A deletion tries all the links of its rows: at once where it was allowed beforehand, and else
/// behind a question; where there are none there is nothing to do. Nothing to do ends with zero, a
/// question without a yes with one, and everything else goes on.
pub proof fn law_deletions_try_all_links(d: Deletion, links: Seq<Seq<char>>, yes: bool, said: bool)
    requires
        planned(d, links, yes),
    ensures
        links.len() == 0 ==> d is Nothing && code_before_removal(d, said) == Some(0u8),
        links.len() > 0 && yes ==> (d matches Deletion::Go(r) && texts(r.links@) == links && r.tried
            == 0 && r.failed == 0) && code_before_removal(d, said) is None,
        links.len() > 0 && !yes ==> (d matches Deletion::Confirm(r) && texts(r.links@) == links
            && r.tried == 0 && r.failed == 0) && code_before_removal(d, said) == if said {
            None
        } else {
            Some(1u8)
        },
{
}

/// What is asked before symlinks are removed, and what is reported when that is over.
pub proof fn law_removal_texts(removed: nat, all: nat)
    ensures
        removal_prompt(all) == "Delete the "@ + decimal(all)
            + " indirect symlink(s) for the roots above? [y/N] "@,
        removal_report(removed, all) == "Removed "@ + decimal(removed) + "/"@ + decimal(all)
            + " root symlink(s). Run 'nix-collect-garbage' to reclaim the store space."@,
{
}

/// Without a yes nothing is deleted: where a deletion was not allowed beforehand, it either finds
/// nothing to delete and ends with zero, or it ends with one unless a terminal gave a yes.
pub proof fn law_no_deletion_without_a_yes(d: Deletion, links: Seq<Seq<char>>, r: Option<u8>)
    requires
        planned(d, links, false),
        r == code_before_removal(d, false),
    ensures
        links.len() == 0 ==> r == Some(0u8),
        links.len() > 0 ==> r == Some(1u8),
{
}

/// The JSON listing has one entry for each row, in the order of the rows, and the sum of those that
/// may be deleted.
pub proof fn law_json_lists_all_rows(rows: &[Row], dir: &str, now: u64, top: TopJson, i: int)
    requires
        reclaimable(rows@) <= u64::MAX,
        call_ensures(json_listing, (rows, dir, now), top),
        0 <= i < rows@.len(),
    ensures
        top.gcroots_dir@ == dir@,
        top.now == now,
        top.groups@.len() == rows@.len(),
        top.groups@[i].location@ == rows@[i].loc@,
        top.groups@[i].size_bytes == rows@[i].size,
        top.groups@[i].age_seconds == rows@[i].age,
        top.groups@[i].roots == rows@[i].count,
        top.groups@[i].deletable == rows@[i].deletable,
        texts(top.groups@[i].links@) == texts(rows@[i].links@),
        rows@[i].deletable ==> top.total_reclaimable_bytes >= rows@[i].size,
{
    assert(json_of(top.groups@[i], rows@[i]));
    if rows@[i].deletable {
        let a = rows@.take(i);
        let b = rows@.skip(i + 1);
        law_reclaimable_adds_up(a, b, rows@[i]);
        law_reclaimable_adds_up(a.push(rows@[i]), b, rows@[i]);
        assert(a.push(rows@[i]) + b =~= rows@);
    }
}

/// A removal succeeds just where every symlink was removed, and reports how many were; nothing is
/// removed where nobody could be asked.
pub proof fn law_removals(m: Removal, done: (String, u8), answer: &str, said: bool, unsaid: bool)
    requires
        m.wf(),
        m.tried == m.links@.len(),
        call_ensures(Removal::finish, (&m,), done),
        call_ensures(confirmed, (Some(answer),), said),
        call_ensures(confirmed, (None::<&str>,), unsaid),
    ensures
        done.1 == 0 <==> m.failed == 0,
        done.1 <= 1,
        m.failed == 0 ==> done.0@ == "Removed "@ + decimal(m.links@.len()) + "/"@ + decimal(
            m.links@.len(),
        ) + " root symlink(s). Run 'nix-collect-garbage' to reclaim the store space."@,
        said ==> trimmed(answer@).len() > 0,
        !unsaid,
{
    reveal_strlit("y");
    reveal_strlit("Y");
    reveal_strlit("yes");
    reveal_strlit("YES");
}

/// Each symlink that is tried counts once, as removed or as failed, and its line names it.
pub proof fn law_every_attempt_counts(removed: bool, line: String)
    ensures
        forall|m: &mut Removal| #[trigger]
            call_ensures(Removal::tell, (m, removed), line) ==> {
                &&& final(m).links == m.links
                &&& final(m).tried == m.tried + 1
                &&& removed ==> final(m).failed == m.failed
                &&& !removed ==> final(m).failed == m.failed + 1
                &&& line@ == (if removed {
                    "removed "@
                } else {
                    "FAILED  "@
                }) + m.links@[m.tried as int]@
            },
{
}

/// Sorting rows loses none and adds none, and puts the larger, older or later named ones first
/// just where it is to descend.
pub proof fn law_sorting_rows(key: SortKey, desc: bool)
    ensures
        forall|v: &mut Vec<Row>| #[trigger]
            call_ensures(sort_rows, (v, key, desc), ()) ==> {
                &&& final(v)@.to_multiset() == v@.to_multiset()
                &&& forall|i: int, j: int|
                    0 <= i < j < final(v)@.len() ==> {
                        let a = #[trigger] final(v)@[i];
                        let b = #[trigger] final(v)@[j];
                        &&& key is Size ==> if desc {
                            a.size >= b.size
                        } else {
                            a.size <= b.size
                        }
                        &&& key is Age ==> if desc {
                            a.age >= b.age
                        } else {
                            a.age <= b.age
                        }
                        &&& key is Name ==> if desc {
                            text_le(b.loc@, a.loc@)
                        } else {
                            text_le(a.loc@, b.loc@)
                        }
                    }
            },
{
    assert forall|v: &mut Vec<Row>| #[trigger]
        call_ensures(sort_rows, (v, key, desc), ()) implies forall|i: int, j: int|
        0 <= i < j < final(v)@.len() ==> {
            let a = #[trigger] final(v)@[i];
            let b = #[trigger] final(v)@[j];
            &&& key is Size ==> if desc {
                a.size >= b.size
            } else {
                a.size <= b.size
            }
            &&& key is Age ==> if desc {
                a.age >= b.age
            } else {
                a.age <= b.age
            }
            &&& key is Name ==> if desc {
                text_le(b.loc@, a.loc@)
            } else {
                text_le(a.loc@, b.loc@)
            }
        } by {
        let s = final(v)@;
        let c = RowOrder { key, desc };
        assert(sorted_from(&c, s, v@));
        assert forall|i: int, j: int| 0 <= i < j < s.len() implies {
            let a = #[trigger] s[i];
            let b = #[trigger] s[j];
            &&& key is Size ==> if desc {
                a.size >= b.size
            } else {
                a.size <= b.size
            }
            &&& key is Age ==> if desc {
                a.age >= b.age
            } else {
                a.age <= b.age
            }
            &&& key is Name ==> if desc {
                text_le(b.loc@, a.loc@)
            } else {
                text_le(a.loc@, b.loc@)
            }
        } by {
            assert(c.le(s[i], s[j]));
            lemma_lex_reflexive(text_key(s[i].loc@));
            lemma_lex_total(text_key(s[i].loc@), text_key(s[j].loc@));
        }
    }
}

} // verus!
