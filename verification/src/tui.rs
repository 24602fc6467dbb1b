//! The state of the interactive browser: which rows are shown and in what order, which of them is
//! selected, what a key does, and what stands on the screen.

use vstd::prelude::*;
use vstd::string::*;

use crate::format::{age_text, human_age, iec_size, size_text};
use crate::number::{decimal, decimal_text};
use crate::output::{
    before_by_name, before_by_number, law_rows_are_ordered_by_their_column,
    law_rows_show_their_groups, location, marked_location, reclaimable, row_of, shows,
    total_reclaimable, Removal, Row, RowOrder, SortKey,
};
use crate::sort::{in_order, law_stable_sort_has_one_outcome, merge_sort, sorted_from, Preorder};
use crate::text::{copy_strings, texts};
use crate::walk::Group;

verus! {

// ---------------------------------------------------------------------------------------------
// What is shown
// ---------------------------------------------------------------------------------------------

/// The row at an index.
pub open spec fn row_at(rows: Seq<Row>, i: usize) -> Row {
    rows[i as int]
}

/// Whether an index is one of a row.
pub open spec fn is_row(rows: Seq<Row>, i: usize) -> bool {
    i < rows.len()
}

/// The order of indices of rows, by the rows that they stand for; indices that stand for none come
/// last.
pub struct ViewOrder<'a> {
    pub rows: &'a Vec<Row>,
    pub key: SortKey,
    pub desc: bool,
}

impl<'a> Preorder<usize> for ViewOrder<'a> {
    open spec fn le(&self, a: usize, b: usize) -> bool {
        if is_row(self.rows@, a) && is_row(self.rows@, b) {
            (RowOrder { key: self.key, desc: self.desc }).le(
                row_at(self.rows@, a),
                row_at(self.rows@, b),
            )
        } else {
            !is_row(self.rows@, b)
        }
    }

    proof fn total(&self, a: usize, b: usize) {
        (RowOrder { key: self.key, desc: self.desc }).total(
            row_at(self.rows@, a),
            row_at(self.rows@, b),
        );
    }

    proof fn transitive(&self, a: usize, b: usize, c: usize) {
        if is_row(self.rows@, a) && is_row(self.rows@, b) && is_row(self.rows@, c) {
            (RowOrder { key: self.key, desc: self.desc }).transitive(
                row_at(self.rows@, a),
                row_at(self.rows@, b),
                row_at(self.rows@, c),
            );
        }
    }

    fn test(&self, a: &usize, b: &usize) -> (r: bool) {
        if *a < self.rows.len() && *b < self.rows.len() {
            (RowOrder { key: self.key, desc: self.desc }).test(&self.rows[*a], &self.rows[*b])
        } else {
            *b >= self.rows.len()
        }
    }
}

/// Whether a row is shown.
pub open spec fn fits(r: Row, show_all: bool, min_size: u64, min_age: u64) -> bool {
    (show_all || r.deletable) && r.size >= min_size && r.age >= min_age
}

/// The indices of the rows that are shown, as the rows came.
pub open spec fn shown(rows: Seq<Row>, show_all: bool, min_size: u64, min_age: u64) -> Seq<usize>
    decreases rows.len(),
{
    if rows.len() == 0 {
        Seq::empty()
    } else {
        let before = shown(rows.drop_last(), show_all, min_size, min_age);
        if fits(rows.last(), show_all, min_size, min_age) {
            before.push((rows.len() - 1) as usize)
        } else {
            before
        }
    }
}

/// A selection brought back among `len` rows.
pub open spec fn clamped(selected: int, len: nat) -> int {
    if selected < len {
        selected
    } else if len == 0 {
        0
    } else {
        len - 1
    }
}

// ---------------------------------------------------------------------------------------------
// The browser
// ---------------------------------------------------------------------------------------------

/// The browser.
pub struct App {
    pub now: u64,
    pub rows: Vec<Row>,
    /// Indices into `rows`, filtered and sorted: the visible order.
    pub view: Vec<usize>,
    pub selected: usize,
    pub sort: SortKey,
    pub desc: bool,
    pub show_all: bool,
    /// Persistent predicate floor for the session.
    pub min_size: u64,
    pub min_age: u64,
    /// Index into `rows` of a delete awaiting confirmation.
    pub confirm: Option<usize>,
    pub status: String,
}

/// A key that was pressed.
pub enum Key {
    Char(char),
    Up,
    Down,
    Home,
    End,
    Esc,
    Other,
}

/// What a key asks to be done outside the browser.
pub enum Effect {
    Nothing,
    /// Leave the browser.
    Quit,
    /// Remove these symlinks, scan the roots again and tell the browser.
    Delete(Vec<String>),
}

/// What a key asks to be done, by its texts.
pub enum EffectView {
    Nothing,
    Quit,
    Delete(Seq<Seq<char>>),
}

impl View for Effect {
    type V = EffectView;

    open spec fn view(&self) -> EffectView {
        match self {
            Effect::Nothing => EffectView::Nothing,
            Effect::Quit => EffectView::Quit,
            Effect::Delete(l) => EffectView::Delete(texts(l@)),
        }
    }
}

/// What a key leaves of the state of the browser, and what it asks to be done.
pub struct Next {
    pub sort: SortKey,
    pub desc: bool,
    pub show_all: bool,
    pub selected: int,
    pub confirm: Option<usize>,
    pub status: Seq<char>,
    pub effect: EffectView,
}

/// What the status line says at first.
pub open spec fn greeting() -> Seq<char> {
    "↑/↓ move · s/n/a sort · r reverse · t toggle · D delete · q quit"@
}

/// What the status line says after symlinks were removed.
pub open spec fn deletion_report(removed: nat, all: nat) -> Seq<char> {
    "Removed "@ + decimal(removed) + "/"@ + decimal(all)
        + " symlink(s). Run nix-collect-garbage to reclaim the space."@
}

/// Whether `view` lists the rows that are shown, in their order.
pub open spec fn listed(view: Seq<usize>, app: App) -> bool {
    sorted_from(
        &(ViewOrder { rows: &app.rows, key: app.sort, desc: app.desc }),
        view,
        shown(app.rows@, app.show_all, app.min_size, app.min_age),
    )
}

impl App {
    /// The view lists the rows that are shown, in their order; one of them is selected, if there
    /// are any; and only a row that may be deleted waits for its confirmation.
    pub open spec fn wf(self) -> bool {
        &&& listed(self.view@, self)
        &&& self.selected == clamped(self.selected as int, self.view@.len())
        &&& self.confirm matches Some(i) ==> i < self.rows@.len() && self.rows@[i as int].deletable
    }

    /// Whether `self` and `other` hold the same rows and the same floors.
    pub open spec fn same_rows(self, other: App) -> bool {
        &&& self.now == other.now
        &&& self.rows == other.rows
        &&& self.min_size == other.min_size
        &&& self.min_age == other.min_age
    }

    /// The state as it is, with nothing to do.
    pub open spec fn stays(self) -> Next {
        Next {
            sort: self.sort,
            desc: self.desc,
            show_all: self.show_all,
            selected: self.selected as int,
            confirm: self.confirm,
            status: self.status@,
            effect: EffectView::Nothing,
        }
    }

    /// Sorted by another column in its natural direction, or by the same one the other way round.
    pub open spec fn sorted_by(self, sort: SortKey) -> Next {
        Next {
            sort,
            desc: if self.sort == sort {
                !self.desc
            } else {
                sort.descends()
            },
            ..self.stays()
        }
    }

    /// The selection moved by `delta`, as far as there are rows.
    pub open spec fn moved(self, delta: int) -> int {
        if self.view@.len() == 0 {
            self.selected as int
        } else if self.selected + delta < 0 {
            0
        } else {
            clamped(self.selected + delta, self.view@.len())
        }
    }

    /// The row that is selected, by its index.
    pub open spec fn selection(self) -> Option<usize> {
        if self.selected < self.view@.len() {
            Some(self.view@[self.selected as int])
        } else {
            None
        }
    }

    /// A deletion of the selected row that is asked for: it waits for its confirmation, if it may
    /// be deleted at all.
    pub open spec fn delete_requested(self) -> Next {
        match self.selection() {
            None => Next { status: "nothing to delete"@, ..self.stays() },
            Some(i) => {
                let r = row_at(self.rows@, i);
                if r.deletable {
                    Next { confirm: Some(i), ..self.stays() }
                } else if r.protected {
                    Next {
                        status: "cannot delete: protected (current/booted) root"@,
                        ..self.stays()
                    }
                } else {
                    Next {
                        status: "cannot delete: not owned by you (root-owned)"@,
                        ..self.stays()
                    }
                }
            },
        }
    }

    /// What a key does while a deletion waits for its confirmation: only `y` confirms.
    pub open spec fn answered(self, i: usize, key: Key) -> Next {
        if key == Key::Char('y') || key == Key::Char('Y') {
            Next {
                confirm: None,
                effect: EffectView::Delete(texts(row_at(self.rows@, i).links@)),
                ..self.stays()
            }
        } else {
            Next { confirm: None, status: "cancelled"@, ..self.stays() }
        }
    }

    /// What a key does otherwise.
    pub open spec fn pressed(self, key: Key) -> Next {
        match key {
            Key::Esc => Next { effect: EffectView::Quit, ..self.stays() },
            Key::Down => Next { selected: self.moved(1), ..self.stays() },
            Key::Up => Next { selected: self.moved(-1), ..self.stays() },
            Key::Home => Next { selected: 0, ..self.stays() },
            Key::End => Next {
                selected: clamped(self.view@.len() as int, self.view@.len()),
                ..self.stays()
            },
            Key::Other => self.stays(),
            Key::Char(c) => if c == 'q' {
                Next { effect: EffectView::Quit, ..self.stays() }
            } else if c == 'j' {
                Next { selected: self.moved(1), ..self.stays() }
            } else if c == 'k' {
                Next { selected: self.moved(-1), ..self.stays() }
            } else if c == 's' {
                self.sorted_by(SortKey::Size)
            } else if c == 'n' {
                self.sorted_by(SortKey::Name)
            } else if c == 'a' {
                self.sorted_by(SortKey::Age)
            } else if c == 'r' {
                Next { desc: !self.desc, ..self.stays() }
            } else if c == 't' {
                Next {
                    show_all: !self.show_all,
                    selected: clamped(
                        self.selected as int,
                        shown(self.rows@, !self.show_all, self.min_size, self.min_age).len(),
                    ),
                    ..self.stays()
                }
            } else if c == 'd' || c == 'D' {
                self.delete_requested()
            } else {
                self.stays()
            },
        }
    }

    /// What a key does.
    pub open spec fn next(self, key: Key) -> Next {
        match self.confirm {
            Some(i) => self.answered(i, key),
            None => self.pressed(key),
        }
    }
}

/// Every index that is shown stands for a row that fits.
pub proof fn lemma_shown(rows: Seq<Row>, show_all: bool, min_size: u64, min_age: u64)
    requires
        rows.len() <= usize::MAX,
    ensures
        ({
            let s = shown(rows, show_all, min_size, min_age);
            &&& forall|k: int|
                0 <= k < s.len() ==> #[trigger] s[k] < rows.len() && fits(
                    row_at(rows, s[k]),
                    show_all,
                    min_size,
                    min_age,
                )
            &&& forall|a: int, b: int| 0 <= a < b < s.len() ==> s[a] < s[b]
            &&& forall|i: usize|
                i < rows.len() && fits(row_at(rows, i), show_all, min_size, min_age)
                    ==> #[trigger] s.contains(i)
        }),
    decreases rows.len(),
{
    let s = shown(rows, show_all, min_size, min_age);
    if rows.len() > 0 {
        let rest = rows.drop_last();
        let t = shown(rest, show_all, min_size, min_age);
        lemma_shown(rest, show_all, min_size, min_age);
        let n = (rows.len() - 1) as usize;
        assert forall|k: int| 0 <= k < s.len() implies #[trigger] s[k] < rows.len() && fits(
            row_at(rows, s[k]),
            show_all,
            min_size,
            min_age,
        ) by {
            if k < t.len() {
                assert(s[k] == t[k]);
                assert(row_at(rows, s[k]) == row_at(rest, t[k]));
            }
        }
        assert forall|i: usize|
            i < rows.len() && fits(
                row_at(rows, i),
                show_all,
                min_size,
                min_age,
            ) implies #[trigger] s.contains(i) by {
            if i == n {
                assert(s[s.len() - 1] == i);
            } else {
                assert(row_at(rest, i) == row_at(rows, i));
                assert(t.contains(i));
                let k = choose|k: int| 0 <= k < t.len() && t[k] == i;
                assert(s[k] == i);
            }
        }
    }
}

/// A view lists exactly the rows that are shown.
pub proof fn lemma_listed(view: Seq<usize>, app: App)
    requires
        listed(view, app),
    ensures
        ({
            let s = shown(app.rows@, app.show_all, app.min_size, app.min_age);
            &&& view.len() == s.len()
            &&& forall|i: usize| #[trigger] view.contains(i) <==> s.contains(i)
        }),
{
    broadcast use vstd::seq_lib::group_to_multiset_ensures;

    let s = shown(app.rows@, app.show_all, app.min_size, app.min_age);
    assert(view.len() == view.to_multiset().len());
    assert(s.len() == s.to_multiset().len());
    assert forall|i: usize| #[trigger] view.contains(i) <==> s.contains(i) by {
        assert(view.contains(i) <==> view.to_multiset().count(i) > 0);
        assert(s.contains(i) <==> s.to_multiset().count(i) > 0);
    }
}

impl App {
    /// Recomputes the filtered, sorted view and clamps the selection.
    pub fn rebuild_view(&mut self)
        ensures
            final(self).same_rows(*old(self)),
            final(self).sort == old(self).sort,
            final(self).desc == old(self).desc,
            final(self).show_all == old(self).show_all,
            final(self).confirm == old(self).confirm,
            final(self).status == old(self).status,
            listed(final(self).view@, *final(self)),
            final(self).selected == clamped(old(self).selected as int, final(self).view@.len()),
    {
        let mut view: Vec<usize> = Vec::new();
        let mut i: usize = 0;
        assert(view@ =~= shown(self.rows@.take(0), self.show_all, self.min_size, self.min_age));
        while i < self.rows.len()
            invariant
                i <= self.rows@.len(),
                *self == *old(self),
                view@ == shown(
                    self.rows@.take(i as int),
                    self.show_all,
                    self.min_size,
                    self.min_age,
                ),
            decreases self.rows.len() - i,
        {
            assert(self.rows@.take(i + 1).drop_last() =~= self.rows@.take(i as int));
            let r = &self.rows[i];
            if (self.show_all || r.deletable) && r.size >= self.min_size && r.age >= self.min_age {
                view.push(i);
            }
            i = i + 1;
        }
        assert(self.rows@.take(self.rows@.len() as int) =~= self.rows@);
        let sorted = merge_sort(
            &ViewOrder { rows: &self.rows, key: self.sort, desc: self.desc },
            view,
        );
        self.view = sorted;
        if self.selected >= self.view.len() {
            self.selected = if self.view.len() == 0 {
                0
            } else {
                self.view.len() - 1
            };
        }
    }

    /// A browser of rows.
    pub fn new(
        rows: Vec<Row>,
        now: u64,
        show_all: bool,
        min_size: u64,
        min_age: u64,
        sort: SortKey,
    ) -> (r: App)
        ensures
            r.wf(),
            r.now == now,
            r.rows == rows,
            r.selected == 0,
            r.sort == sort,
            r.desc == sort.descends(),
            r.show_all == show_all,
            r.min_size == min_size,
            r.min_age == min_age,
            r.confirm is None,
            r.status@ == greeting(),
    {
        let mut app = App {
            now,
            rows,
            view: Vec::new(),
            selected: 0,
            sort,
            desc: sort.default_desc(),
            show_all,
            min_size,
            min_age,
            confirm: None,
            status: String::from_str(
                "↑/↓ move · s/n/a sort · r reverse · t toggle · D delete · q quit",
            ),
        };
        app.rebuild_view();
        app
    }

    /// The sum of the sizes of the rows that may be deleted; nothing where it exceeds `u64::MAX`.
    pub fn total_reclaimable(&self) -> (r: Option<u64>)
        ensures
            match r {
                Some(n) => n == reclaimable(self.rows@),
                None => reclaimable(self.rows@) > u64::MAX,
            },
    {
        total_reclaimable(self.rows.as_slice())
    }

    /// Whether `self` is what `next` leaves of `before`.
    pub open spec fn follows(self, before: App, next: Next) -> bool {
        &&& self.wf()
        &&& self.same_rows(before)
        &&& self.sort == next.sort
        &&& self.desc == next.desc
        &&& self.show_all == next.show_all
        &&& self.selected == next.selected
        &&& self.confirm == next.confirm
        &&& self.status@ == next.status
    }

    /// Sorts by another column in its natural direction, or by the same one the other way round.
    pub fn set_sort(&mut self, sort: SortKey)
        requires
            old(self).wf(),
        ensures
            final(self).follows(*old(self), old(self).sorted_by(sort)),
    {
        let ghost before = *self;
        if self.sort == sort {
            self.desc = !self.desc;
        } else {
            self.sort = sort;
            self.desc = sort.default_desc();
        }
        self.rebuild_view();
        proof {
            lemma_listed(before.view@, before);
            lemma_listed(self.view@, *self);
        }
    }

    /// The row that is selected, by its index.
    pub fn selected_row(&self) -> (r: Option<usize>)
        ensures
            r == self.selection(),
    {
        if self.selected < self.view.len() {
            Some(self.view[self.selected])
        } else {
            None
        }
    }

    /// Moves the selection, as far as there are rows.
    pub fn move_sel(&mut self, delta: isize)
        requires
            old(self).wf(),
        ensures
            final(self).follows(
                *old(self),
                (Next { selected: old(self).moved(delta as int), ..old(self).stays() }),
            ),
    {
        if self.view.len() == 0 {
            return ;
        }
        let last: usize = self.view.len() - 1;
        let wanted: i128 = self.selected as i128 + delta as i128;
        self.selected = if wanted < 0 {
            0
        } else if wanted > last as i128 {
            last
        } else {
            wanted as usize
        };
    }

    /// Asks for a deletion of the selected row: it waits for its confirmation, if it may be
    /// deleted at all.
    pub fn request_delete(&mut self)
        requires
            old(self).wf(),
        ensures
            final(self).follows(*old(self), old(self).delete_requested()),
    {
        assert(self.rows.len() == self.rows@.len());
        proof {
            lemma_shown(self.rows@, self.show_all, self.min_size, self.min_age);
            lemma_listed(self.view@, *self);
        }
        match self.selected_row() {
            None => {
                self.status = String::from_str("nothing to delete");
            },
            Some(i) => {
                assert(self.view@.contains(i));
                if self.rows[i].deletable {
                    self.confirm = Some(i);
                } else if self.rows[i].protected {
                    self.status = String::from_str("cannot delete: protected (current/booted) root");
                } else {
                    self.status = String::from_str("cannot delete: not owned by you (root-owned)");
                }
            },
        }
    }

    /// Takes in a key.
    pub fn handle(&mut self, key: Key) -> (r: Effect)
        requires
            old(self).wf(),
        ensures
            final(self).follows(*old(self), old(self).next(key)),
            r@ == old(self).next(key).effect,
    {
        let ghost before = *self;
        if let Some(i) = self.confirm {
            self.confirm = None;
            match key {
                Key::Char('y') | Key::Char('Y') => {
                    return Effect::Delete(copy_strings(&self.rows[i].links));
                },
                _ => {
                    self.status = String::from_str("cancelled");
                    return Effect::Nothing;
                },
            }
        }
        match key {
            Key::Char('q') | Key::Esc => {
                return Effect::Quit;
            },
            Key::Down | Key::Char('j') => {
                self.move_sel(1);
            },
            Key::Up | Key::Char('k') => {
                self.move_sel(-1);
            },
            Key::Home => {
                self.selected = 0;
            },
            Key::End => {
                self.selected = if self.view.len() == 0 {
                    0
                } else {
                    self.view.len() - 1
                };
            },
            Key::Char('s') => {
                self.set_sort(SortKey::Size);
            },
            Key::Char('n') => {
                self.set_sort(SortKey::Name);
            },
            Key::Char('a') => {
                self.set_sort(SortKey::Age);
            },
            Key::Char('r') => {
                self.desc = !self.desc;
                self.rebuild_view();
                proof {
                    lemma_listed(before.view@, before);
                    lemma_listed(self.view@, *self);
                }
            },
            Key::Char('t') => {
                self.show_all = !self.show_all;
                self.rebuild_view();
                proof {
                    lemma_listed(self.view@, *self);
                }
            },
            Key::Char('d') | Key::Char('D') => {
                self.request_delete();
            },
            _ => {},
        }
        Effect::Nothing
    }

    /// Takes in what came of the removal of symlinks, and the rows of a new scan.
    pub fn deleted(&mut self, rows: Vec<Row>, removal: &Removal)
        requires
            old(self).wf(),
            old(self).confirm is None,
            removal.wf(),
            removal.tried == removal.links@.len(),
        ensures
            final(self).wf(),
            final(self).rows == rows,
            final(self).now == old(self).now,
            final(self).min_size == old(self).min_size,
            final(self).min_age == old(self).min_age,
            final(self).sort == old(self).sort,
            final(self).desc == old(self).desc,
            final(self).show_all == old(self).show_all,
            final(self).selected == clamped(old(self).selected as int, final(self).view@.len()),
            final(self).confirm is None,
            final(self).status@ == deletion_report(
                (removal.links@.len() - removal.failed) as nat,
                removal.links@.len(),
            ),
    {
        let all: usize = removal.links.len();
        let removed: usize = all - removal.failed;
        self.rows = rows;
        self.rebuild_view();
        self.status = String::from_str("Removed ").concat(
            decimal_text(removed as u64).as_str(),
        ).concat("/").concat(decimal_text(all as u64).as_str()).concat(
            " symlink(s). Run nix-collect-garbage to reclaim the space.",
        );
    }
}

/// A display row for every group, deletable or not, from their sizes.
pub fn resolve_rows(groups: &[Group], sizes: &Vec<u64>, now: u64) -> (r: Vec<Row>)
    requires
        groups@.len() == sizes@.len(),
    ensures
        r@.len() == groups@.len(),
        forall|i: int|
            0 <= i < r@.len() ==> (#[trigger] r@[i])@ == row_of(&groups@[i], sizes@[i], now),
{
    let mut r: Vec<Row> = Vec::new();
    let mut i: usize = 0;
    while i < groups.len()
        invariant
            groups@.len() == sizes@.len(),
            i <= groups@.len(),
            r@.len() == i,
            forall|j: int|
                0 <= j < i ==> (#[trigger] r@[j])@ == row_of(&groups@[j], sizes@[j], now),
        decreases groups.len() - i,
    {
        r.push(Row::from_group(&groups[i], sizes[i], now));
        i = i + 1;
    }
    r
}

// ---------------------------------------------------------------------------------------------
// The screen
// ---------------------------------------------------------------------------------------------

/// The title line behind the name of the program.
pub open spec fn title_text(app: App) -> Seq<char> {
    "  ·  "@ + decimal(app.view@.len()) + " shown / "@ + decimal(app.rows@.len()) + " roots  ·  "@
        + size_text(reclaimable(app.rows@) as u64) + " reclaimable  ·  sort: "@ + app.sort.name()
        + (if app.desc {
        "↓"@
    } else {
        "↑"@
    }) + "  ·  showing: "@ + (if app.show_all {
        "all"@
    } else {
        "deletable"@
    })
}

/// A line of the table.
pub struct Cells {
    pub size: String,
    pub age: String,
    pub roots: String,
    pub location: String,
    /// Whether it is greyed out.
    pub grey: bool,
}

/// Whether `c` is the line of a row.
pub open spec fn cells_of(c: Cells, r: Row) -> bool {
    &&& c.size@ == size_text(r.size)
    &&& c.age@ == age_text(r.age)
    &&& c.roots@ == decimal(r.count as nat)
    &&& c.location@ == marked_location(r, true)
    &&& c.grey == !r.deletable
}

/// The question that a deletion waits for.
pub struct Question {
    pub count: String,
    pub location: String,
    pub size: String,
}

impl App {
    /// The title line behind the name of the program.
    pub fn title(&self) -> (r: String)
        requires
            reclaimable(self.rows@) <= u64::MAX,
        ensures
            r@ == title_text(*self),
    {
        let total: u64 = match self.total_reclaimable() {
            Some(n) => n,
            None => 0,
        };
        let arrow = if self.desc {
            "↓"
        } else {
            "↑"
        };
        let showing = if self.show_all {
            "all"
        } else {
            "deletable"
        };
        String::from_str("  ·  ").concat(decimal_text(self.view.len() as u64).as_str()).concat(
            " shown / ",
        ).concat(decimal_text(self.rows.len() as u64).as_str()).concat(" roots  ·  ").concat(
            iec_size(total).as_str(),
        ).concat(" reclaimable  ·  sort: ").concat(self.sort.label()).concat(arrow).concat(
            "  ·  showing: ",
        ).concat(showing)
    }

    /// The lines of the table, in the visible order.
    pub fn table(&self) -> (r: Vec<Cells>)
        requires
            self.wf(),
        ensures
            r@.len() == self.view@.len(),
            forall|k: int|
                0 <= k < r@.len() ==> cells_of(
                    #[trigger] r@[k],
                    row_at(self.rows@, self.view@[k]),
                ),
    {
        let mut r: Vec<Cells> = Vec::new();
        let mut k: usize = 0;
        assert(self.rows.len() == self.rows@.len());
        proof {
            lemma_shown(self.rows@, self.show_all, self.min_size, self.min_age);
            lemma_listed(self.view@, *self);
        }
        while k < self.view.len()
            invariant
                k <= self.view@.len(),
                r@.len() == k,
                forall|i: usize| #[trigger] self.view@.contains(i) ==> i < self.rows@.len(),
                forall|j: int|
                    0 <= j < k ==> cells_of(#[trigger] r@[j], row_at(self.rows@, self.view@[j])),
            decreases self.view.len() - k,
        {
            assert(self.view@.contains(self.view@[k as int]));
            let row = &self.rows[self.view[k]];
            r.push(
                Cells {
                    size: iec_size(row.size),
                    age: human_age(row.age),
                    roots: decimal_text(row.count as u64),
                    location: location(row, true),
                    grey: !row.deletable,
                },
            );
            k = k + 1;
        }
        r
    }

    /// The question that a deletion waits for, if one does.
    pub fn question(&self) -> (r: Option<Question>)
        requires
            self.wf(),
        ensures
            match (r, self.confirm) {
                (None, None) => true,
                (Some(q), Some(i)) => {
                    let row = row_at(self.rows@, i);
                    &&& q.count@ == "Delete "@ + decimal(row.links@.len()) + " symlink(s) for:"@
                    &&& q.location@ == row.loc@
                    &&& q.size@ == "("@ + size_text(row.size) + " reclaimable)"@
                },
                _ => false,
            },
    {
        match self.confirm {
            None => None,
            Some(i) => {
                let row = &self.rows[i];
                Some(
                    Question {
                        count: String::from_str("Delete ").concat(
                            decimal_text(row.links.len() as u64).as_str(),
                        ).concat(" symlink(s) for:"),
                        location: row.loc.clone(),
                        size: String::from_str("(").concat(iec_size(row.size).as_str()).concat(
                            " reclaimable)",
                        ),
                    },
                )
            },
        }
    }
}

/// A part of the screen.
#[derive(Clone, Copy, PartialEq, Eq, Structural, Debug)]
pub struct Area {
    pub x: u16,
    pub y: u16,
    pub width: u16,
    pub height: u16,
}

/// The smaller of two lengths.
pub open spec fn at_most(wanted: u16, have: u16) -> u16 {
    if wanted < have {
        wanted
    } else {
        have
    }
}

/// Whether `r` has the given size, or as much of it as there is room for, and stands in the middle
/// of another area.
pub open spec fn is_centered(r: Area, area: Area, w: u16, h: u16) -> bool {
    &&& r.width == at_most(w, area.width)
    &&& r.height == at_most(h, area.height)
    &&& r.x == area.x + (area.width - r.width) / 2
    &&& r.y == area.y + (area.height - r.height) / 2
}

/// An area of the given size, or as much of it as there is room for, in the middle of another.
pub fn centered(area: Area, w: u16, h: u16) -> (r: Area)
    requires
        area.x + (area.width - at_most(w, area.width)) / 2 <= u16::MAX,
        area.y + (area.height - at_most(h, area.height)) / 2 <= u16::MAX,
    ensures
        is_centered(r, area, w, h),
{
    let width: u16 = if w < area.width {
        w
    } else {
        area.width
    };
    let height: u16 = if h < area.height {
        h
    } else {
        area.height
    };
    Area {
        x: area.x + (area.width - width) / 2,
        y: area.y + (area.height - height) / 2,
        width,
        height,
    }
}

// ---------------------------------------------------------------------------------------------
// Laws
// ---------------------------------------------------------------------------------------------

/// The browser shows every row that fits, no other row and none twice, in the order of the column;
/// and the row that is selected is one of them.
pub proof fn law_view_shows_what_fits(app: App)
    requires
        app.wf(),
    ensures
        forall|k: int|
            0 <= k < app.view@.len() ==> #[trigger] app.view@[k] < app.rows@.len() && fits(
                row_at(app.rows@, app.view@[k]),
                app.show_all,
                app.min_size,
                app.min_age,
            ),
        forall|i: usize|
            i < app.rows@.len() && fits(
                row_at(app.rows@, i),
                app.show_all,
                app.min_size,
                app.min_age,
            ) ==> #[trigger] app.view@.contains(i),
        app.view@.no_duplicates(),
        forall|j: int, k: int|
            0 <= j < k < app.view@.len() ==> (RowOrder { key: app.sort, desc: app.desc }).le(
                row_at(app.rows@, #[trigger] app.view@[j]),
                row_at(app.rows@, #[trigger] app.view@[k]),
            ),
        app.view@.len() > 0 ==> app.selection() == Some(app.view@[app.selected as int]),
{
    let s = shown(app.rows@, app.show_all, app.min_size, app.min_age);
    let c = ViewOrder { rows: &app.rows, key: app.sort, desc: app.desc };
    assert(app.rows.len() == app.rows@.len());
    lemma_shown(app.rows@, app.show_all, app.min_size, app.min_age);
    lemma_listed(app.view@, app);
    assert forall|k: int| 0 <= k < app.view@.len() implies #[trigger] app.view@[k]
        < app.rows@.len() && fits(
        row_at(app.rows@, app.view@[k]),
        app.show_all,
        app.min_size,
        app.min_age,
    ) by {
        assert(app.view@.contains(app.view@[k]));
        assert(s.contains(app.view@[k]));
    }
    assert(s.no_duplicates());
    s.lemma_multiset_has_no_duplicates();
    assert(app.view@.no_duplicates()) by {
        app.view@.lemma_multiset_has_no_duplicates_conv();
    }
    assert(in_order(&c, app.view@));
}

/// Only rows that may be deleted are ever deleted, and only behind a question that was answered
/// with a yes: protected roots and roots of others are not.
pub proof fn law_nothing_else_is_deleted(app: App, key: Key)
    requires
        app.wf(),
    ensures
        app.next(key).effect matches EffectView::Delete(links) ==> {
            &&& key == Key::Char('y') || key == Key::Char('Y')
            &&& app.confirm matches Some(i) && i < app.rows@.len() && row_at(
                app.rows@,
                i,
            ).deletable && links == texts(row_at(app.rows@, i).links@)
        },
        app.confirm is None ==> (app.next(key).confirm matches Some(i) ==> {
            &&& key == Key::Char('d') || key == Key::Char('D')
            &&& app.selection() == Some(i)
            &&& row_at(app.rows@, i).deletable
        }),
{
}

/// Any key but a yes leaves all as it was before a deletion was asked for, but for the status line.
pub proof fn law_refusal_changes_nothing(a: App, b: App, c: App, key: Key)
    requires
        a.wf(),
        a.confirm is None,
        b.follows(a, a.next(Key::Char('D'))),
        b.confirm is Some,
        c.follows(b, b.next(key)),
        key != Key::Char('y'),
        key != Key::Char('Y'),
    ensures
        b.next(key).effect is Nothing,
        c.same_rows(a),
        c.view@ == a.view@,
        c.selected == a.selected,
        c.sort == a.sort,
        c.desc == a.desc,
        c.show_all == a.show_all,
        c.confirm is None,
        c.status@ == "cancelled"@,
{
    lemma_one_view(a, c);
}

/// There is one way only to show rows.
proof fn lemma_one_view(a: App, b: App)
    requires
        a.wf(),
        b.wf(),
        a.same_rows(b),
        a.sort == b.sort,
        a.desc == b.desc,
        a.show_all == b.show_all,
    ensures
        a.view@ == b.view@,
{
    law_stable_sort_has_one_outcome(
        &(ViewOrder { rows: &a.rows, key: a.sort, desc: a.desc }),
        a.view@,
        b.view@,
    );
}

/// Reversing twice changes nothing.
pub proof fn law_reversing_twice_changes_nothing(a: App, b: App, c: App)
    requires
        a.wf(),
        a.confirm is None,
        b.follows(a, a.next(Key::Char('r'))),
        c.follows(b, b.next(Key::Char('r'))),
    ensures
        c.same_rows(a),
        c.view@ == a.view@,
        c.selected == a.selected,
        c.sort == a.sort,
        c.desc == a.desc,
        c.show_all == a.show_all,
        c.confirm is None,
        c.status@ == a.status@,
{
    lemma_one_view(a, c);
}

/// Toggling twice shows the same rows in the same order again; the selection stays where the rows
/// that may be deleted reach as far.
pub proof fn law_toggling_twice_shows_the_same(a: App, b: App, c: App)
    requires
        a.wf(),
        a.confirm is None,
        b.follows(a, a.next(Key::Char('t'))),
        c.follows(b, b.next(Key::Char('t'))),
    ensures
        c.same_rows(a),
        c.view@ == a.view@,
        c.sort == a.sort,
        c.desc == a.desc,
        c.show_all == a.show_all,
        c.confirm is None,
        c.status@ == a.status@,
        a.selected < b.view@.len() ==> c.selected == a.selected,
{
    lemma_one_view(a, c);
    lemma_listed(a.view@, a);
    lemma_listed(b.view@, b);
    lemma_listed(c.view@, c);
}

/// A centered area lies within the other, and the margins on both sides differ by one at most.
pub proof fn law_centered_lies_within(area: Area, w: u16, h: u16, r: Area)
    requires
        is_centered(r, area, w, h),
    ensures
        area.x <= r.x,
        r.x + r.width <= area.x + area.width,
        area.y <= r.y,
        r.y + r.height <= area.y + area.height,
        0 <= (area.x + area.width - (r.x + r.width)) - (r.x - area.x) <= 1,
        0 <= (area.y + area.height - (r.y + r.height)) - (r.y - area.y) <= 1,
{
}

/// The browser shows a row if it may be deleted or all are shown, and it is large and old enough;
/// it shows each of these once, in the order of the column.
pub proof fn law_view_is_filtered_and_sorted(app: App)
    requires
        app.wf(),
    ensures
        forall|i: usize|
            #[trigger] app.view@.contains(i) <==> i < app.rows@.len() && (app.show_all
                || app.rows@[i as int].deletable) && app.rows@[i as int].size >= app.min_size
                && app.rows@[i as int].age >= app.min_age,
        app.view@.no_duplicates(),
        forall|j: int, k: int|
            0 <= j < k < app.view@.len() ==> {
                let a = app.rows@[#[trigger] app.view@[j] as int];
                let b = app.rows@[#[trigger] app.view@[k] as int];
                match app.sort {
                    SortKey::Size => before_by_number(a, b, a.size, b.size, app.desc),
                    SortKey::Age => before_by_number(a, b, a.age, b.age, app.desc),
                    SortKey::Name => if a.loc@ == b.loc@ || !app.desc {
                        before_by_name(a, b)
                    } else {
                        before_by_name(b, a)
                    },
                }
            },
        app.view@.len() > 0 ==> app.selected < app.view@.len() && app.selection() == Some(
            app.view@[app.selected as int],
        ),
        app.view@.len() == 0 ==> app.selected == 0 && app.selection() is None,
{
    law_view_shows_what_fits(app);
    assert forall|i: usize|
        #[trigger] app.view@.contains(i) <==> i < app.rows@.len() && (app.show_all
            || app.rows@[i as int].deletable) && app.rows@[i as int].size >= app.min_size
            && app.rows@[i as int].age >= app.min_age by {
        if app.view@.contains(i) {
            let k = choose|k: int| 0 <= k < app.view@.len() && app.view@[k] == i;
            assert(fits(row_at(app.rows@, app.view@[k]), app.show_all, app.min_size, app.min_age));
        }
        if i < app.rows@.len() {
            assert(row_at(app.rows@, i) == app.rows@[i as int]);
        }
    }
    assert forall|j: int, k: int| 0 <= j < k < app.view@.len() implies {
        let a = app.rows@[#[trigger] app.view@[j] as int];
        let b = app.rows@[#[trigger] app.view@[k] as int];
        match app.sort {
            SortKey::Size => before_by_number(a, b, a.size, b.size, app.desc),
            SortKey::Age => before_by_number(a, b, a.age, b.age, app.desc),
            SortKey::Name => if a.loc@ == b.loc@ || !app.desc {
                before_by_name(a, b)
            } else {
                before_by_name(b, a)
            },
        }
    } by {
        let a = app.rows@[app.view@[j] as int];
        let b = app.rows@[app.view@[k] as int];
        law_rows_are_ordered_by_their_column(a, b, app.desc);
        assert((RowOrder { key: app.sort, desc: app.desc }).le(
            row_at(app.rows@, app.view@[j]),
            row_at(app.rows@, app.view@[k]),
        ));
    }
}

/// Whether a key leaves all as it is, but for the selection and what it asks to be done.
pub open spec fn only_selects(app: App, n: Next) -> bool {
    &&& n.sort == app.sort
    &&& n.desc == app.desc
    &&& n.show_all == app.show_all
    &&& n.confirm == app.confirm
    &&& n.status == app.status@
}

/// The keys that move: one row down or up, as far as there are rows, to the first row and to the
/// last; and those that quit.
pub proof fn law_keys_that_move(app: App)
    requires
        app.wf(),
        app.confirm is None,
    ensures
        forall|key: Key|
            key == Key::Down || key == Key::Char('j') ==> {
                let n = #[trigger] app.next(key);
                &&& only_selects(app, n) && n.effect is Nothing
                &&& app.selected + 1 < app.view@.len() ==> n.selected == app.selected + 1
                &&& app.selected + 1 >= app.view@.len() ==> n.selected == app.selected
            },
        forall|key: Key|
            key == Key::Up || key == Key::Char('k') ==> {
                let n = #[trigger] app.next(key);
                &&& only_selects(app, n) && n.effect is Nothing
                &&& app.selected > 0 ==> n.selected == app.selected - 1
                &&& app.selected == 0 ==> n.selected == 0
            },
        only_selects(app, app.next(Key::Home)),
        app.next(Key::Home).selected == 0,
        app.next(Key::Home).effect is Nothing,
        only_selects(app, app.next(Key::End)),
        app.view@.len() > 0 ==> app.next(Key::End).selected == app.view@.len() - 1,
        app.view@.len() == 0 ==> app.next(Key::End).selected == 0,
        app.next(Key::End).effect is Nothing,
        forall|key: Key|
            key == Key::Esc || key == Key::Char('q') ==> {
                let n = #[trigger] app.next(key);
                &&& only_selects(app, n) && n.effect is Quit
                &&& n.selected == app.selected
            },
{
}

/// Whether a key sorts by a column: in its own direction, or turned around where it was sorted by
/// already; size and age descend by themselves.
pub open spec fn sorts_by(app: App, n: Next, column: SortKey) -> bool {
    &&& n.sort == column
    &&& n.desc == if app.sort == column {
        !app.desc
    } else {
        !(column is Name)
    }
    &&& n.show_all == app.show_all
    &&& n.selected == app.selected
    &&& n.confirm is None
    &&& n.effect is Nothing
    &&& n.status == app.status@
}

/// The keys that sort: a column that was not sorted by comes in its own direction, the one that was
/// is turned around, and so is any column by `r`; and the one that shows all roots or not.
pub proof fn law_keys_that_sort(app: App)
    requires
        app.wf(),
        app.confirm is None,
    ensures
        sorts_by(app, app.next(Key::Char('s')), SortKey::Size),
        sorts_by(app, app.next(Key::Char('n')), SortKey::Name),
        sorts_by(app, app.next(Key::Char('a')), SortKey::Age),
        ({
            let n = app.next(Key::Char('r'));
            &&& n.sort == app.sort && n.desc == !app.desc && n.show_all == app.show_all
            &&& n.selected == app.selected && n.confirm is None && n.effect is Nothing
            &&& n.status == app.status@
        }),
        ({
            let n = app.next(Key::Char('t'));
            let fit = app.rows@.filter(
                |r: Row|
                    (!app.show_all || r.deletable) && r.size >= app.min_size && r.age
                        >= app.min_age,
            ).len();
            &&& n.sort == app.sort && n.desc == app.desc && n.show_all == !app.show_all
            &&& n.confirm is None && n.effect is Nothing && n.status == app.status@
            &&& app.selected < fit ==> n.selected == app.selected
            &&& app.selected >= fit && fit > 0 ==> n.selected == fit - 1
            &&& fit == 0 ==> n.selected == 0
        }),
{
    lemma_shown_count(app.rows@, !app.show_all, app.min_size, app.min_age);
}

proof fn lemma_shown_count(rows: Seq<Row>, show_all: bool, min_size: u64, min_age: u64)
    ensures
        shown(rows, show_all, min_size, min_age).len() == rows.filter(
            |r: Row| (show_all || r.deletable) && r.size >= min_size && r.age >= min_age,
        ).len(),
    decreases rows.len(),
{
    reveal(Seq::filter);
    if rows.len() > 0 {
        lemma_shown_count(rows.drop_last(), show_all, min_size, min_age);
    }
}

/// The key that deletes: a row that may be deleted waits for its confirmation, and for another row,
/// or for none, the status line says why it does not.
pub proof fn law_key_that_deletes(app: App, key: Key)
    requires
        app.wf(),
        app.confirm is None,
        key == Key::Char('d') || key == Key::Char('D'),
    ensures
        ({
            let n = app.next(key);
            &&& n.sort == app.sort && n.desc == app.desc && n.show_all == app.show_all
            &&& n.selected == app.selected && n.effect is Nothing
            &&& app.view@.len() == 0 ==> n.confirm is None && n.status == "nothing to delete"@
            &&& app.view@.len() > 0 ==> {
                let i = app.view@[app.selected as int];
                let r = app.rows@[i as int];
                &&& r.deletable ==> n.confirm == Some(i) && n.status == app.status@
                &&& !r.deletable ==> n.confirm is None && n.status == if r.protected {
                    "cannot delete: protected (current/booted) root"@
                } else {
                    "cannot delete: not owned by you (root-owned)"@
                }
            }
        }),
{
}

/// While a deletion waits, `y` and `Y` ask for the removal of the links of its row, and any other
/// key calls it off; other keys than those that are known do nothing.
pub proof fn law_confirmation(app: App, i: usize, key: Key)
    requires
        app.wf(),
    ensures
        app.confirm == Some(i) && (key == Key::Char('y') || key == Key::Char('Y')) ==> {
            let n = app.next(key);
            &&& n.effect == EffectView::Delete(texts(app.rows@[i as int].links@))
            &&& n.confirm is None && n.selected == app.selected && n.status == app.status@
            &&& n.sort == app.sort && n.desc == app.desc && n.show_all == app.show_all
        },
        app.confirm == Some(i) && key != Key::Char('y') && key != Key::Char('Y') ==> {
            let n = app.next(key);
            &&& n.effect is Nothing
            &&& n.confirm is None && n.selected == app.selected && n.status == "cancelled"@
            &&& n.sort == app.sort && n.desc == app.desc && n.show_all == app.show_all
        },
        app.confirm is None && (key is Other || (key matches Key::Char(c) && !seq![
            'q',
            'j',
            'k',
            's',
            'n',
            'a',
            'r',
            't',
            'd',
            'D',
        ].contains(c))) ==> only_selects(app, app.next(key)) && app.next(key).effect is Nothing
            && app.next(key).selected == app.selected,
{
    let known = seq!['q', 'j', 'k', 's', 'n', 'a', 'r', 't', 'd', 'D'];
    assert(known[0] == 'q' && known[1] == 'j' && known[2] == 'k' && known[3] == 's');
    assert(known[4] == 'n' && known[5] == 'a' && known[6] == 'r' && known[7] == 't');
    assert(known[8] == 'd' && known[9] == 'D');
}

/// A selection stays where it is while there are rows as far, and goes to the last row where there
/// are fewer, and to the first place where there are none.
pub proof fn law_selection_stays_among_rows(selected: nat, len: nat)
    ensures
        selected < len ==> clamped(selected as int, len) == selected,
        selected >= len && len > 0 ==> clamped(selected as int, len) == len - 1,
        len == 0 ==> clamped(selected as int, len) == 0,
{
}

/// The cells of a row, and what is said of the screen and of what was deleted.
pub proof fn law_screen_texts(app: App, c: Cells, r: Row, removed: nat, all: nat)
    requires
        cells_of(c, r),
    ensures
        c.size@ == size_text(r.size),
        c.age@ == age_text(r.age),
        c.roots@ == decimal(r.count as nat),
        c.location@ == marked_location(r, true),
        c.grey <==> !r.deletable,
        deletion_report(removed, all) == "Removed "@ + decimal(removed) + "/"@ + decimal(all)
            + " symlink(s). Run nix-collect-garbage to reclaim the space."@,
        title_text(app) == "  ·  "@ + decimal(app.view@.len()) + " shown / "@ + decimal(
            app.rows@.len(),
        ) + " roots  ·  "@ + size_text(reclaimable(app.rows@) as u64)
            + " reclaimable  ·  sort: "@ + (match app.sort {
            SortKey::Size => "size"@,
            SortKey::Age => "age"@,
            SortKey::Name => "name"@,
        }) + (if app.desc {
            "↓"@
        } else {
            "↑"@
        }) + "  ·  showing: "@ + (if app.show_all {
            "all"@
        } else {
            "deletable"@
        }),
{
}

/// A centered area is as wide and as high as was asked for, or as there is room for.
pub proof fn law_centered_has_its_size(area: Area, w: u16, h: u16, r: Area)
    requires
        is_centered(r, area, w, h),
    ensures
        w <= area.width ==> r.width == w,
        w > area.width ==> r.width == area.width,
        h <= area.height ==> r.height == h,
        h > area.height ==> r.height == area.height,
{
}

/// The browser starts with all that it is given, at the first row, in the natural direction of the
/// column, with nothing to confirm.
pub proof fn law_browser_starts_at_the_top(
    rows: Vec<Row>,
    now: u64,
    show_all: bool,
    min_size: u64,
    min_age: u64,
    sort: SortKey,
    app: App,
)
    requires
        call_ensures(App::new, (rows, now, show_all, min_size, min_age, sort), app),
    ensures
        app.wf(),
        app.rows == rows,
        app.now == now,
        app.selected == 0,
        app.show_all == show_all,
        app.min_size == min_size,
        app.min_age == min_age,
        app.sort == sort,
        app.desc == !(sort is Name),
        app.confirm is None,
{
}

/// The browser has one row for each group, in the order of the groups, protected ones among them.
pub proof fn law_browser_has_all_groups(
    groups: &[Group],
    sizes: &Vec<u64>,
    now: u64,
    rows: Vec<Row>,
    i: int,
)
    requires
        groups@.len() == sizes@.len(),
        call_ensures(resolve_rows, (groups, sizes, now), rows),
        0 <= i < groups@.len(),
    ensures
        rows@.len() == groups@.len(),
        shows(rows@[i], groups@[i], sizes@[i], now),
{
    law_rows_show_their_groups(rows@[i], groups@[i], sizes@[i], now);
}

/// What is asked before a deletion is about the row to delete: how many symlinks, where, and how
/// much; and nothing is asked where nothing is to be deleted.
pub proof fn law_question_is_about_the_row(app: App, asked: Option<Question>)
    requires
        app.wf(),
        call_ensures(App::question, (&app,), asked),
    ensures
        asked is Some <==> app.confirm is Some,
        app.confirm matches Some(i) ==> (asked matches Some(q) && {
            &&& i < app.rows@.len()
            &&& app.rows@[i as int].deletable
            &&& q.location@ == app.rows@[i as int].loc@
            &&& q.count@ == "Delete "@ + decimal(app.rows@[i as int].links@.len())
                + " symlink(s) for:"@
            &&& q.size@ == "("@ + size_text(app.rows@[i as int].size) + " reclaimable)"@
        }),
{
}

/// The screen shows the rows of the view, line by line.
pub proof fn law_screen_shows_the_view(app: App, lines: Vec<Cells>, k: int)
    requires
        app.wf(),
        call_ensures(App::table, (&app,), lines),
        0 <= k < app.view@.len(),
    ensures
        lines@.len() == app.view@.len(),
        ({
            let r = app.rows@[app.view@[k] as int];
            &&& lines@[k].size@ == size_text(r.size)
            &&& lines@[k].age@ == age_text(r.age)
            &&& lines@[k].roots@ == decimal(r.count as nat)
            &&& lines@[k].grey == !r.deletable
        }),
{
    assert(cells_of(lines@[k], row_at(app.rows@, app.view@[k])));
}

/// What follows a key is nothing but what the key asks for: the rows and the limits stay, and the
/// rest is as it is said to be.
pub proof fn law_keys_do_what_they_ask_for(before: App, after: App, next: Next)
    requires
        after.follows(before, next),
    ensures
        after.rows == before.rows,
        after.now == before.now,
        after.min_size == before.min_size,
        after.min_age == before.min_age,
        after.sort == next.sort,
        after.desc == next.desc,
        after.show_all == next.show_all,
        after.selected == next.selected,
        after.confirm == next.confirm,
        after.status@ == next.status,
        after.view@.len() > 0 ==> after.selected < after.view@.len(),
{
}

/// The browser has symlinks removed only where a row waits for its confirmation and the key is an
/// explicit yes, and then just those of that row; and it leaves only where none waits, by `q` or
/// escape.
pub proof fn law_browser_deletes_only_what_was_confirmed(key: Key, effect: Effect)
    ensures
        forall|app: &mut App| #[trigger]
            call_ensures(App::handle, (app, key), effect) ==> {
                let yes = key == Key::Char('y') || key == Key::Char('Y');
                &&& final(app).rows == app.rows
                &&& effect is Delete <==> app.confirm is Some && yes
                &&& (effect matches Effect::Delete(l) ==> (app.confirm matches Some(i) && texts(l@)
                    == texts(app.rows@[i as int].links@)))
                &&& effect is Quit <==> app.confirm is None && (key == Key::Char('q') || key
                    == Key::Esc)
                &&& app.confirm is Some ==> final(app).confirm is None
            },
{
    assert forall|app: &mut App| #[trigger] call_ensures(App::handle, (app, key), effect) implies {
        let yes = key == Key::Char('y') || key == Key::Char('Y');
        &&& effect is Delete <==> app.confirm is Some && yes
        &&& (effect matches Effect::Delete(l) ==> (app.confirm matches Some(i) && texts(l@) == texts(
            app.rows@[i as int].links@,
        )))
        &&& effect is Quit <==> app.confirm is None && (key == Key::Char('q') || key == Key::Esc)
    } by {
        assert(effect@ == app.next(key).effect);
    }
}

/// After a deletion the browser shows the new rows, and reports how many symlinks were removed;
/// its column, its direction and its limits stay.
pub proof fn law_browser_goes_on_after_a_deletion(rows: Vec<Row>, removal: &Removal)
    ensures
        forall|app: &mut App| #[trigger]
            call_ensures(App::deleted, (app, rows, removal), ()) ==> {
                &&& final(app).rows == rows
                &&& final(app).sort == app.sort
                &&& final(app).desc == app.desc
                &&& final(app).show_all == app.show_all
                &&& final(app).min_size == app.min_size
                &&& final(app).min_age == app.min_age
                &&& final(app).confirm is None
                &&& app.selected < final(app).view@.len() ==> final(app).selected == app.selected
                &&& 0 < final(app).view@.len() <= app.selected ==> final(app).selected + 1
                    == final(app).view@.len()
                &&& removal.failed == 0 ==> final(app).status@ == "Removed "@ + decimal(
                    removal.links@.len(),
                ) + "/"@ + decimal(removal.links@.len())
                    + " symlink(s). Run nix-collect-garbage to reclaim the space."@
            },
{
}

} // verus!
