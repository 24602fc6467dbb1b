use gcan::output::{Removal, Row, SortKey};
use gcan::tui::{centered, resolve_rows, App, Area, Effect, Key};
use gcan::walk::{Group, Kind};

fn row(key: &str, size: u64, age: u64, deletable: bool, protected: bool) -> Row {
    Row {
        size,
        age,
        newest_mtime: 0,
        count: 3,
        loc: key.to_string(),
        kind: "single",
        links: vec![format!("{key}/1"), format!("{key}/2")],
        deletable,
        protected,
        key: key.to_string(),
    }
}

fn rows() -> Vec<Row> {
    vec![
        row("b", 2048, 60, true, false),
        row("sys", 9000, 86_400, false, true),
        row("a", 4096, 3_600, true, false),
        row("root", 10, 7_200, false, false),
        row("tiny", 1, 0, true, false),
    ]
}

fn app(show_all: bool) -> App {
    App::new(rows(), 1000, show_all, 0, 0, SortKey::Size)
}

fn shown(a: &App) -> Vec<&str> {
    a.view.iter().map(|&i| a.rows[i].key.as_str()).collect()
}

fn press(a: &mut App, keys: &str) {
    for c in keys.chars() {
        assert!(matches!(a.handle(Key::Char(c)), Effect::Nothing));
    }
}

#[test]
fn rows_are_shown_by_size_first() {
    let a = app(false);
    assert_eq!(shown(&a), ["a", "b", "tiny"]);
    assert_eq!(a.selected, 0);
    assert_eq!(
        a.status,
        "↑/↓ move · s/n/a sort · r reverse · t toggle · D delete · q quit"
    );
    assert_eq!(shown(&app(true)), ["sys", "a", "b", "root", "tiny"]);
}

#[test]
fn floors_hide_rows() {
    let a = App::new(rows(), 1000, true, 2048, 0, SortKey::Name);
    assert_eq!(shown(&a), ["a", "b", "sys"]);
    let a = App::new(rows(), 1000, true, 0, 3_600, SortKey::Age);
    assert_eq!(shown(&a), ["sys", "root", "a"]);
}

#[test]
fn keys_sort_reverse_and_toggle() {
    let mut a = app(false);
    press(&mut a, "n");
    assert_eq!(shown(&a), ["a", "b", "tiny"]);
    press(&mut a, "n");
    assert_eq!(shown(&a), ["tiny", "b", "a"]);
    press(&mut a, "s");
    assert_eq!(shown(&a), ["a", "b", "tiny"]);
    press(&mut a, "s");
    assert_eq!(shown(&a), ["tiny", "b", "a"]);
    press(&mut a, "a");
    assert_eq!(shown(&a), ["a", "b", "tiny"]);
    press(&mut a, "r");
    assert_eq!(shown(&a), ["tiny", "b", "a"]);
    press(&mut a, "rt");
    assert_eq!(shown(&a), ["sys", "root", "a", "b", "tiny"]);
    press(&mut a, "t");
    assert_eq!(shown(&a), ["a", "b", "tiny"]);
}

#[test]
fn keys_move_the_selection() {
    let mut a = app(false);
    a.handle(Key::Up);
    assert_eq!(a.selected, 0);
    a.handle(Key::Down);
    press(&mut a, "j");
    assert_eq!(a.selected, 2);
    a.handle(Key::Down);
    assert_eq!(a.selected, 2);
    press(&mut a, "k");
    assert_eq!(a.selected, 1);
    a.handle(Key::End);
    assert_eq!(a.selected, 2);
    a.handle(Key::Home);
    assert_eq!(a.selected, 0);
    a.move_sel(isize::MAX);
    assert_eq!(a.selected, 2);
    a.move_sel(isize::MIN);
    assert_eq!(a.selected, 0);
    a.handle(Key::Other);
    press(&mut a, "x?");
    assert_eq!(a.selected, 0);
}

#[test]
fn toggling_keeps_the_selection_in_range() {
    let mut a = app(true);
    a.handle(Key::End);
    assert_eq!(a.selected, 4);
    press(&mut a, "t");
    assert_eq!(a.selected, 2);
    press(&mut a, "t");
    assert_eq!(a.selected, 2);
    assert_eq!(shown(&a), ["sys", "a", "b", "root", "tiny"]);
}

#[test]
fn keys_quit() {
    assert!(matches!(app(false).handle(Key::Char('q')), Effect::Quit));
    assert!(matches!(app(false).handle(Key::Esc), Effect::Quit));
}

#[test]
fn protected_roots_cannot_be_deleted() {
    let mut a = app(true);
    press(&mut a, "D");
    assert_eq!(a.confirm, None);
    assert_eq!(a.status, "cannot delete: protected (current/booted) root");
    a.move_sel(3);
    press(&mut a, "d");
    assert_eq!(a.confirm, None);
    assert_eq!(a.status, "cannot delete: not owned by you (root-owned)");
    let mut none = App::new(Vec::new(), 0, true, 0, 0, SortKey::Size);
    press(&mut none, "Djk");
    assert_eq!(none.status, "nothing to delete");
    assert_eq!(none.selected_row(), None);
    none.handle(Key::End);
    assert_eq!(none.selected, 0);
}

#[test]
fn deletions_are_confirmed() {
    let mut a = app(false);
    press(&mut a, "jD");
    assert_eq!(a.confirm, Some(0));
    let q = a.question().unwrap();
    assert_eq!(q.count, "Delete 2 symlink(s) for:");
    assert_eq!(q.location, "b");
    assert_eq!(q.size, "(2.0KB reclaimable)");
    // Any other key cancels, and does nothing else.
    press(&mut a, "q");
    assert_eq!(a.confirm, None);
    assert_eq!(a.status, "cancelled");
    assert_eq!(a.selected, 1);
    assert!(a.question().is_none());
    press(&mut a, "D");
    let mut removal = match a.handle(Key::Char('y')) {
        Effect::Delete(links) => Removal::start(links),
        _ => panic!("a deletion was wanted"),
    };
    assert_eq!(removal.links, ["b/1", "b/2"]);
    removal.tell(true);
    removal.tell(false);
    assert_eq!(a.confirm, None);
    let mut left = rows();
    left.remove(0);
    a.deleted(left, &removal);
    assert_eq!(shown(&a), ["a", "tiny"]);
    assert_eq!(a.selected, 1);
    assert_eq!(
        a.status,
        "Removed 1/2 symlink(s). Run nix-collect-garbage to reclaim the space."
    );
    press(&mut a, "D");
    assert!(matches!(a.handle(Key::Char('Y')), Effect::Delete(_)));
}

#[test]
fn the_screen_is_described() {
    let mut a = app(true);
    assert_eq!(a.total_reclaimable(), Some(6145));
    assert_eq!(
        a.title(),
        "  ·  5 shown / 5 roots  ·  6.1KB reclaimable  ·  sort: size↓  ·  showing: all"
    );
    let t = a.table();
    assert_eq!(t[0].location, "sys  [protected]");
    assert!(t[0].grey);
    assert_eq!(t[3].location, "root  [root-owned]");
    assert_eq!((t[1].size.as_str(), t[1].age.as_str(), t[1].roots.as_str()), ("4.0KB", "1h", "3"));
    assert_eq!(t[1].location, "a");
    assert!(!t[1].grey);
    press(&mut a, "nrt");
    assert_eq!(
        a.title(),
        "  ·  3 shown / 5 roots  ·  6.1KB reclaimable  ·  sort: name↓  ·  showing: deletable"
    );
    press(&mut a, "r");
    assert!(a.title().contains("sort: name↑"));
}

#[test]
fn rows_are_resolved() {
    let g = Group {
        key: String::from("k"),
        loc: String::from("l"),
        kind: Kind::Direnv,
        members: Vec::new(),
        links: vec![String::from("x")],
        newest_mtime: 400,
        count: 1,
        writable: false,
        protected: false,
    };
    let r = resolve_rows(&[g], &vec![5], 1000);
    assert_eq!((r[0].size, r[0].age, r[0].deletable), (5, 600, false));
}

#[test]
fn areas_are_centered() {
    let area = Area { x: 2, y: 1, width: 81, height: 24 };
    assert_eq!(centered(area, 64, 7), Area { x: 10, y: 9, width: 64, height: 7 });
    assert_eq!(centered(area, 100, 30), area);
}
