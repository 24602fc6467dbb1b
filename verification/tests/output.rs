use std::cmp::Ordering;

use gcan::list::{age_floor, candidates, listing, mode_of, shortlist_only, size_floor, Mode};
use gcan::output::{
    all_links, confirm, confirmed, delete, exit_code, json_listing, order, render_table, sort_rows,
    total_reclaimable, Deletion, Row, SortKey,
};
use gcan::walk::{Group, Kind};

fn strings(v: &[&str]) -> Vec<String> {
    v.iter().map(|s| s.to_string()).collect()
}

fn row(key: &str, size: u64, age: u64) -> Row {
    Row {
        size,
        age,
        newest_mtime: 5,
        count: 1,
        loc: key.to_string(),
        kind: "single",
        links: strings(&[key]),
        deletable: true,
        protected: false,
        key: key.to_string(),
    }
}

fn keys(rows: &[Row]) -> Vec<&str> {
    rows.iter().map(|r| r.key.as_str()).collect()
}

fn group(key: &str, mtime: u64, writable: bool, protected: bool) -> Group {
    Group {
        key: key.to_string(),
        loc: format!("at {key}"),
        kind: Kind::Direnv,
        members: strings(&["/nix/store/x"]),
        links: strings(&[key, "other"]),
        newest_mtime: mtime,
        count: 2,
        writable,
        protected,
    }
}

#[test]
fn columns_have_directions_and_names() {
    assert!(SortKey::Size.default_desc());
    assert!(SortKey::Age.default_desc());
    assert!(!SortKey::Name.default_desc());
    assert_eq!(SortKey::Size.label(), "size");
    assert_eq!(SortKey::Name.label(), "name");
    assert_eq!(SortKey::Age.label(), "age");
}

#[test]
fn rows_come_from_groups() {
    let g = group("/p", 400, true, false);
    let r = Row::from_group(&g, 9, 1000);
    assert_eq!((r.size, r.age, r.newest_mtime, r.count), (9, 600, 400, 2));
    assert_eq!((r.loc.as_str(), r.kind, r.key.as_str()), ("at /p", "direnv", "/p"));
    assert_eq!(r.links, strings(&["/p", "other"]));
    assert!(r.deletable && !r.protected);
    assert_eq!(Row::from_group(&g, 9, 100).age, 0);
}

#[test]
fn rows_are_ordered_by_column_location_and_key() {
    let a = row("a", 1, 9);
    let b = row("b", 2, 9);
    assert_eq!(order(&a, &b, SortKey::Size, false), Ordering::Less);
    assert_eq!(order(&a, &b, SortKey::Size, true), Ordering::Greater);
    assert_eq!(order(&a, &b, SortKey::Age, true), Ordering::Less);
    assert_eq!(order(&a, &b, SortKey::Age, false), Ordering::Less);
    assert_eq!(order(&a, &b, SortKey::Name, false), Ordering::Less);
    assert_eq!(order(&a, &b, SortKey::Name, true), Ordering::Greater);
    let mut c = row("a", 1, 9);
    assert_eq!(order(&a, &c, SortKey::Size, true), Ordering::Equal);
    c.key = String::from("z");
    assert_eq!(order(&a, &c, SortKey::Size, true), Ordering::Less);
    assert_eq!(order(&c, &a, SortKey::Size, true), Ordering::Greater);
}

#[test]
fn rows_are_sorted_the_same_however_they_came() {
    let make = |order: [usize; 4]| -> Vec<Row> {
        let all = [("a", 5, 1), ("b", 5, 2), ("c", 9, 3), ("d", 1, 2)];
        order.iter().map(|&i| row(all[i].0, all[i].1, all[i].2)).collect()
    };
    for o in [[0, 1, 2, 3], [3, 2, 1, 0], [2, 0, 3, 1]] {
        let mut rows = make(o);
        sort_rows(&mut rows, SortKey::Size, true);
        assert_eq!(keys(&rows), ["c", "a", "b", "d"]);
        sort_rows(&mut rows, SortKey::Size, false);
        assert_eq!(keys(&rows), ["d", "a", "b", "c"]);
        sort_rows(&mut rows, SortKey::Age, true);
        assert_eq!(keys(&rows), ["c", "b", "d", "a"]);
        sort_rows(&mut rows, SortKey::Name, true);
        assert_eq!(keys(&rows), ["d", "c", "b", "a"]);
    }
}

#[test]
fn tables_are_rendered() {
    let mut kept = row("/run/current-system", 2048, 86_400);
    kept.deletable = false;
    kept.protected = true;
    let mut other = row("/root/x", 10, 60);
    other.deletable = false;
    let rows = vec![row("/home/u/r", 1536, 3_600), kept, other];
    let expected = [
        "      SIZE     AGE  ROOTS  LOCATION",
        "      ----     ---  -----  --------",
        "     1.5KB      1h      1  /home/u/r",
        "     2.0KB      1d      1  /run/current-system  [protected]",
        "       10B      1m      1  /root/x  [root-owned]",
        "      ----                 ",
        "     1.5KB                 TOTAL reclaimable (sum of closures; paths shared across groups counted per-group)",
        "",
    ];
    assert_eq!(render_table(&rows, true), expected.join("\n"));
    assert!(!render_table(&rows, false).contains("["));
    assert_eq!(total_reclaimable(&rows), Some(1536));
    assert_eq!(total_reclaimable(&[row("a", u64::MAX, 0), row("b", 1, 0)]), None);
}

#[test]
fn documents_hold_the_rows() {
    let mut kept = row("k", 7, 60);
    kept.deletable = false;
    let doc = json_listing(&[row("a", 1536, 3_600), kept], "/g", 42);
    assert_eq!((doc.gcroots_dir.as_str(), doc.now), ("/g", 42));
    assert_eq!(doc.total_reclaimable_bytes, 1536);
    assert_eq!(doc.groups.len(), 2);
    let g = &doc.groups[0];
    assert_eq!((g.location.as_str(), g.kind, g.roots), ("a", "single", 1));
    assert_eq!((g.size_bytes, g.size_human.as_str()), (1536, "1.5KB"));
    assert_eq!((g.newest_mtime, g.age_seconds), (5, 3_600));
    assert_eq!(g.age_human, "1h");
    assert!(g.deletable && !g.protected);
    assert_eq!(g.links, strings(&["a"]));
    assert!(!doc.groups[1].deletable);
}

#[test]
fn links_are_listed_group_by_group() {
    let mut a = row("a", 1, 0);
    a.links = strings(&["a1", "a2"]);
    assert_eq!(all_links(&[a, row("b", 1, 0)]), strings(&["a1", "a2", "b"]));
}

#[test]
fn deletions_are_planned_and_reported() {
    assert!(matches!(delete(&[], true), Deletion::Nothing));
    let rows = || [row("a", 1, 0), row("b", 2, 0)];
    match delete(&rows(), false) {
        Deletion::Confirm(d) => assert_eq!(
            d.prompt(),
            "Delete the 2 indirect symlink(s) for the roots above? [y/N] "
        ),
        _ => panic!("a question was wanted"),
    }
    let mut d = match delete(&rows(), true) {
        Deletion::Go(d) => d,
        _ => panic!("no question was wanted"),
    };
    assert_eq!(d.next_link().as_deref(), Some("a"));
    assert_eq!(d.tell(true), "removed a");
    assert_eq!(d.next_link().as_deref(), Some("b"));
    assert_eq!(d.tell(false), "FAILED  b");
    assert_eq!(d.next_link(), None);
    let (report, code) = d.finish();
    assert_eq!(
        report,
        "Removed 1/2 root symlink(s). Run 'nix-collect-garbage' to reclaim the store space."
    );
    assert_eq!(code, 1);
    let mut d = match delete(&[row("a", 1, 0)], true) {
        Deletion::Go(d) => d,
        _ => panic!("no question was wanted"),
    };
    d.tell(true);
    assert_eq!(d.finish().1, 0);
}

#[test]
fn only_a_yes_confirms() {
    for yes in ["y", "Y\n", " yes ", "YES\r\n"] {
        assert!(confirm(yes));
    }
    for no in ["", "n", "Yes", "yES", "yy", "no\n"] {
        assert!(!confirm(no));
    }
}

#[test]
fn no_terminal_means_no() {
    assert!(confirmed(Some("y\n")));
    assert!(!confirmed(Some("")));
    assert!(!confirmed(Some("n\n")));
    assert!(!confirmed(None));
}

#[test]
fn deletions_that_remove_nothing_have_exit_codes() {
    let rows = [row("a", 1, 0)];
    assert_eq!(exit_code(&delete(&[], false), false), Some(0));
    assert_eq!(exit_code(&delete(&[], true), true), Some(0));
    assert_eq!(exit_code(&delete(&rows, false), false), Some(1));
    assert_eq!(exit_code(&delete(&rows, false), true), None);
    assert_eq!(exit_code(&delete(&rows, true), false), None);
}

#[test]
fn totals_over_all_rows_count_what_may_be_deleted() {
    let groups = [
        group("a", 100, true, false),
        group("b", 900, true, true),
        group("c", 100, true, false),
    ];
    let all: Vec<&Group> = groups.iter().collect();
    let rows = listing(&all, &vec![10, 30, 20], 0, 1000, SortKey::Size, false);
    assert_eq!(rows.len(), 3);
    assert_eq!(total_reclaimable(&rows), Some(30));
}

#[test]
fn options_choose_a_mode() {
    assert_eq!(mode_of(true, false, false, false, false), Mode::Tui);
    assert_eq!(mode_of(false, true, true, false, false), Mode::Delete { yes: true });
    assert_eq!(mode_of(false, false, false, true, false), Mode::PrintLinks);
    assert_eq!(mode_of(false, false, false, false, true), Mode::Json);
    assert_eq!(mode_of(false, false, false, false, false), Mode::Table);
    assert!(shortlist_only(Mode::Table, false));
    assert!(!shortlist_only(Mode::Table, true));
    assert!(!shortlist_only(Mode::Json, true));
    assert!(shortlist_only(Mode::PrintLinks, true));
    assert!(shortlist_only(Mode::Delete { yes: false }, true));
}

#[test]
fn floors_are_read() {
    assert_eq!(size_floor(None), Ok(0));
    assert_eq!(size_floor(Some("2K")), Ok(2048));
    assert_eq!(size_floor(Some("2Q")).unwrap_err(), "invalid size unit in: \"2Q\"");
    assert_eq!(age_floor(None), Ok(0));
    assert_eq!(age_floor(Some("2d")), Ok(172_800));
    assert_eq!(age_floor(Some("x")).unwrap_err(), "invalid age unit in: \"x\"");
}

#[test]
fn candidates_come_before_sizes() {
    let groups = [
        group("a", 100, true, false),
        group("b", 900, true, false),
        group("c", 100, false, false),
        group("d", 100, true, true),
    ];
    let names = |v: Vec<&Group>| -> Vec<String> { v.iter().map(|g| g.key.clone()).collect() };
    assert_eq!(names(candidates(&groups, true, 0, 1000)), strings(&["a", "b"]));
    assert_eq!(names(candidates(&groups, true, 500, 1000)), strings(&["a"]));
    assert_eq!(names(candidates(&groups, false, 500, 1000)), strings(&["a", "c", "d"]));
}

#[test]
fn listings_are_filtered_and_sorted() {
    let groups = [
        group("a", 100, true, false),
        group("b", 900, true, false),
        group("c", 100, true, false),
    ];
    let found = candidates(&groups, true, 0, 1000);
    let sizes = vec![10, 30, 20];
    let rows = listing(&found, &sizes, 15, 1000, SortKey::Size, false);
    assert_eq!(keys(&rows), ["b", "c"]);
    let rows = listing(&found, &sizes, 0, 1000, SortKey::Size, true);
    assert_eq!(keys(&rows), ["a", "c", "b"]);
    let rows = listing(&found, &sizes, 0, 1000, SortKey::Name, false);
    assert_eq!(keys(&rows), ["a", "b", "c"]);
    assert_eq!(total_reclaimable(&rows), Some(60));
}
