use gcan::walk::{
    classify, group_entries, is_protected, scan, store_path, Entry, EntryKind, Group, Kind, Probe,
    Walk,
};

#[test]
fn protected_patterns() {
    assert!(is_protected("current"));
    assert!(is_protected("current-system"));
    assert!(is_protected("current-home"));
    assert!(is_protected("booted-system"));
    assert!(is_protected("hm-current"));
    assert!(!is_protected("home-manager-17-link"));
    assert!(!is_protected("result-1"));
    assert!(!is_protected("flake-profile-abc"));
}

#[test]
fn classify_direnv_vs_single() {
    let (k, l, kind) = classify("/home/u/proj/.direnv/flake-inputs/xyz-source");
    assert_eq!(k, "/home/u/proj");
    assert_eq!(l, "/home/u/proj/.direnv/  (direnv)");
    assert!(kind == Kind::Direnv);

    let (k, l, kind) = classify("/home/u/proj/result-1");
    assert_eq!(k, "/home/u/proj/result-1");
    assert_eq!(l, "/home/u/proj/result-1");
    assert!(kind == Kind::Single);
}

#[test]
fn store_path_trim() {
    assert_eq!(
        store_path("/nix/store/abc-foo").as_deref(),
        Some("/nix/store/abc-foo")
    );
    assert_eq!(
        store_path("/nix/store/abc-foo/bin/bar").as_deref(),
        Some("/nix/store/abc-foo")
    );
    assert_eq!(store_path("/run/current-system"), None);
}

#[test]
fn store_path_needs_a_name() {
    assert_eq!(store_path("/nix/store/"), None);
    assert_eq!(store_path("/nix/store//x"), None);
    assert_eq!(store_path("/nix/store"), None);
}

#[test]
fn first_direnv_counts() {
    let (k, l, kind) = classify("/a/.direnv/b/.direnv/c");
    assert_eq!(k, "/a");
    assert_eq!(l, "/a/.direnv/  (direnv)");
    assert!(kind == Kind::Direnv);
    let (k, _, kind) = classify("/a/.direnv");
    assert_eq!(k, "/a/.direnv");
    assert!(kind == Kind::Single);
}

#[test]
fn kinds_have_names() {
    assert_eq!(Kind::Direnv.as_str(), "direnv");
    assert_eq!(Kind::Single.as_str(), "single");
}

fn entry(key: &str, member: Option<&str>, link: &str, mtime: u64) -> Entry {
    Entry {
        key: key.to_string(),
        loc: format!("at {key}"),
        kind: Kind::Single,
        member: member.map(|m| m.to_string()),
        link: link.to_string(),
        mtime,
        writable: true,
        protected: false,
    }
}

#[test]
fn entries_are_grouped_by_key() {
    let mut odd = entry("b", Some("/nix/store/y"), "l3", 5);
    odd.writable = false;
    let mut kept = entry("a", None, "l0", 1);
    kept.protected = true;
    let groups = group_entries(vec![
        entry("b", Some("/nix/store/z"), "l1", 9),
        kept,
        entry("b", Some("/nix/store/y"), "l2", 7),
        odd,
        entry("b", Some("/nix/store/y"), "l1", 2),
    ]);
    assert_eq!(groups.len(), 2);
    assert_eq!(groups[0].key, "a");
    assert_eq!(groups[0].count, 1);
    assert!(groups[0].members.is_empty());
    assert!(groups[0].protected && !groups[0].deletable());
    assert_eq!(groups[1].key, "b");
    assert_eq!(groups[1].loc, "at b");
    assert_eq!(groups[1].members, ["/nix/store/y", "/nix/store/z"]);
    assert_eq!(groups[1].links, ["l1", "l2", "l3"]);
    assert_eq!(groups[1].newest_mtime, 9);
    assert_eq!(groups[1].count, 4);
    assert!(!groups[1].writable && !groups[1].protected);
    assert_eq!(groups[1].member_key(), "/nix/store/y\n/nix/store/z");
}

fn probe(link: &str, indirect: &str, canonical: Option<&str>) -> Probe {
    Probe {
        link: link.as_bytes().to_vec(),
        indirect: indirect.as_bytes().to_vec(),
        present: true,
        canonical: canonical.map(|c| c.as_bytes().to_vec()),
        indirect_mtime: Some(100),
        link_mtime: Some(50),
        writable: Some(true),
    }
}

fn find<'a>(groups: &'a [Group], key: &str) -> &'a Group {
    groups.iter().find(|g| g.key == key).unwrap()
}

#[test]
fn roots_are_scanned() {
    let mut gone = probe("/g/auto/z", "/home/u/gone", Some("/nix/store/g"));
    gone.present = false;
    let mut old = probe("/g/auto/c", "/home/u/old", None);
    old.indirect_mtime = None;
    old.writable = None;
    let mut timeless = probe("/g/auto/d", "/home/u/timeless", Some("/run/x"));
    timeless.indirect_mtime = None;
    timeless.link_mtime = None;
    timeless.writable = Some(false);
    let groups = scan(vec![
        probe("/g/auto/b", "/home/u/p/.direnv/one", Some("/nix/store/one/bin")),
        gone,
        probe("/g/auto/a", "/home/u/p/.direnv/two", Some("/nix/store/two")),
        old,
        timeless,
        probe("/g/current-system", "/run/current-system", Some("/nix/store/sys")),
    ]);
    let keys: Vec<&str> = groups.iter().map(|g| g.key.as_str()).collect();
    assert_eq!(
        keys,
        ["/home/u/old", "/home/u/p", "/home/u/timeless", "/run/current-system"]
    );
    let p = find(&groups, "/home/u/p");
    assert_eq!(p.loc, "/home/u/p/.direnv/  (direnv)");
    assert!(p.kind == Kind::Direnv);
    assert_eq!(p.members, ["/nix/store/one", "/nix/store/two"]);
    assert_eq!(p.links, ["/home/u/p/.direnv/one", "/home/u/p/.direnv/two"]);
    assert_eq!(p.count, 2);
    assert!(p.deletable());
    let old = find(&groups, "/home/u/old");
    assert_eq!(old.newest_mtime, 50);
    assert!(old.members.is_empty());
    assert!(!old.deletable());
    let timeless = find(&groups, "/home/u/timeless");
    assert_eq!(timeless.newest_mtime, 0);
    assert!(!timeless.deletable());
    let system = find(&groups, "/run/current-system");
    assert!(system.protected && !system.deletable());
}

#[test]
fn the_order_of_finding_does_not_show() {
    let all = [
        ("/g/c", "/home/u/p", "/nix/store/x"),
        ("/g/a", "/home/u/p/.direnv/one", "/nix/store/y"),
        ("/g/b", "/home/u/q", "/nix/store/z"),
    ];
    for order in [[0, 1, 2], [2, 1, 0], [1, 0, 2]] {
        let probes = order.map(|i: usize| probe(all[i].0, all[i].1, Some(all[i].2)));
        let groups = scan(probes.into_iter().collect());
        assert_eq!(groups.len(), 2);
        // The symlink that comes first gives the location.
        assert_eq!(groups[0].key, "/home/u/p");
        assert_eq!(groups[0].loc, "/home/u/p/.direnv/  (direnv)");
        assert_eq!(groups[0].members, ["/nix/store/x", "/nix/store/y"]);
        assert_eq!(groups[1].key, "/home/u/q");
    }
}

#[test]
fn bytes_that_are_not_text_are_replaced() {
    let mut p = probe("/g/a", "", Some("/nix/store/x"));
    p.indirect = b"/home/u/\xff".to_vec();
    let groups = scan(vec![p]);
    assert_eq!(groups[0].key, "/home/u/\u{fffd}");
    assert!(!groups[0].protected);

    let mut p = probe("/g/a", "/home/u/r", None);
    p.canonical = Some(b"/nix/store/\xff".to_vec());
    assert!(scan(vec![p])[0].members.is_empty());

    let mut p = probe("/g/a", "", None);
    p.indirect = b"/home/u/current-\xff".to_vec();
    assert!(!scan(vec![p])[0].protected);
}

#[test]
fn trees_are_walked() {
    let mut walk = Walk::start(b"/g".to_vec());
    assert_eq!(walk.next_directory(), Some(b"/g".to_vec()));
    walk.listed(vec![
        (b"/g/link".to_vec(), EntryKind::Symlink),
        (b"/g/auto".to_vec(), EntryKind::Directory),
        (b"/g/file".to_vec(), EntryKind::Other),
    ]);
    assert_eq!(walk.next_directory(), Some(b"/g/auto".to_vec()));
    walk.listed(vec![(b"/g/auto/x".to_vec(), EntryKind::Symlink)]);
    assert_eq!(walk.next_directory(), None);
    assert_eq!(walk.found.len(), 2);
    assert!(walk.found.contains(&b"/g/link".to_vec()));
    assert!(walk.found.contains(&b"/g/auto/x".to_vec()));
}
