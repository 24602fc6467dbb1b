use gcan::cache::{default_path, temp_file, temp_path, Cache, SizeTable, VERSION};

fn bytes(s: &str) -> Vec<u8> {
    s.as_bytes().to_vec()
}

#[test]
fn tables_remember_sizes() {
    let mut t = SizeTable::new();
    assert_eq!(t.get("a"), None);
    t.insert(String::from("b"), 2);
    t.insert(String::from("a"), 1);
    t.insert(String::from("b"), 3);
    assert_eq!(t.get("a"), Some(1));
    assert_eq!(t.get("b"), Some(3));
    assert_eq!(t.entries(), vec![(String::from("b"), 3), (String::from("a"), 1)]);
}

#[test]
fn caches_of_another_version_are_dropped() {
    let mut c = Cache::empty();
    c.sizes.insert(String::from("/nix/store/x"), 7);
    let c = Cache::load(Some(c));
    assert_eq!(c.version, VERSION);
    assert_eq!(c.sizes.get("/nix/store/x"), Some(7));
    let mut c = c;
    c.version = VERSION + 1;
    let c = Cache::load(Some(c));
    assert_eq!(c.version, VERSION);
    assert_eq!(c.sizes.get("/nix/store/x"), None);
    assert!(Cache::load(None).groups.entries().is_empty());
}

#[test]
fn cache_stands_in_the_cache_directory() {
    assert_eq!(
        default_path(Some(bytes("/x/cache")), Some(bytes("/home/u"))),
        bytes("/x/cache/gcan/cache.json")
    );
    assert_eq!(
        default_path(None, Some(bytes("/home/u"))),
        bytes("/home/u/.cache/gcan/cache.json")
    );
    assert_eq!(
        default_path(Some(Vec::new()), Some(bytes("/home/u"))),
        bytes("/home/u/.cache/gcan/cache.json")
    );
}

#[test]
fn caches_are_written_beside_their_place() {
    assert_eq!(temp_path(b"/c/gcan/cache.json"), bytes("/c/gcan/cache.json.tmp"));
    assert_eq!(temp_path(b"/c/gcan/\xff"), "/c/gcan/\u{fffd}.tmp".as_bytes().to_vec());
    assert_eq!(temp_file(b"/c/gcan/cache.json", "other"), bytes("/c/gcan/other.tmp"));
}
