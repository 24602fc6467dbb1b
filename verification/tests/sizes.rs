use gcan::cache::Cache;
use gcan::nix::{
    dead_paths, invalid_paths, output, parse_sizes, requisites, sizes, FailureKind, Query, Reply,
    StoreError, CHUNK,
};
use gcan::size::{cached_sizes, checked_total, group_sizes};
use gcan::walk::{Group, Kind};

fn strings(v: &[&str]) -> Vec<String> {
    v.iter().map(|s| s.to_string()).collect()
}

fn said(text: &str) -> Reply {
    Reply::exited(true, text.as_bytes(), b"")
}

fn failed(text: &str) -> Reply {
    Reply::exited(false, b"", text.as_bytes())
}

fn error<T>(kind: FailureKind, message: &str) -> Result<T, StoreError> {
    Err(StoreError { kind, message: message.to_string() })
}

fn refused<T>(message: &str) -> Result<T, StoreError> {
    error(FailureKind::Failed, message)
}

fn invalid<T>(message: &str) -> Result<T, StoreError> {
    error(FailureKind::InvalidData, message)
}

/// A store in which every path is its own closure together with `/nix/store/base`, and has ten
/// bytes for each character of its name.
fn honest(q: &Query) -> Reply {
    match q {
        Query::Present(_) => Reply::Present(true),
        Query::Requisites(p) => {
            let mut text = String::from("/nix/store/base\n");
            for x in p {
                text.push_str(x);
                text.push('\n');
            }
            said(&text)
        }
        Query::Sizes(p) => {
            let mut text = String::new();
            for x in p {
                text.push_str(&format!("{}\n", (x.len() - 11) * 10));
            }
            said(&text)
        }
        Query::Invalid(_) => said(""),
        Query::Dead => said(""),
    }
}

fn group(key: &str, members: &[&str]) -> Group {
    Group {
        key: key.to_string(),
        loc: key.to_string(),
        kind: Kind::Single,
        members: strings(members),
        links: strings(&[key]),
        newest_mtime: 0,
        count: 1,
        writable: true,
        protected: false,
    }
}

/// Sizes groups, counting the questions that go to the Nix store.
fn measure(
    groups: &[&Group],
    cache: Cache,
    store: &dyn Fn(&Query) -> Reply,
) -> (Option<Vec<u64>>, Vec<String>, Cache, usize) {
    let mut run = group_sizes(groups, cache);
    let mut asked = 0;
    while let Some(q) = run.pending() {
        if !matches!(q, Query::Present(_)) {
            asked += 1;
        }
        let reply = store(&q);
        run.feed(reply);
    }
    let (s, w, c) = run.finish();
    (s, w, c, asked)
}

#[test]
fn questions_have_arguments() {
    let p = || strings(&["/nix/store/a", "/nix/store/b"]);
    assert_eq!(
        Query::Requisites(p()).arguments(),
        strings(&["-q", "--requisites", "/nix/store/a", "/nix/store/b"])
    );
    assert_eq!(
        Query::Sizes(p()).arguments(),
        strings(&["-q", "--size", "/nix/store/a", "/nix/store/b"])
    );
    assert_eq!(
        Query::Invalid(p()).arguments(),
        strings(&["--check-validity", "--print-invalid", "/nix/store/a", "/nix/store/b"])
    );
    assert_eq!(Query::Dead.arguments(), strings(&["--gc", "--print-dead"]));
    assert_eq!(Query::Present(p()).arguments(), p());
}

#[test]
fn failures_are_told_in_their_own_words() {
    let q = Query::Sizes(Vec::new());
    assert_eq!(output(&q, said("1\n")), Ok(String::from("1\n")));
    assert_eq!(output(&q, failed("  error: no\n")), refused("error: no"));
    assert_eq!(output(&q, failed(" \n")), refused("nix-store -q --size failed"));
    assert_eq!(
        output(&Query::Requisites(Vec::new()), failed("")),
        refused("nix-store -q --requisites failed")
    );
    assert_eq!(
        output(&Query::Invalid(Vec::new()), failed("")),
        refused("nix-store --check-validity failed")
    );
    assert_eq!(
        output(&Query::Dead, failed("")),
        refused("nix-store --gc --print-dead failed")
    );
    assert_eq!(
        output(&q, Reply::Failed(String::from("not found"))),
        error(FailureKind::NotRun, "not found")
    );
}

#[test]
fn replies_are_decoded() {
    let q = Query::Dead;
    let r = Reply::exited(true, b"a\xffb", b"");
    assert_eq!(output(&q, r), Ok(String::from("a\u{fffd}b")));
}

#[test]
fn closures_are_asked_in_chunks() {
    let paths: Vec<String> = (0..CHUNK + 44).map(|i| format!("/nix/store/{i}")).collect();
    let mut run = requisites(paths.clone());
    let mut seen: Vec<String> = Vec::new();
    let mut sizes: Vec<usize> = Vec::new();
    while let Some(q) = run.pending() {
        if let Query::Requisites(p) = &q {
            sizes.push(p.len());
            seen.extend(p.iter().cloned());
        } else {
            panic!("a closure was wanted");
        }
        run.feed(said("x\ny\n"));
    }
    assert_eq!(sizes, [CHUNK, 44]);
    assert_eq!(seen, paths);
    assert_eq!(run.finish(), Ok(strings(&["x", "y", "x", "y"])));
    assert_eq!(requisites(Vec::new()).finish(), Ok(Vec::new()));
}

#[test]
fn a_failure_ends_the_questions() {
    let paths: Vec<String> = (0..2 * CHUNK).map(|i| format!("/nix/store/{i}")).collect();
    let mut run = requisites(paths);
    run.feed(failed("broken"));
    assert!(run.pending().is_none());
    assert_eq!(run.finish(), refused("broken"));
}

#[test]
fn sizes_are_read_line_by_line() {
    let mut run = sizes(strings(&["/nix/store/a", "/nix/store/b"]));
    run.feed(said(" 12 \n7\n"));
    assert_eq!(run.finish(), Ok(vec![12, 7]));
    let mut run = sizes(strings(&["/nix/store/a", "/nix/store/b"]));
    run.feed(said("12\n"));
    assert_eq!(run.finish(), invalid("size count 1 != path count 2"));
    let mut run = sizes(strings(&["/nix/store/a"]));
    run.feed(said("1\nx\"\n"));
    assert_eq!(run.finish(), invalid("bad size line: \"x\\\"\""));
    assert_eq!(parse_sizes(&strings(&["3"]), vec![1]), Ok(vec![1, 3]));
}

#[test]
fn dead_paths_are_picked_out() {
    let text = "finding garbage collector roots...\n  /nix/store/a \n/nix/store/b\n/tmp/x\n";
    assert_eq!(
        dead_paths(said(text)),
        Ok(strings(&["/nix/store/a", "/nix/store/b"]))
    );
    assert_eq!(dead_paths(failed("locked")), refused("locked"));
}

#[test]
fn invalid_paths_are_asked_for() {
    let mut run = invalid_paths(strings(&["/nix/store/a"]));
    assert!(matches!(run.pending(), Some(Query::Invalid(_))));
    run.feed(said("/nix/store/a\n"));
    assert_eq!(run.finish(), Ok(strings(&["/nix/store/a"])));
}

#[test]
fn known_sizes_are_not_asked_for() {
    let mut cache = Cache::empty();
    cache.sizes.insert(String::from("/nix/store/a"), 5);
    let mut m = cached_sizes(strings(&["/nix/store/b", "/nix/store/a"]), &cache);
    match m.pending() {
        Some(Query::Sizes(p)) => assert_eq!(p, strings(&["/nix/store/b"])),
        _ => panic!("a size was wanted"),
    }
    m.feed(said("9\n"));
    assert_eq!(m.finish(&mut cache), Ok(vec![9, 5]));
    assert_eq!(cache.sizes.get("/nix/store/b"), Some(9));
    let m = cached_sizes(strings(&["/nix/store/b"]), &cache);
    assert!(m.pending().is_none());
    assert_eq!(m.finish(&mut cache), Ok(vec![9]));
}

#[test]
fn sums_are_checked() {
    assert_eq!(checked_total(&vec![1, 2, 3]), Some(6));
    assert_eq!(checked_total(&vec![u64::MAX]), Some(u64::MAX));
    assert_eq!(checked_total(&vec![u64::MAX, 1]), None);
}

#[test]
fn groups_count_each_path_once() {
    let g = group("g", &["/nix/store/a", "/nix/store/bb"]);
    let empty = group("e", &[]);
    let (s, w, c, asked) = measure(&[&g, &empty], Cache::empty(), &honest);
    assert_eq!(s, Some(vec![10 + 20 + 40, 0]));
    assert!(w.is_empty());
    assert_eq!(asked, 2);
    assert_eq!(c.groups.get("/nix/store/a\n/nix/store/bb"), Some(70));
    assert_eq!(c.sizes.get("/nix/store/base"), Some(40));
}

#[test]
fn a_second_run_asks_the_store_nothing() {
    let g = group("g", &["/nix/store/a", "/nix/store/bb"]);
    let h = group("h", &["/nix/store/a"]);
    let (first, _, c, asked) = measure(&[&g, &h], Cache::empty(), &honest);
    assert_eq!(asked, 3);
    let (second, w, c, asked) = measure(&[&g, &h], c, &honest);
    assert_eq!(asked, 0);
    assert_eq!(first, second);
    assert!(w.is_empty());
    let (third, _, _, _) = measure(&[&h, &g], Cache::empty(), &honest);
    assert_eq!(third, Some(vec![50, 70]));
    assert_eq!(c.groups.entries().len(), 2);
}

#[test]
fn a_cached_size_is_dropped_with_its_members() {
    let g = group("g", &["/nix/store/a"]);
    let mut cache = Cache::empty();
    cache.groups.insert(String::from("/nix/store/a"), 999);
    let absent = |q: &Query| match q {
        Query::Present(_) => Reply::Present(false),
        _ => honest(q),
    };
    let (s, _, c, asked) = measure(&[&g], cache, &absent);
    assert_eq!(s, Some(vec![50]));
    assert_eq!(asked, 2);
    assert_eq!(c.groups.get("/nix/store/a"), Some(50));
}

#[test]
fn a_group_without_a_size_is_warned_of() {
    let g = group("g", &["/nix/store/a"]);
    let h = group("h", &["/nix/store/bb"]);
    let broken = |q: &Query| match q {
        Query::Requisites(p) if p[0] == "/nix/store/a" => failed("no such path"),
        _ => honest(q),
    };
    let (s, w, c, _) = measure(&[&g, &h], Cache::empty(), &broken);
    assert_eq!(s, Some(vec![0, 60]));
    assert_eq!(w, strings(&["warning: closure size for g: no such path"]));
    assert_eq!(c.groups.get("/nix/store/a"), None);
    assert_eq!(c.groups.get("/nix/store/bb"), Some(60));
}

#[test]
fn a_size_that_is_too_large_ends_the_run() {
    let g = group("g", &["/nix/store/a"]);
    let huge = |q: &Query| match q {
        Query::Sizes(p) => said(&"18446744073709551615\n".repeat(p.len())),
        _ => honest(q),
    };
    let (s, _, _, _) = measure(&[&g], Cache::empty(), &huge);
    assert_eq!(s, None);
}
