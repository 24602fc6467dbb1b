use gcan::cache::Cache;
use gcan::nix::{Query, Reply};
use gcan::output::{total_reclaimable, Row};
use gcan::size::group_sizes;
use gcan::summary::{
    compute, is_user_scoped, render_table, scope, Ending, Pinned, Scope, Summary,
};
use gcan::walk::{Group, Kind};

fn links(paths: &[&str]) -> Vec<String> {
    paths.iter().map(|p| p.to_string()).collect()
}

#[test]
fn scope_split_by_link_path() {
    // Per-user profiles and anything under a home are user-scoped.
    assert!(is_user_scoped(&links(&[
        "/nix/var/nix/profiles/per-user/jacek/profile-7-link"
    ])));
    assert!(is_user_scoped(&links(&["/home/jacek/dev/proj/result"])));
    assert!(is_user_scoped(&links(&[
        "/home/jacek/dev/proj/.direnv/flake-inputs/xyz-source"
    ])));
    // System profile generations and the running-system links are system.
    assert!(!is_user_scoped(&links(&[
        "/nix/var/nix/profiles/system-181-link"
    ])));
    assert!(!is_user_scoped(&links(&[
        "/nix/var/nix/gcroots/booted-system"
    ])));
    // A group counts as user if any of its links is user-scoped.
    assert!(is_user_scoped(&links(&[
        "/nix/var/nix/profiles/system-181-link",
        "/home/jacek/dev/proj/result",
    ])));
}

fn group(link: &str, members: &[&str], deletable: bool) -> Group {
    Group {
        key: link.to_string(),
        loc: link.to_string(),
        kind: Kind::Single,
        members: links(members),
        links: links(&[link]),
        newest_mtime: 0,
        count: 1,
        writable: deletable,
        protected: false,
    }
}

fn said(text: &str) -> Reply {
    Reply::exited(true, text.as_bytes(), b"")
}

/// Every path needs `/nix/store/libc`; sizes are a hundred for each character of the name.
fn store(q: &Query) -> Reply {
    match q {
        Query::Present(_) => Reply::Present(true),
        Query::Requisites(p) => {
            let mut text = String::new();
            for x in p {
                text.push_str(&format!("/nix/store/libc\n{x}\n"));
            }
            said(&text)
        }
        Query::Sizes(p) => {
            let mut text = String::new();
            for x in p {
                assert_ne!(x, "/nix/store/void", "the size of an invalid path is unknown");
                text.push_str(&format!("{}\n", (x.len() - 11) * 100));
            }
            said(&text)
        }
        Query::Invalid(p) => {
            let gone: Vec<String> = p.iter().filter(|x| x.ends_with("void")).cloned().collect();
            said(&gone.join("\n"))
        }
        Query::Dead => said("looking...\n/nix/store/dead\n/nix/store/void\n/nix/store/d2\n"),
    }
}

fn survey(
    groups: &[Group],
    cache: Cache,
    want: bool,
    store: &dyn Fn(&Query) -> Reply,
) -> (Ending, Vec<String>, Cache, Vec<Query>) {
    let mut run = compute(groups, cache, 77, want);
    let mut asked = Vec::new();
    while let Some(q) = run.pending() {
        let reply = store(&q);
        asked.push(q);
        let before = run.warnings_so_far().clone();
        run.feed(reply);
        assert!(run.warnings_so_far().starts_with(&before));
    }
    let (e, w, c) = run.finish();
    (e, w, c, asked)
}

fn groups() -> Vec<Group> {
    vec![
        group("/home/u/a", &["/nix/store/a"], true),
        group("/home/u/b", &["/nix/store/bb", "/nix/store/sys"], true),
        group("/nix/var/nix/profiles/system-1-link", &["/nix/store/sys"], false),
    ]
}

fn told(e: Ending) -> Summary {
    match e {
        Ending::Told(s) => s,
        Ending::Failed(m) => panic!("{}", m.message),
        Ending::Overflow => panic!("overflow"),
    }
}

#[test]
fn figures_count_each_path_once() {
    let (e, w, _, asked) = survey(&groups(), Cache::empty(), false, &store);
    let s = told(e);
    assert_eq!(s.now, 77);
    assert_eq!(s.collectable_bytes, None);
    // libc and a, then libc, bb and sys.
    assert_eq!(s.reclaimable_bytes, 500 + 900);
    assert_eq!(s.pinned.system_bytes, 400 + 300);
    assert_eq!(s.pinned.user_bytes, 100 + 200);
    assert!(w.is_empty());
    assert!(!asked.iter().any(|q| matches!(q, Query::Dead | Query::Invalid(_))));
}

#[test]
fn collectable_paths_are_the_valid_dead_ones() {
    let (e, _, _, asked) = survey(&groups(), Cache::empty(), true, &store);
    let s = told(e);
    assert_eq!(s.collectable_bytes, Some(400 + 200));
    assert_eq!(s.reclaimable_bytes, 1400);
    assert_eq!(s.pinned.system_bytes, 700);
    assert_eq!(s.pinned.user_bytes, 300);
    assert!(matches!(asked[0], Query::Dead));
}

#[test]
fn a_cache_does_not_show_in_the_figures() {
    let (first, _, cache, _) = survey(&groups(), Cache::empty(), false, &store);
    let (second, _, _, asked) = survey(&groups(), cache, false, &store);
    let (a, b) = (told(first), told(second));
    assert_eq!(a.reclaimable_bytes, b.reclaimable_bytes);
    assert_eq!(a.pinned.system_bytes, b.pinned.system_bytes);
    assert_eq!(a.pinned.user_bytes, b.pinned.user_bytes);
    assert!(!asked.iter().any(|q| matches!(q, Query::Sizes(_))));
}

/// The rows of all groups, sized with a cache.
fn all_rows(groups: &[Group], cache: Cache) -> Vec<Row> {
    let all: Vec<&Group> = groups.iter().collect();
    let mut run = group_sizes(&all, cache);
    while let Some(q) = run.pending() {
        let reply = store(&q);
        run.feed(reply);
    }
    let (sizes, warnings, _) = run.finish();
    assert!(warnings.is_empty());
    let sizes = sizes.unwrap();
    groups.iter().zip(sizes).map(|(g, n)| Row::from_group(g, n, 77)).collect()
}

#[test]
fn any_cache_shows_alike_in_rows_and_figures() {
    // The system group comes first, so it leaves its mark on the cache of the rows alone.
    let mut groups = groups();
    groups.reverse();
    let wrong = || {
        let mut cache = Cache::empty();
        cache.sizes.insert(String::from("/nix/store/libc"), 7);
        cache.sizes.insert(String::from("/nix/store/d2"), 3);
        cache.groups.insert(String::from("/nix/store/a"), 11);
        cache
    };
    for want in [false, true] {
        let rows = all_rows(&groups, wrong());
        let (e, w, _, _) = survey(&groups, wrong(), want, &store);
        let s = told(e);
        assert!(w.is_empty());
        // What is known of the group a, then libc, bb and sys.
        assert_eq!(s.reclaimable_bytes, 11 + 7 + 200 + 300);
        assert_eq!(total_reclaimable(&rows), Some(s.reclaimable_bytes));
        assert_eq!(s.pinned.system_bytes, 7 + 300);
        assert_eq!(s.pinned.user_bytes, 100 + 200);
        assert_eq!(s.collectable_bytes, if want { Some(400 + 3) } else { None });
    }
    let rows = all_rows(&groups, Cache::empty());
    assert_eq!(total_reclaimable(&rows), Some(1400));
}

#[test]
fn only_the_answers_to_what_is_asked_matter() {
    let (e, _, _, asked) = survey(&groups(), Cache::empty(), false, &store);
    let first = told(e);
    // This store has no path but those of the groups, and knows of no other question.
    let bare = |q: &Query| match q {
        Query::Requisites(p) | Query::Sizes(p)
            if p.iter().all(|x| {
                ["/nix/store/a", "/nix/store/bb", "/nix/store/sys", "/nix/store/libc"]
                    .contains(&x.as_str())
            }) =>
        {
            store(q)
        }
        _ => Reply::exited(false, b"", b"no such path"),
    };
    let (e, w, _, again) = survey(&groups(), Cache::empty(), false, &bare);
    let second = told(e);
    assert!(w.is_empty());
    assert_eq!(asked.len(), again.len());
    assert_eq!(first.reclaimable_bytes, second.reclaimable_bytes);
    assert_eq!(first.pinned.system_bytes, second.pinned.system_bytes);
    assert_eq!(first.pinned.user_bytes, second.pinned.user_bytes);
}

#[test]
fn a_failure_ends_the_survey() {
    let broken = |q: &Query| match q {
        Query::Dead => Reply::exited(false, b"", b"locked"),
        _ => store(q),
    };
    let (e, _, _, asked) = survey(&groups(), Cache::empty(), true, &broken);
    assert!(matches!(e, Ending::Failed(m) if m.message == "locked"));
    assert_eq!(asked.len(), 1);
    let broken = |q: &Query| match q {
        Query::Requisites(_) => Reply::Failed(String::from("no nix")),
        _ => store(q),
    };
    let (e, w, _, _) = survey(&groups(), Cache::empty(), false, &broken);
    assert!(matches!(e, Ending::Failed(m) if m.message == "no nix"));
    assert_eq!(w.len(), 2);
    assert_eq!(w[0], "warning: closure size for /home/u/a: no nix");
}

#[test]
fn a_sum_that_is_too_large_ends_the_survey() {
    let huge = |q: &Query| match q {
        Query::Sizes(p) => said(&"10000000000000000000\n".repeat(p.len())),
        _ => store(q),
    };
    let (e, _, _, _) = survey(&groups(), Cache::empty(), false, &huge);
    assert!(matches!(e, Ending::Overflow));
}

#[test]
fn an_empty_store_has_no_figures_but_zero() {
    let (e, _, _, asked) = survey(&[], Cache::empty(), false, &store);
    let s = told(e);
    assert_eq!(s.reclaimable_bytes, 0);
    assert_eq!(s.pinned.system_bytes + s.pinned.user_bytes, 0);
    assert!(asked.is_empty());
}

#[test]
fn groups_have_scopes() {
    assert!(matches!(scope(&group("/home/u/a", &[], true)), Scope::User));
    assert!(matches!(scope(&group("/nix/var/x", &[], true)), Scope::System));
}

#[test]
fn summaries_are_rendered() {
    let s = Summary {
        now: 1,
        collectable_bytes: Some(1536),
        reclaimable_bytes: 96,
        pinned: Pinned { user_bytes: 0, system_bytes: 1_073_741_824 },
    };
    assert_eq!(
        render_table(&s),
        "Collectable now (dead paths):   1.5KB\n\
         Reclaimable (prune safe roots): 96B\n\
         Pinned — system:                1.0GB\n\
         Pinned — user (beyond system):  0B\n"
    );
    let s = Summary { collectable_bytes: None, ..s };
    assert!(render_table(&s)
        .starts_with("Collectable now (dead paths):   (skipped; pass --collectable)\n"));
}
