use std::path::Path;

use yazi_core::location::{Location, Scheme};
use yazi_core::options::{PasteOpt, SeekOpt};
use yazi_core::package::{Dependency, Package, PackageError};
use yazi_core::runtime::Runtime;
use yazi_core::selected::Selected;
use yazi_core::trigger::Trigger;
use yazi_core::yank::{Yank, Yanked};

fn url(s: &str) -> Location {
    let comps: Vec<String> = s.split('/').filter(|c| !c.is_empty()).map(|c| c.to_string()).collect();
    Location::new(Scheme::Regular, comps)
}

const CWD: &str = "/home/user/work";

fn compare(s: &str, parent: &str, child: &str) {
    let (p, c) = Trigger::split_path(s, CWD).unwrap();
    let p = Path::new(&p);
    let p = p.strip_prefix(CWD).unwrap_or(p);
    assert_eq!((p, c.as_str()), (Path::new(parent), child));
}

#[test]
fn trigger_test_split() {
    compare("", "", "");
    compare(" ", "", " ");
    compare("/", "/", "");
    compare("//", "//", "");
    compare("/foo", "/", "foo");
    compare("/foo/", "/foo/", "");
    compare("/foo/bar", "/foo/", "bar");
}

#[test]
fn split_falls_back_to_the_working_directory() {
    assert_eq!(Trigger::split_path("~", CWD), None);
    assert_eq!(Trigger::split_path("~/", CWD), Some(("~".to_string(), "".to_string())));
    assert_eq!(Trigger::split_path("a/b/c", CWD), Some(("a/b".to_string(), "c".to_string())));
    assert_eq!(Trigger::split_path("abc", CWD), Some((CWD.to_string(), "abc".to_string())));
    assert_eq!(Trigger::split_path("", "/"), Some(("/".to_string(), "".to_string())));
    assert_eq!(Trigger::split_path("/é/ü", CWD), Some(("/é".to_string(), "ü".to_string())));
}

#[test]
fn yank_snapshots_selection_and_clears_it() {
    let mut y = Yanked::new(false, vec![]);
    let mut s = Selected::new();
    assert!(s.add(&url("/a/x")));
    assert!(s.add(&url("/a/y")));
    assert!(Yank::act(&mut y, &mut s, Some(&url("/a/z")), true));
    assert!(y.cut());
    assert_eq!(y.revision(), 1);
    assert_eq!(y.urls().len(), 2);
    assert!(y.urls()[1].same(&url("/a/y")));
    assert!(s.is_empty());
}

#[test]
fn yank_falls_back_to_hovered() {
    let mut y = Yanked::new(true, vec![url("/old")]);
    let mut s = Selected::new();
    assert!(Yank::act(&mut y, &mut s, Some(&url("/a/z")), false));
    assert!(!y.cut());
    assert_eq!(y.urls().len(), 1);
    assert!(y.urls()[0].same(&url("/a/z")));
    assert!(Yank::act(&mut y, &mut s, None, false));
    assert_eq!(y.urls().len(), 0);
    assert_eq!(y.revision(), 2);
}

#[test]
fn catchup_revision_bumps_and_reports_cut() {
    let mut y = Yanked::new(true, vec![url("/f")]);
    assert!(y.catchup_revision());
    assert!(y.catchup_revision());
    assert_eq!(y.revision(), 2);
    let mut z = Yanked::new(false, vec![]);
    assert!(!z.catchup_revision());
}

#[test]
fn location_ancestry() {
    let a = url("/a");
    let ab = url("/a/b");
    assert!(a.is_ancestor_of(&ab));
    assert!(!ab.is_ancestor_of(&a));
    assert!(!a.is_ancestor_of(&a));
    assert!(ab.parent_url().unwrap().same(&a));
    assert!(url("/").parent_url().is_none());
    assert_eq!(ab.file_name(), Some("b".to_string()));
    assert!(a.join(&"b".to_string()).same(&ab));
    assert!(url("/a/b").is_sibling_of(&url("/a/c")));
    assert!(!url("/a/b").is_sibling_of(&url("/b/b")));
    assert_eq!(ab.depth(), 2);
}

fn dep(parent: &str, child: &str, flavor: bool) -> Dependency {
    Dependency {
        uses: format!("{parent}:{child}"),
        name: child.to_string(),
        parent: parent.to_string(),
        child: child.to_string(),
        rev: String::new(),
        is_flavor: flavor,
    }
}

#[test]
fn package_finds_identical_dependency() {
    let p = Package {
        plugins: vec![dep("owner/repo", "a", false)],
        flavors: vec![dep("owner/theme", "", true), dep("owner/repo", "a", true)],
    };
    assert!(!p.identical(&dep("owner/repo", "a", true)).unwrap().is_flavor);
    assert!(p.identical(&dep("owner/theme", "", false)).unwrap().is_flavor);
    assert!(p.identical(&dep("owner/other", "", false)).is_none());
}

#[test]
fn package_toml_lives_in_config_dir() {
    let t = Package::toml(&url("/home/u/.config/yazi"));
    assert!(t.same(&url("/home/u/.config/yazi/package.toml")));
}

#[test]
fn options_hold_their_values() {
    let p = PasteOpt { force: true, follow: false };
    assert!(p.force && !p.follow);
    assert_eq!(SeekOpt { units: -3 }.units, -3);
}

#[test]
fn package_add_refuses_duplicates() {
    let mut p = Package { plugins: vec![], flavors: vec![] };
    assert!(p.add(dep("owner/repo", "a", false)).is_ok());
    assert!(p.add(dep("owner/theme", "", true)).is_ok());
    match p.add(dep("owner/repo", "a", true)) {
        Err(PackageError::AlreadyExists { is_flavor, name }) => {
            assert!(!is_flavor);
            assert_eq!(name, "a");
        }
        _ => panic!("expected a refusal"),
    }
    assert_eq!((p.plugins.len(), p.flavors.len()), (1, 1));
}

#[test]
fn package_delete_removes_from_its_list() {
    let mut p = Package {
        plugins: vec![dep("o/r", "a", false), dep("o/r", "b", false), dep("o/r", "a", false)],
        flavors: vec![dep("o/t", "", true)],
    };
    assert!(p.delete(&dep("o/r", "a", true)).is_ok());
    assert_eq!(p.plugins.len(), 1);
    assert_eq!(p.plugins[0].child, "b");
    assert_eq!(p.flavors.len(), 1);
    assert!(matches!(p.delete(&dep("o/x", "", false)), Err(PackageError::NotFound)));
    assert!(p.delete(&dep("o/t", "", false)).is_ok());
    assert!(p.flavors.is_empty());
}

#[test]
fn upgrade_takes_all_or_the_named() {
    let d = dep("o/r", "a", false);
    assert!(Package::wants_upgrade(&[], &d));
    assert!(Package::wants_upgrade(&["x".to_string(), "o/r:a".to_string()], &d));
    assert!(!Package::wants_upgrade(&["x".to_string()], &d));
}

#[test]
fn stale_tickets_are_dropped() {
    let mut cur = 5u64;
    assert!(!Trigger::accept_ticket(&mut cur, Some(4)));
    assert_eq!(cur, 5);
    assert!(Trigger::accept_ticket(&mut cur, Some(9)));
    assert_eq!(cur, 9);
    assert!(Trigger::accept_ticket(&mut cur, None));
    assert_eq!(cur, 9);
}

#[test]
fn runtime_frames_and_blocks() {
    let mut r: Runtime<u32> = Runtime::new("init");
    assert_eq!(r.current(), Some("init"));
    assert_eq!(r.next_block(), Some(0));
    assert_eq!(r.next_block(), Some(1));
    assert!(r.put_block(10));
    assert!(r.put_block(11));
    r.push("plugin");
    assert_eq!(r.current_owned(), Some("plugin".to_string()));
    assert_eq!(r.next_block(), Some(0));
    assert!(r.put_block(20));
    assert_eq!(r.get_block("init", 1), Some(&11));
    assert_eq!(r.get_block("plugin", 0), Some(&20));
    assert_eq!(r.get_block("plugin", 1), None);
    assert_eq!(r.get_block("none", 0), None);
    r.pop();
    r.pop();
    assert_eq!(r.current(), None);
    assert_eq!(r.next_block(), None);
    assert!(!r.put_block(30));
    r.pop();
    assert_eq!(r.current(), None);
}
