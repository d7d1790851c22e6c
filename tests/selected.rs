use yazi_core::location::{Location, Scheme};
use yazi_core::selected::Selected;

fn url(s: &str) -> Location {
    let comps: Vec<String> = s.split('/').filter(|c| !c.is_empty()).map(|c| c.to_string()).collect();
    Location::new(Scheme::Regular, comps)
}

fn paths(s: &Selected) -> Vec<String> {
    s.values()
        .iter()
        .map(|l| {
            let mut p = String::new();
            let mut cur = Some(l.duplicate());
            let mut names = vec![];
            while let Some(c) = cur {
                if let Some(n) = c.file_name() {
                    names.push(n);
                }
                cur = c.parent_url();
            }
            for n in names.iter().rev() {
                p.push('/');
                p.push_str(n);
            }
            p
        })
        .collect()
}

#[test]
fn test_insert_non_conflicting() {
    let mut s = Selected::default();

    assert!(s.add(&url("/a/b")));
    assert!(s.add(&url("/c/d")));
    assert_eq!(s.len(), 2);
}

#[test]
fn test_insert_conflicting_parent() {
    let mut s = Selected::default();

    assert!(s.add(&url("/a")));
    assert!(!s.add(&url("/a/b")));
}

#[test]
fn test_insert_conflicting_child() {
    let mut s = Selected::default();

    assert!(s.add(&url("/a/b/c")));
    assert!(!s.add(&url("/a/b")));
    assert!(s.add(&url("/a/b/d")));
}

#[test]
fn test_remove() {
    let mut s = Selected::default();

    assert!(s.add(&url("/a/b")));
    assert!(!s.remove(&url("/a/c")));
    assert!(s.remove(&url("/a/b")));
    assert!(!s.remove(&url("/a/b")));
    assert!(s.is_empty());
    assert_eq!(s.ancestors_len(), 0);
}

#[test]
fn insert_many_success() {
    let mut s = Selected::default();

    assert_eq!(3, s.add_same(&[url("/parent/child1"), url("/parent/child2"), url("/parent/child3")]));
}

#[test]
fn insert_many_with_existing_parent_fails() {
    let mut s = Selected::default();

    s.add(&url("/parent"));
    assert_eq!(0, s.add_same(&[url("/parent/child1"), url("/parent/child2")]));
}

#[test]
fn insert_many_with_existing_child_fails() {
    let mut s = Selected::default();

    s.add(&url("/parent/child1"));
    assert_eq!(2, s.add_same(&[url("/parent/child1"), url("/parent/child2")]));
}

#[test]
fn insert_many_empty_urls_list() {
    let mut s = Selected::default();

    assert_eq!(0, s.add_same(&[]));
}

#[test]
fn insert_many_with_parent_as_child_of_another_url() {
    let mut s = Selected::default();

    s.add(&url("/parent/child"));
    assert_eq!(0, s.add_same(&[url("/parent/child/child1"), url("/parent/child/child2")]));
}

#[test]
fn insert_many_with_direct_parent_fails() {
    let mut s = Selected::default();

    s.add(&url("/a"));
    assert_eq!(0, s.add_same(&[url("/a/b")]));
}

#[test]
fn insert_many_with_nested_child_fails() {
    let mut s = Selected::default();

    s.add(&url("/a/b"));
    assert_eq!(0, s.add_same(&[url("/a")]));
    assert_eq!(1, s.add_same(&[url("/b"), url("/a")]));
}

#[test]
fn insert_many_sibling_directories_success() {
    let mut s = Selected::default();

    assert_eq!(2, s.add_same(&[url("/a/b"), url("/a/c")]));
}

#[test]
fn insert_many_with_grandchild_fails() {
    let mut s = Selected::default();

    s.add(&url("/a/b"));
    assert_eq!(0, s.add_same(&[url("/a/b/c")]));
}

#[test]
fn test_insert_many_with_remove() {
    let mut s = Selected::default();

    let child1 = url("/parent/child1");
    let child2 = url("/parent/child2");
    let child3 = url("/parent/child3");
    assert_eq!(3, s.add_same(&[child1.duplicate(), child2.duplicate(), child3.duplicate()]));

    assert!(s.remove(&child1));
    assert_eq!(s.len(), 2);
    assert!(s.ancestors_len() != 0);

    assert!(s.remove(&child2));
    assert!(s.ancestors_len() != 0);

    assert!(s.remove(&child3));
    assert!(s.is_empty());
    assert_eq!(s.ancestors_len(), 0);
}

#[test]
fn add_twice_is_refused_the_second_time() {
    let mut s = Selected::new();
    assert!(s.add(&url("/x/y")));
    assert!(!s.add(&url("/x/y")));
    assert_eq!(s.len(), 1);
    assert_eq!(paths(&s), vec!["/x/y".to_string()]);
}

#[test]
fn batch_under_selected_ancestor_is_refused_whole() {
    let mut s = Selected::new();
    assert!(s.add(&url("/a")));
    assert_eq!(0, s.add_same(&[url("/a/b/c"), url("/a/b/d"), url("/a/b/e")]));
    assert_eq!(s.len(), 1);
    assert!(!s.contains(&url("/a/b/c")));
}

#[test]
fn candidate_above_selection_is_dropped_not_the_batch() {
    let mut s = Selected::new();
    assert!(s.add(&url("/p/q/r")));
    assert_eq!(1, s.add_same(&[url("/p/q"), url("/p/z")]));
    assert!(s.contains(&url("/p/z")));
    assert!(!s.contains(&url("/p/q")));
}

#[test]
fn add_remove_cycle_leaves_nothing() {
    let mut s = Selected::new();
    let batch = [url("/m/n/a"), url("/m/n/b"), url("/m/n/c")];
    assert_eq!(3, s.add_same(&batch));
    assert_eq!(s.ancestors_len(), 3);
    assert_eq!(3, s.remove_same(&batch));
    assert!(s.is_empty());
    assert_eq!(s.ancestors_len(), 0);
}

#[test]
fn invariants_hold_across_mixed_calls() {
    let mut s = Selected::new();
    assert_eq!(2, s.add_many(&[url("/a/b"), url("/c/d"), url("/a/b/x")]));
    assert_eq!(paths(&s), vec!["/a/b".to_string(), "/c/d".to_string()]);
    assert!(s.add(&url("/a/e")));
    assert!(!s.add(&url("/a")));
    assert_eq!(1, s.remove_many(&[url("/a/b"), url("/zz")]));
    assert_eq!(paths(&s), vec!["/c/d".to_string(), "/a/e".to_string()]);
    // "/", "/a", "/c" are the ancestors left.
    assert_eq!(s.ancestors_len(), 3);
    s.clear();
    assert!(s.is_empty());
    assert_eq!(s.ancestors_len(), 0);
}

#[test]
fn add_many_leaves_out_roots_and_counts_new_ones() {
    let mut s = Selected::new();
    assert_eq!(0, s.add_many(&[url("/")]));
    assert!(s.add(&url("/k/one")));
    assert_eq!(1, s.add_many(&[url("/k/one"), url("/k/two")]));
    assert_eq!(s.len(), 2);
}

#[test]
fn removal_keeps_insertion_order() {
    let mut s = Selected::new();
    assert_eq!(4, s.add_same(&[url("/d/1"), url("/d/2"), url("/d/3"), url("/d/4")]));
    assert_eq!(2, s.remove_many(&[url("/d/1"), url("/d/3")]));
    assert_eq!(paths(&s), vec!["/d/2".to_string(), "/d/4".to_string()]);
}

#[test]
fn apply_op_reconciles_renames() {
    let mut s = Selected::new();
    assert!(s.add(&url("/w/old")));
    assert!(s.add(&url("/w/keep")));
    s.apply_op(&[url("/w/old")], &[url("/w/new")]);
    assert_eq!(paths(&s), vec!["/w/keep".to_string(), "/w/new".to_string()]);
}

#[test]
fn schemes_do_not_conflict() {
    let mut s = Selected::new();
    assert!(s.add(&url("/a")));
    let other = Location::new(Scheme::Search, vec!["a".to_string(), "b".to_string()]);
    assert!(s.add(&other));
    assert_eq!(s.len(), 2);
}

#[test]
fn add_many_appends_each_batch_together_in_order() {
    let mut s = Selected::new();
    assert!(s.add(&url("/c/0")));
    assert_eq!(4, s.add_many(&[url("/b/1"), url("/a/x"), url("/b/2"), url("/a/y")]));
    assert_eq!(
        paths(&s),
        vec!["/c/0", "/b/1", "/b/2", "/a/x", "/a/y"].into_iter().map(String::from).collect::<Vec<_>>()
    );
}
