use json_diff_patch::path::{Path, PathElem};
use json_diff_patch::path_order::{path_precedes, step_precedes};
use std::cmp::Ordering;

fn key(s: &str) -> PathElem {
    PathElem::Key(s.to_string())
}

#[test]
fn steps_are_ordered_keys_before_indices() {
    assert!(step_precedes(&key("a"), &key("b")));
    assert!(!step_precedes(&key("b"), &key("a")));
    assert!(!step_precedes(&key("a"), &key("a")));
    assert!(step_precedes(&key("a"), &key("ab")));
    assert!(step_precedes(&key(""), &key("a")));
    assert!(step_precedes(&key("Z"), &key("a")));
    assert!(step_precedes(&key("zzz"), &PathElem::Index(0)));
    assert!(!step_precedes(&PathElem::Index(0), &key("")));
    assert!(step_precedes(&PathElem::Index(2), &PathElem::Index(10)));
    assert!(!step_precedes(&PathElem::Index(10), &PathElem::Index(2)));
    assert!(step_precedes(&key("10"), &key("2")));
}

#[test]
fn paths_are_ordered_step_by_step() {
    let p = |steps: Vec<PathElem>| Path::new(steps);
    let root = Path::empty();
    let a = p(vec![key("a")]);
    let a0 = p(vec![key("a"), PathElem::Index(0)]);
    let a1 = p(vec![key("a"), PathElem::Index(1)]);
    let ab = p(vec![key("a"), key("b")]);
    let b = p(vec![key("b")]);
    let i0 = p(vec![PathElem::Index(0)]);
    let ordered = [&root, &a, &ab, &a0, &a1, &b, &i0];
    for i in 0..ordered.len() {
        for j in 0..ordered.len() {
            assert_eq!(path_precedes(ordered[i], ordered[j]), i < j, "{} {}", i, j);
            let expected = if i < j {
                Ordering::Less
            } else if i > j {
                Ordering::Greater
            } else {
                Ordering::Equal
            };
            assert_eq!(ordered[i].partial_cmp(ordered[j]), Some(expected));
        }
    }
    assert!(a < b);
    assert!(a0 > ab);
}
