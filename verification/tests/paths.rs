use live_watch::files::{
    get_directory_specific_path, normalize_resolved, path_le_exec, sort_keys, PathError, PathSteps,
};

fn mk_path(steps: &[&str]) -> PathSteps {
    let v: Vec<String> = steps.iter().map(|s| (*s).to_string()).collect();
    PathSteps::new(v)
}

#[test]
fn normalize_strips_root_parent() {
    let root = mk_path(&["home", "watch"]);
    let candidate = mk_path(&["home", "watch", "notes", "a.txt"]);
    let key = get_directory_specific_path(&root, &candidate).unwrap();
    assert!(key.same_path(&mk_path(&["watch", "notes", "a.txt"])));
}

#[test]
fn normalize_round_trip_rejoins() {
    let root = mk_path(&["home", "watch"]);
    let candidate = mk_path(&["home", "watch", "deep", "er", "b.txt"]);
    let key = get_directory_specific_path(&root, &candidate).unwrap();
    let parent = root.parent().unwrap();
    let rejoined = parent.join(&key);
    assert!(rejoined.same_path(&candidate));
}

#[test]
fn normalize_is_stable_across_calls() {
    let root = mk_path(&["srv", "data"]);
    let candidate = mk_path(&["srv", "data", "x"]);
    let first = get_directory_specific_path(&root, &candidate).unwrap();
    let second = get_directory_specific_path(&root, &candidate).unwrap();
    assert!(first.same_path(&second));
}

#[test]
fn normalize_root_without_parent_fails() {
    let root = mk_path(&[]);
    let candidate = mk_path(&["a"]);
    let err = get_directory_specific_path(&root, &candidate).unwrap_err();
    assert_eq!(err, PathError::NoParent);
}

#[test]
fn normalize_outside_root_fails() {
    let root = mk_path(&["home", "watch"]);
    let candidate = mk_path(&["elsewhere", "a.txt"]);
    let err = get_directory_specific_path(&root, &candidate).unwrap_err();
    assert_eq!(err, PathError::NotUnderRoot);
}

#[test]
fn normalize_candidate_equal_to_parent_gives_empty_key() {
    let root = mk_path(&["home", "watch"]);
    let candidate = mk_path(&["home"]);
    let key = get_directory_specific_path(&root, &candidate).unwrap();
    assert_eq!(key.len(), 0);
}

#[test]
fn unresolved_root_is_reported() {
    let err = normalize_resolved(&None, &Some(mk_path(&["a"]))).unwrap_err();
    assert_eq!(err, PathError::RootUnresolvable);
}

#[test]
fn unresolved_candidate_is_reported() {
    let err = normalize_resolved(&Some(mk_path(&["a", "b"])), &None).unwrap_err();
    assert_eq!(err, PathError::CandidateUnresolvable);
}

#[test]
fn resolved_pair_normalizes() {
    let key = normalize_resolved(
        &Some(mk_path(&["a", "b"])),
        &Some(mk_path(&["a", "b", "c"])),
    )
    .unwrap();
    assert!(key.same_path(&mk_path(&["b", "c"])));
}

#[test]
fn sort_keys_orders_and_dedups() {
    let keys = vec![
        mk_path(&["b"]),
        mk_path(&["a", "z"]),
        mk_path(&["a"]),
        mk_path(&["b"]),
        mk_path(&["aa"]),
    ];
    let sorted = sort_keys(keys);
    assert_eq!(sorted.len(), 4);
    assert!(sorted[0].same_path(&mk_path(&["a"])));
    assert!(sorted[1].same_path(&mk_path(&["a", "z"])));
    assert!(sorted[2].same_path(&mk_path(&["aa"])));
    assert!(sorted[3].same_path(&mk_path(&["b"])));
}

#[test]
fn path_order_is_lexicographic() {
    let a = mk_path(&["a"]);
    let az = mk_path(&["a", "z"]);
    let aa = mk_path(&["aa"]);
    let b = mk_path(&["b"]);
    assert!(path_le_exec(&a, &az));
    assert!(!path_le_exec(&az, &a));
    assert!(path_le_exec(&az, &aa));
    assert!(!path_le_exec(&aa, &az));
    assert!(path_le_exec(&aa, &b));
    assert!(path_le_exec(&b, &b));
}

#[test]
fn path_steps_push_and_len() {
    let mut p = PathSteps::empty();
    assert_eq!(p.len(), 0);
    p.push_step("one".to_string());
    p.push_step("two".to_string());
    assert_eq!(p.len(), 2);
    assert!(p.same_path(&mk_path(&["one", "two"])));
    assert!(!p.same_path(&mk_path(&["one"])));
}
