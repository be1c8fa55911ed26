use rustpass::comparator::{compare, compare_databases, Difference, DifferenceKind};
use rustpass::indexer::collect_all_entries;
use rustpass::vault::{VaultEntry, VaultGroup};

fn entry(title: Option<&str>, username: Option<&str>, password: Option<&str>) -> VaultEntry {
    VaultEntry {
        title: title.map(str::to_string),
        username: username.map(str::to_string),
        password: password.map(str::to_string),
    }
}

fn leaf_group(entries: Vec<VaultEntry>) -> VaultGroup {
    VaultGroup { entries, groups: Vec::new() }
}

fn is_only_in_first(d: &Difference) -> bool {
    matches!(d.kind, DifferenceKind::OnlyInFirst)
}

fn is_only_in_second(d: &Difference) -> bool {
    matches!(d.kind, DifferenceKind::OnlyInSecond)
}

fn is_password_differs(d: &Difference) -> bool {
    matches!(d.kind, DifferenceKind::PasswordDiffers)
}

#[test]
fn identical_trees_no_differences() {
    let a = leaf_group(vec![entry(Some("Bank"), Some("alice"), Some("p1"))]);
    let b = leaf_group(vec![entry(Some("Bank"), Some("alice"), Some("p1"))]);
    let diffs = compare_databases(&a, &b);
    assert!(diffs.is_empty());
}

#[test]
fn username_differs_reported_once() {
    let a = leaf_group(vec![entry(Some("Bank"), Some("alice"), Some("p1"))]);
    let b = leaf_group(vec![entry(Some("Bank"), Some("bob"), Some("p1"))]);
    let diffs = compare_databases(&a, &b);
    assert_eq!(diffs.len(), 1);
    assert_eq!(diffs[0].title, "Bank");
    assert_eq!(diffs[0].username, "alice");
    match &diffs[0].kind {
        DifferenceKind::UsernameDiffers { username1, username2 } => {
            assert_eq!(username1, "alice");
            assert_eq!(username2, "bob");
        }
        _ => panic!("expected a username difference"),
    }
}

#[test]
fn password_differs_reported_once() {
    let a = leaf_group(vec![entry(Some("Bank"), Some("alice"), Some("p1"))]);
    let b = leaf_group(vec![entry(Some("Bank"), Some("alice"), Some("p2"))]);
    let diffs = compare_databases(&a, &b);
    assert_eq!(diffs.len(), 1);
    assert_eq!(diffs[0].title, "Bank");
    assert_eq!(diffs[0].username, "alice");
    assert!(is_password_differs(&diffs[0]));
}

#[test]
fn username_priority_over_password() {
    let a = leaf_group(vec![entry(Some("Bank"), Some("alice"), Some("p1"))]);
    let b = leaf_group(vec![entry(Some("Bank"), Some("bob"), Some("p2"))]);
    let diffs = compare_databases(&a, &b);
    assert_eq!(diffs.len(), 1);
    assert!(matches!(diffs[0].kind, DifferenceKind::UsernameDiffers { .. }));
    assert!(!diffs.iter().any(is_password_differs));
}

#[test]
fn only_in_first_reported_once() {
    let a = leaf_group(vec![entry(Some("Mail"), None, None)]);
    let b = leaf_group(vec![]);
    let diffs = compare_databases(&a, &b);
    assert_eq!(diffs.len(), 1);
    assert_eq!(diffs[0].title, "Mail");
    assert_eq!(diffs[0].username, "");
    assert!(is_only_in_first(&diffs[0]));
    assert!(!diffs.iter().any(is_only_in_second));
}

#[test]
fn only_in_second_reported_once() {
    let a = leaf_group(vec![]);
    let b = leaf_group(vec![entry(Some("Mail"), Some("m"), None)]);
    let diffs = compare_databases(&a, &b);
    assert_eq!(diffs.len(), 1);
    assert_eq!(diffs[0].title, "Mail");
    assert_eq!(diffs[0].username, "m");
    assert!(is_only_in_second(&diffs[0]));
    assert!(!diffs.iter().any(is_only_in_first));
}

#[test]
fn absent_key_never_reported_as_matched() {
    let a = leaf_group(vec![
        entry(Some("A"), Some("u"), Some("p")),
        entry(Some("B"), Some("u"), Some("p")),
    ]);
    let b = leaf_group(vec![entry(Some("B"), Some("u"), Some("p"))]);
    let diffs = compare_databases(&a, &b);
    assert_eq!(diffs.len(), 1);
    assert_eq!(diffs[0].title, "A");
    assert!(is_only_in_first(&diffs[0]));
}

#[test]
fn matched_across_different_depths() {
    let a = VaultGroup {
        entries: vec![],
        groups: vec![leaf_group(vec![entry(Some("Old"), None, None)])],
    };
    let b = leaf_group(vec![entry(Some("Old"), Some("x"), None)]);
    let diffs = compare_databases(&a, &b);
    assert_eq!(diffs.len(), 1);
    assert_eq!(diffs[0].title, "Old");
    match &diffs[0].kind {
        DifferenceKind::UsernameDiffers { username1, username2 } => {
            assert_eq!(username1, "");
            assert_eq!(username2, "x");
        }
        _ => panic!("expected a username difference"),
    }
}

#[test]
fn missing_and_empty_username_compare_equal() {
    let a = leaf_group(vec![entry(Some("Bank"), None, Some("p"))]);
    let b = leaf_group(vec![entry(Some("Bank"), Some(""), Some("p"))]);
    let diffs = compare_databases(&a, &b);
    assert!(diffs.is_empty());
}

#[test]
fn compare_is_idempotent() {
    let mk_a = || {
        VaultGroup {
            entries: vec![
                entry(Some("Bank"), Some("alice"), Some("p1")),
                entry(Some("Mail"), None, None),
            ],
            groups: vec![leaf_group(vec![entry(Some("Deep"), Some("d"), Some("q"))])],
        }
    };
    let mk_b = || {
        leaf_group(vec![
            entry(Some("Bank"), Some("bob"), Some("p1")),
            entry(Some("News"), Some("n"), None),
        ])
    };
    let first_run = compare_databases(&mk_a(), &mk_b());
    let second_run = compare_databases(&mk_a(), &mk_b());
    assert_eq!(first_run.len(), second_run.len());
    for (x, y) in first_run.iter().zip(second_run.iter()) {
        assert_eq!(x.title, y.title);
        assert_eq!(x.username, y.username);
        match (&x.kind, &y.kind) {
            (DifferenceKind::OnlyInFirst, DifferenceKind::OnlyInFirst) => {}
            (DifferenceKind::OnlyInSecond, DifferenceKind::OnlyInSecond) => {}
            (DifferenceKind::PasswordDiffers, DifferenceKind::PasswordDiffers) => {}
            (
                DifferenceKind::UsernameDiffers { username1: a1, username2: a2 },
                DifferenceKind::UsernameDiffers { username1: b1, username2: b2 },
            ) => {
                assert_eq!(a1, b1);
                assert_eq!(a2, b2);
            }
            _ => panic!("difference kinds disagree between runs"),
        }
    }
}

#[test]
fn output_order_follows_index_order() {
    let a = leaf_group(vec![
        entry(Some("First"), Some("u"), Some("p")),
        entry(Some("Second"), Some("u1"), Some("p")),
        entry(Some("Third"), Some("u"), Some("p1")),
    ]);
    let b = leaf_group(vec![
        entry(Some("Second"), Some("u2"), Some("p")),
        entry(Some("Third"), Some("u"), Some("p2")),
        entry(Some("Extra"), Some("e"), None),
    ]);
    let diffs = compare_databases(&a, &b);
    let titles: Vec<&str> = diffs.iter().map(|d| d.title.as_str()).collect();
    assert_eq!(titles, vec!["First", "Second", "Third", "Extra"]);
    assert!(is_only_in_first(&diffs[0]));
    assert!(matches!(diffs[1].kind, DifferenceKind::UsernameDiffers { .. }));
    assert!(is_password_differs(&diffs[2]));
    assert!(is_only_in_second(&diffs[3]));
}

#[test]
fn compare_on_prebuilt_indexes() {
    let a = leaf_group(vec![entry(Some("K"), Some("u"), Some("p"))]);
    let b = leaf_group(vec![entry(Some("K"), Some("u"), Some("q"))]);
    let idx_a = collect_all_entries(&a);
    let idx_b = collect_all_entries(&b);
    let diffs = compare(&idx_a, &idx_b);
    assert_eq!(diffs.len(), 1);
    assert!(is_password_differs(&diffs[0]));
}
