use rustpass::comparator::compare_databases;
use rustpass::indexer::collect_all_entries;
use rustpass::report::RustPassApp;
use rustpass::vault::{count_entries, count_group_entries, VaultEntry, VaultGroup};

fn named_entry(title: Option<&str>, username: Option<&str>) -> VaultEntry {
    VaultEntry {
        title: title.map(str::to_string),
        username: username.map(str::to_string),
        password: None,
    }
}

#[test]
fn duplicate_titles_collapse_to_later_entry() {
    let tree = VaultGroup {
        entries: vec![named_entry(Some("X"), Some("first")), named_entry(Some("X"), Some("second"))],
        groups: Vec::new(),
    };
    let idx = collect_all_entries(&tree);
    assert_eq!(idx.records.len(), 1);
    assert_eq!(idx.records[0].title, "X");
    assert_eq!(idx.records[0].username, "second");
}

#[test]
fn missing_titles_collapse_under_placeholder() {
    let tree = VaultGroup {
        entries: vec![named_entry(Some(""), Some("first")), named_entry(None, Some("second"))],
        groups: Vec::new(),
    };
    let idx = collect_all_entries(&tree);
    assert_eq!(idx.records.len(), 1);
    assert_eq!(idx.records[0].title, "(no title)");
    assert_eq!(idx.records[0].username, "second");
}

#[test]
fn missing_title_matches_empty_title_across_trees() {
    let a = VaultGroup { entries: vec![named_entry(None, Some("u1"))], groups: Vec::new() };
    let b = VaultGroup { entries: vec![named_entry(Some(""), Some("u2"))], groups: Vec::new() };
    let diffs = compare_databases(&a, &b);
    assert_eq!(diffs.len(), 1);
    assert_eq!(diffs[0].title, "(no title)");
}

#[test]
fn entries_indexed_before_subgroups() {
    let tree = VaultGroup {
        entries: vec![named_entry(Some("X"), Some("root"))],
        groups: vec![VaultGroup {
            entries: vec![named_entry(Some("X"), Some("nested"))],
            groups: Vec::new(),
        }],
    };
    let idx = collect_all_entries(&tree);
    assert_eq!(idx.records.len(), 1);
    assert_eq!(idx.records[0].username, "nested");
}

#[test]
fn index_keeps_traversal_order() {
    let tree = VaultGroup {
        entries: vec![named_entry(Some("A"), None), named_entry(Some("B"), None)],
        groups: vec![
            VaultGroup {
                entries: vec![named_entry(Some("C"), None)],
                groups: vec![VaultGroup {
                    entries: vec![named_entry(Some("D"), None)],
                    groups: Vec::new(),
                }],
            },
            VaultGroup { entries: vec![named_entry(Some("E"), None)], groups: Vec::new() },
        ],
    };
    let idx = collect_all_entries(&tree);
    let titles: Vec<&str> = idx.records.iter().map(|r| r.title.as_str()).collect();
    assert_eq!(titles, vec!["A", "B", "C", "D", "E"]);
}

#[test]
fn count_sums_all_groups_recursively() {
    let tree = VaultGroup {
        entries: vec![named_entry(Some("A"), None), named_entry(Some("A"), None)],
        groups: vec![
            VaultGroup {
                entries: vec![named_entry(Some("B"), None)],
                groups: vec![VaultGroup {
                    entries: vec![named_entry(Some("C"), None), named_entry(Some("D"), None)],
                    groups: Vec::new(),
                }],
            },
            VaultGroup { entries: Vec::new(), groups: Vec::new() },
        ],
    };
    // Duplicates still count: counting is independent of index collapsing.
    assert_eq!(count_entries(&tree), 5);
    assert_eq!(count_group_entries(&tree.groups[0]), 3);
}

#[test]
fn empty_tree_counts_zero_and_compares_empty() {
    let a = VaultGroup { entries: Vec::new(), groups: Vec::new() };
    let b = VaultGroup { entries: Vec::new(), groups: Vec::new() };
    assert_eq!(count_entries(&a), 0);
    assert!(compare_databases(&a, &b).is_empty());
}

#[test]
fn sync_reports_counts_and_differences() {
    let a = VaultGroup {
        entries: vec![named_entry(Some("Bank"), Some("alice"))],
        groups: vec![VaultGroup {
            entries: vec![named_entry(Some("Mail"), None)],
            groups: Vec::new(),
        }],
    };
    let b = VaultGroup { entries: vec![named_entry(Some("Bank"), Some("bob"))], groups: Vec::new() };
    let mut app = RustPassApp::new();
    assert_eq!(app.entries1, 0);
    assert_eq!(app.entries2, 0);
    assert!(app.differences.is_empty());
    app.sync_databases(&a, &b);
    assert_eq!(app.entries1, 2);
    assert_eq!(app.entries2, 1);
    assert_eq!(app.differences.len(), 2);
    assert_eq!(app.differences[0].title, "Bank");
    assert_eq!(app.differences[1].title, "Mail");
}
