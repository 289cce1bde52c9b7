use transmuter::asset_group::{AssetGroup, AssetGroups};
use transmuter::corruptable::Corruptable;
use transmuter::error::ContractError;

fn strings(items: &[&str]) -> Vec<String> {
    items.iter().map(|s| s.to_string()).collect()
}

#[test]
fn test_add_remove_denoms() {
    let mut group = AssetGroup::new(vec!["denom1".to_string(), "denom2".to_string()]);

    // Test initial state
    assert_eq!(group.denoms(), &["denom1", "denom2"]);

    // Test adding denoms
    group.add_denoms(vec!["denom3".to_string(), "denom4".to_string()]);
    assert_eq!(group.denoms(), &["denom1", "denom2", "denom3", "denom4"]);

    // Test adding duplicate denom
    group.add_denoms(vec!["denom2".to_string(), "denom5".to_string()]);
    assert_eq!(
        group.denoms(),
        &["denom1", "denom2", "denom3", "denom4", "denom2", "denom5"]
    );

    // Test removing denoms
    group.remove_denoms(vec!["denom2".to_string(), "denom4".to_string()]);
    assert_eq!(group.denoms(), &["denom1", "denom3", "denom5"]);

    // Test removing non-existent denom
    group.remove_denoms(vec!["denom6".to_string()]);
    assert_eq!(group.denoms(), &["denom1", "denom3", "denom5"]);
}

#[test]
fn test_mark_unmark_corrupted() {
    let mut group = AssetGroup::new(vec!["denom1".to_string(), "denom2".to_string()]);

    // Test initial state
    assert!(!group.is_corrupted());

    // Test marking as corrupted
    group.mark_as_corrupted();
    assert!(group.is_corrupted());

    // Test unmarking as corrupted
    group.unmark_as_corrupted();
    assert!(!group.is_corrupted());

    // Test marking and unmarking multiple times
    group.mark_as_corrupted().mark_as_corrupted();
    assert!(group.is_corrupted());
    group.unmark_as_corrupted().unmark_as_corrupted();
    assert!(!group.is_corrupted());
}

#[test]
fn group_keeps_the_list_as_given() {
    let group = AssetGroup::new(strings(&["b", "a", "b"]));
    assert_eq!(group.denoms(), &["b", "a", "b"]);
    assert!(group.has_denom(&"a".to_string()));
    assert!(!group.has_denom(&"c".to_string()));
    assert_eq!(group.into_denoms(), strings(&["b", "a", "b"]));
}

#[test]
fn add_then_remove_disjoint_removes_nothing() {
    let mut group = AssetGroup::new(strings(&["x", "y"]));
    group.add_denoms(strings(&["z", "x"]));
    group.remove_denoms(strings(&["p", "q"]));
    assert_eq!(group.denoms(), &["x", "y", "z", "x"]);
    group.remove_denoms(Vec::new());
    assert_eq!(group.denoms(), &["x", "y", "z", "x"]);
}

#[test]
fn removal_keeps_the_mark() {
    let mut group = AssetGroup::new(strings(&["x", "y"]));
    group.mark_as_corrupted();
    group.remove_denoms(strings(&["x"]));
    assert!(group.is_corrupted());
    assert_eq!(group.denoms(), &["y"]);
    group.add_denoms(strings(&["w"]));
    assert!(group.is_corrupted());
}

#[test]
fn registry_refuses_a_label_twice() {
    let mut groups = AssetGroups::new();
    assert!(!groups.has("stable"));
    assert!(groups
        .create_asset_group("stable".to_string(), strings(&["a", "b"]))
        .is_ok());
    assert!(groups.has("stable"));
    let second = groups
        .create_asset_group("stable".to_string(), strings(&["c"]))
        .map(|_| ());
    assert_eq!(
        second,
        Err(ContractError::AssetGroupAlreadyExists {
            label: "stable".to_string()
        })
    );
    let entries = groups.into_inner();
    assert_eq!(entries.len(), 1);
    assert_eq!(entries[0].1.denoms(), &["a", "b"]);
}

#[test]
fn registry_remove_then_create_again() {
    let mut groups = AssetGroups::default();
    groups
        .create_asset_group("g".to_string(), strings(&["a"]))
        .unwrap()
        .mark_corrupted_asset_group("g")
        .unwrap();
    assert!(groups.remove_asset_group("g").is_ok());
    assert!(!groups.has("g"));
    assert!(groups
        .create_asset_group("g".to_string(), strings(&["b"]))
        .is_ok());
    let entries = groups.into_inner();
    assert_eq!(entries.len(), 1);
    assert_eq!(entries[0].0, "g");
    assert_eq!(entries[0].1.denoms(), &["b"]);
    assert!(!entries[0].1.is_corrupted());
}

#[test]
fn registry_reports_a_missing_label() {
    let mut groups = AssetGroups::new();
    let missing = ContractError::AssetGroupNotFound {
        label: "none".to_string(),
    };
    assert_eq!(
        groups.mark_corrupted_asset_group("none").map(|_| ()),
        Err(missing.clone())
    );
    assert_eq!(
        groups.unmark_corrupted_asset_group("none").map(|_| ()),
        Err(missing.clone())
    );
    assert_eq!(groups.remove_asset_group("none").map(|_| ()), Err(missing));
}

#[test]
fn registry_marks_one_group_only() {
    let mut groups = AssetGroups::new();
    groups
        .create_asset_group("b".to_string(), strings(&["x"]))
        .unwrap();
    groups
        .create_asset_group("a".to_string(), strings(&["y"]))
        .unwrap();
    groups.mark_corrupted_asset_group("b").unwrap();
    groups.mark_corrupted_asset_group("b").unwrap();
    assert!(groups.group_at(1).is_corrupted());
    assert!(!groups.group_at(0).is_corrupted());
    groups.unmark_corrupted_asset_group("b").unwrap();
    assert!(!groups.group_at(1).is_corrupted());
    assert_eq!(groups.group_at(1).denoms(), &["x"]);
}

#[test]
fn registry_walks_in_label_order() {
    let mut groups = AssetGroups::new();
    for label in ["m", "z", "a", "ab", "B", ""] {
        groups
            .create_asset_group(label.to_string(), strings(&[label]))
            .unwrap();
    }
    assert_eq!(groups.len(), 6);
    assert_eq!(groups.label_at(0), "");
    let labels: Vec<String> = groups.into_inner().into_iter().map(|e| e.0).collect();
    assert_eq!(labels, strings(&["", "B", "a", "ab", "m", "z"]));
}
