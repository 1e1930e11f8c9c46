//! The pairwise relation, the name index and the friendly input forms.

use layomol::group_name::{FriendlyGroupName, GroupName};
use layomol::n_to_n::{FriendlyNtoN, IndexCollect, NtoN};
use layomol::name_index::NameIndex;

fn s(t: &str) -> String {
    t.to_string()
}

#[test]
fn relation_insert_and_lookup() {
    let mut r = NtoN::new();
    assert!(r.insert(s("ring"), 0));
    assert!(r.insert(s("ring"), 2));
    assert!(!r.insert(s("ring"), 0));
    assert!(r.insert(s("tail"), 2));
    assert!(r.contains(&s("ring"), 0));
    assert!(!r.contains(&s("ring"), 1));
    let ring = r.get_left(&s("ring"));
    assert_eq!(ring, vec![0, 2]);
    let of_two = r.get_right(2);
    assert_eq!(of_two, vec![s("ring"), s("tail")]);
    // each name and index appears once; indices come back ascending
    assert_eq!(r.get_lefts(), vec![s("ring"), s("tail")]);
    assert_eq!(r.get_rights(), vec![0, 2]);
}

#[test]
fn relation_remove() {
    let mut r = NtoN::new();
    r.insert(s("a"), 1);
    r.insert(s("a"), 2);
    r.insert(s("b"), 1);
    assert!(r.remove(&s("a"), 1));
    assert!(!r.remove(&s("a"), 1));
    assert!(!r.contains(&s("a"), 1));
    assert!(r.contains(&s("a"), 2));
    r.remove_left(&s("a"));
    assert!(!r.contains(&s("a"), 2));
    assert!(r.contains(&s("b"), 1));
    r.remove_right(1);
    assert!(!r.contains(&s("b"), 1));
    assert_eq!(r.data().len(), 0);
}

#[test]
fn relation_extend_and_overlay() {
    let mut r = NtoN::new();
    r.insert(s("a"), 1);
    r.extend(&vec![(s("a"), 1), (s("b"), 2)]);
    assert_eq!(r.data().len(), 2);
    let mut other = NtoN::new();
    other.insert(s("c"), 3);
    let merged = r.overlay_to(&other);
    assert!(merged.contains(&s("a"), 1));
    assert!(merged.contains(&s("b"), 2));
    assert!(merged.contains(&s("c"), 3));
}

#[test]
fn relation_offset_and_prefix() {
    let mut r = NtoN::new();
    r.insert(s("g"), 0);
    r.insert(s("g"), 4);
    let shifted = r.offset_indices(10);
    assert!(shifted.contains(&s("g"), 10));
    assert!(shifted.contains(&s("g"), 14));
    assert!(!shifted.contains(&s("g"), 0));
    let renamed = r.prefixed(&s("pre_"));
    assert!(renamed.contains(&s("pre_g"), 0));
    assert!(!renamed.contains(&s("g"), 0));
}

#[test]
fn name_index_insert_get_extend() {
    let mut ids = NameIndex::new();
    ids.insert(s("alpha"), 3);
    ids.insert(s("beta"), 7);
    assert_eq!(ids.get(&s("alpha")), Some(3));
    assert_eq!(ids.get(&s("gamma")), None);
    // rebinding an existing name replaces its value
    ids.insert(s("alpha"), 9);
    assert_eq!(ids.get(&s("alpha")), Some(9));
    assert_eq!(ids.len(), 2);
    let mut other = NameIndex::new();
    other.insert(s("alpha"), 1);
    other.insert(s("delta"), 2);
    ids.extend(&other);
    // the incoming binding wins on a shared name
    assert_eq!(ids.get(&s("alpha")), Some(1));
    assert_eq!(ids.get(&s("beta")), Some(7));
    assert_eq!(ids.get(&s("delta")), Some(2));
}

#[test]
fn name_index_offset_and_prefix() {
    let mut ids = NameIndex::new();
    ids.insert(s("a"), 1);
    let shifted = ids.offset_indices(5);
    assert_eq!(shifted.get(&s("a")), Some(6));
    let renamed = ids.prefixed(&s("ns_"));
    assert_eq!(renamed.get(&s("ns_a")), Some(1));
    assert_eq!(renamed.get(&s("a")), None);
}

#[test]
fn index_collect_forms() {
    let c = IndexCollect::Collect(vec![4, 1, 4, 2]);
    assert_eq!(c.collect(), vec![1, 2, 4]);
    let r = IndexCollect::Range { start: 2, end: 5 };
    assert_eq!(r.collect(), vec![2, 3, 4, 5]);
    let x = IndexCollect::Complex {
        includes: vec![
            IndexCollect::Range { start: 0, end: 4 },
            IndexCollect::Collect(vec![8]),
        ],
        excludes: vec![IndexCollect::Collect(vec![2, 3])],
    };
    assert_eq!(x.collect(), vec![0, 1, 4, 8]);
}

#[test]
fn friendly_forms() {
    let f = FriendlyNtoN {
        entries: vec![(s("ring"), IndexCollect::Range { start: 0, end: 2 })],
    };
    let r = f.into_relation();
    assert!(r.contains(&s("ring"), 0));
    assert!(r.contains(&s("ring"), 2));
    assert!(!r.contains(&s("ring"), 3));

    let g = FriendlyGroupName::Friendly(vec![(s("arm"), IndexCollect::Collect(vec![5, 6]))]);
    let groups: GroupName = g.into_groups();
    assert!(groups.contains(&s("arm"), 5));
    assert!(groups.contains(&s("arm"), 6));

    let u = FriendlyGroupName::UnFriendly(vec![(s("arm"), 1), (s("arm"), 1)]);
    let groups2 = u.into_groups();
    assert!(groups2.contains(&s("arm"), 1));
    assert_eq!(groups2.data().len(), 1);
}
