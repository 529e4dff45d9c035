use public_api::bag::bag_of;
use public_api::by_path::{bag_to_path_map, copies_of, copy_path, ItemsWithPath};
use public_api::diff::{ChangedPublicItem, PublicItemsDiff};
use public_api::pairing::pair_off;
use public_api::item::PublicItem;
use public_api::tokens::Token;

fn typed(path: &[&str], type_: &str) -> PublicItem {
    PublicItem::new(path.iter().map(|s| s.to_string()).collect(), vec![Token::type_(type_)])
}

fn path(segments: &[&str]) -> Vec<String> {
    segments.iter().map(|s| s.to_string()).collect()
}

fn group_of(map: &ItemsWithPath, segments: &[&str]) -> Option<Vec<PublicItem>> {
    map.position(&path(segments)).map(|at| map.groups[at].items.clone())
}

#[test]
fn a_bag_holds_each_item_as_often_as_the_vector() {
    let bag = bag_of(vec![
        typed(&["a"], "i8"),
        typed(&["b"], "i8"),
        typed(&["a"], "i8"),
        typed(&["a"], "u8"),
        typed(&["a"], "i8"),
    ]);
    assert_eq!(bag.len(), 5);
    assert_eq!(bag.set_len(), 3);
    assert_eq!(bag.contains(&typed(&["a"], "i8")), 3);
    assert_eq!(bag.contains(&typed(&["b"], "i8")), 1);
    assert_eq!(bag.contains(&typed(&["a"], "u8")), 1);
    assert_eq!(bag.contains(&typed(&["c"], "i8")), 0);
}

#[test]
fn an_empty_vector_gives_an_empty_bag() {
    let bag = bag_of(vec![]);
    assert_eq!(bag.len(), 0);
    assert!(bag.is_empty());
}

#[test]
fn counted_items_are_grouped_by_path_in_their_order() {
    let map = bag_to_path_map(vec![
        (typed(&["a"], "i8"), 2),
        (typed(&["b"], "i8"), 1),
        (typed(&["a"], "u8"), 1),
        (typed(&["a", "b"], "i8"), 3),
    ]);
    assert_eq!(map.groups.len(), 3);
    assert_eq!(
        group_of(&map, &["a"]),
        Some(vec![typed(&["a"], "i8"), typed(&["a"], "i8"), typed(&["a"], "u8")])
    );
    assert_eq!(group_of(&map, &["b"]), Some(vec![typed(&["b"], "i8")]));
    assert_eq!(
        group_of(&map, &["a", "b"]),
        Some(vec![typed(&["a", "b"], "i8"), typed(&["a", "b"], "i8"), typed(&["a", "b"], "i8")])
    );
    assert_eq!(group_of(&map, &["c"]), None);
    for group in &map.groups {
        for item in &group.items {
            assert_eq!(item.path, group.path);
        }
    }
}

#[test]
fn a_count_of_zero_gives_a_group_without_items() {
    let map = bag_to_path_map(vec![(typed(&["a"], "i8"), 0)]);
    assert_eq!(group_of(&map, &["a"]), Some(vec![]));
    let map = bag_to_path_map(vec![]);
    assert_eq!(map.groups.len(), 0);
    assert_eq!(map.keys(), Vec::<Vec<String>>::new());
}

#[test]
fn a_map_lists_each_of_its_paths_once() {
    let map = bag_to_path_map(vec![
        (typed(&["a"], "i8"), 1),
        (typed(&["b"], "i8"), 1),
        (typed(&["a"], "u8"), 1),
    ]);
    assert_eq!(map.keys(), vec![path(&["a"]), path(&["b"])]);
    let map = bag_to_path_map(vec![
        (typed(&["b"], "i8"), 1),
        (typed(&["a", "b"], "i8"), 1),
        (typed(&["c"], "u8"), 1),
        (typed(&["a"], "u8"), 1),
    ]);
    assert_eq!(map.keys(), vec![path(&["a"]), path(&["a", "b"]), path(&["b"]), path(&["c"])]);
    assert_eq!(map.locate(&path(&["a"])), (0, true));
    assert_eq!(map.locate(&path(&["b"])), (2, true));
    assert_eq!(map.locate(&path(&["a", "a"])), (1, false));
    assert_eq!(map.locate(&path(&[])), (0, false));
    assert_eq!(map.locate(&path(&["d"])), (4, false));
}

#[test]
fn adding_to_a_map_extends_the_group_of_the_path() {
    let mut map = ItemsWithPath::new();
    assert_eq!(map.position(&path(&["a"])), None);
    map.add(&typed(&["a"], "i8"), 1);
    map.add(&typed(&["b"], "i8"), 2);
    map.add(&typed(&["a"], "u8"), 2);
    assert_eq!(
        group_of(&map, &["a"]),
        Some(vec![typed(&["a"], "i8"), typed(&["a"], "u8"), typed(&["a"], "u8")])
    );
    assert_eq!(group_of(&map, &["b"]), Some(vec![typed(&["b"], "i8"), typed(&["b"], "i8")]));
}

#[test]
fn a_group_is_made_where_its_path_belongs() {
    let mut map = ItemsWithPath::new();
    assert_eq!(map.position_or_insert(&path(&["m"])), 0);
    assert_eq!(map.position_or_insert(&path(&["z"])), 1);
    assert_eq!(map.position_or_insert(&path(&["a"])), 0);
    assert_eq!(map.position_or_insert(&path(&["m"])), 1);
    assert_eq!(map.position_or_insert(&path(&["n"])), 2);
    assert_eq!(map.keys(), vec![path(&["a"]), path(&["m"]), path(&["n"]), path(&["z"])]);
    assert_eq!(group_of(&map, &["n"]), Some(vec![]));
}

#[test]
fn a_copy_of_a_difference_equals_it() {
    let diff = PublicItemsDiff::between(
        vec![typed(&["a"], "i8"), typed(&["b"], "i8")],
        vec![typed(&["a"], "u8"), typed(&["c"], "i8")],
    );
    assert_eq!(diff.clone(), diff);
    assert_eq!(diff.changed.len(), 1);
}

#[test]
fn removing_from_a_map_takes_the_whole_group() {
    let mut map = bag_to_path_map(vec![
        (typed(&["a"], "i8"), 2),
        (typed(&["b"], "i8"), 1),
        (typed(&["c"], "i8"), 1),
    ]);
    assert_eq!(map.remove(&path(&["a"])), Some(vec![typed(&["a"], "i8"), typed(&["a"], "i8")]));
    assert_eq!(map.remove(&path(&["a"])), None);
    assert_eq!(map.remove(&path(&["z"])), None);
    assert_eq!(group_of(&map, &["a"]), None);
    assert_eq!(group_of(&map, &["b"]), Some(vec![typed(&["b"], "i8")]));
    assert_eq!(group_of(&map, &["c"]), Some(vec![typed(&["c"], "i8")]));
    assert_eq!(map.remove(&path(&["c"])), Some(vec![typed(&["c"], "i8")]));
    assert_eq!(map.remove(&path(&["b"])), Some(vec![typed(&["b"], "i8")]));
    assert_eq!(map.groups.len(), 0);
}

#[test]
fn a_copy_of_a_path_has_its_segments() {
    assert_eq!(copy_path(&path(&["a", "b"])), path(&["a", "b"]));
    assert_eq!(copy_path(&path(&[])), path(&[]));
}

#[test]
fn copies_of_an_item_equal_it() {
    assert_eq!(copies_of(&typed(&["a"], "i8"), 0), vec![]);
    assert_eq!(
        copies_of(&typed(&["a"], "i8"), 3),
        vec![typed(&["a"], "i8"), typed(&["a"], "i8"), typed(&["a"], "i8")]
    );
}

#[test]
fn pairing_goes_from_the_last_backwards() {
    let x = |n: &str| typed(&["p"], n);
    let mut removed = vec![x("r0")];
    let mut changed = vec![];
    let mut added = vec![x("a0")];
    pair_off(
        vec![x("1"), x("2"), x("3"), x("4")],
        vec![x("5"), x("6")],
        &mut removed,
        &mut changed,
        &mut added,
    );
    assert_eq!(
        changed,
        vec![
            ChangedPublicItem { old: x("4"), new: x("6") },
            ChangedPublicItem { old: x("3"), new: x("5") },
        ]
    );
    assert_eq!(removed, vec![x("r0"), x("2"), x("1")]);
    assert_eq!(added, vec![x("a0")]);
}

#[test]
fn pairing_leaves_over_what_finds_no_partner() {
    let x = |n: &str| typed(&["p"], n);
    let mut removed = vec![];
    let mut changed = vec![];
    let mut added = vec![];
    pair_off(vec![x("1")], vec![x("5"), x("6"), x("7")], &mut removed, &mut changed, &mut added);
    assert_eq!(changed, vec![ChangedPublicItem { old: x("1"), new: x("7") }]);
    assert_eq!(removed, vec![]);
    assert_eq!(added, vec![x("6"), x("5")]);

    let mut changed = vec![];
    pair_off(vec![], vec![], &mut removed, &mut changed, &mut added);
    assert_eq!(changed, vec![]);
    assert_eq!(removed, vec![]);
    assert_eq!(added, vec![x("6"), x("5")]);

    pair_off(vec![x("8"), x("9")], vec![], &mut removed, &mut changed, &mut added);
    assert_eq!(changed, vec![]);
    assert_eq!(removed, vec![x("9"), x("8")]);
    assert_eq!(added, vec![x("6"), x("5")]);
}
