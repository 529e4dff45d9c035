use public_api::diff::{ChangedPublicItem, PublicItemsDiff};
use public_api::item::PublicItem;
use public_api::tokens::Token;
use std::hash::{Hash, Hasher};

fn item_with_path(path: &str) -> PublicItem {
    PublicItem {
        path: path.split("::").map(std::string::ToString::to_string).collect(),
        tokens: vec![Token::identifier(path)],
    }
}

fn fn_with_param_type(path_str: &[&str], type_: &str) -> PublicItem {
    let path: Vec<_> = path_str.iter().map(std::string::ToString::to_string).collect();

    // Begin with "pub fn "
    let mut tokens = vec![q("pub"), w(), k("fn"), w()];

    // Add path e.g. "a::b"
    for (n, segment) in path.iter().enumerate() {
        if n > 0 {
            tokens.push(Token::symbol("::"));
        }
        tokens.push(Token::identifier(segment));
    }

    // Append function "(x: usize)"
    tokens.extend(vec![q("("), i("x"), s(":"), w(), t(type_), q(")")]);

    // End result is e.g. "pub fn a::b(x: usize)"
    PublicItem { path, tokens }
}

fn s(s: &str) -> Token {
    Token::symbol(s)
}

fn t(s: &str) -> Token {
    Token::type_(s)
}

fn q(s: &str) -> Token {
    Token::qualifier(s)
}

fn k(s: &str) -> Token {
    Token::kind(s)
}

fn i(s: &str) -> Token {
    Token::identifier(s)
}

fn w() -> Token {
    Token::Whitespace
}

fn changed(old: PublicItem, new: PublicItem) -> ChangedPublicItem {
    ChangedPublicItem { old, new }
}

#[test]
fn single_and_only_item_removed() {
    let old = vec![item_with_path("foo")];
    let new = vec![];

    let actual = PublicItemsDiff::between(old, new);
    let expected = PublicItemsDiff {
        removed: vec![item_with_path("foo")],
        changed: vec![],
        added: vec![],
    };
    assert_eq!(actual, expected);
    assert!(!actual.is_empty());
}

#[test]
fn single_and_only_item_added() {
    let old = vec![];
    let new = vec![item_with_path("foo")];

    let actual = PublicItemsDiff::between(old, new);
    let expected = PublicItemsDiff {
        removed: vec![],
        changed: vec![],
        added: vec![item_with_path("foo")],
    };
    assert_eq!(actual, expected);
    assert!(!actual.is_empty());
}

#[test]
fn middle_item_added() {
    let old = vec![item_with_path("1"), item_with_path("3")];
    let new = vec![item_with_path("1"), item_with_path("2"), item_with_path("3")];

    let actual = PublicItemsDiff::between(old, new);
    let expected = PublicItemsDiff {
        removed: vec![],
        changed: vec![],
        added: vec![item_with_path("2")],
    };
    assert_eq!(actual, expected);
    assert!(!actual.is_empty());
}

#[test]
fn middle_item_removed() {
    let old = vec![item_with_path("1"), item_with_path("2"), item_with_path("3")];
    let new = vec![item_with_path("1"), item_with_path("3")];

    let actual = PublicItemsDiff::between(old, new);
    let expected = PublicItemsDiff {
        removed: vec![item_with_path("2")],
        changed: vec![],
        added: vec![],
    };
    assert_eq!(actual, expected);
    assert!(!actual.is_empty());
}

#[test]
fn many_identical_items() {
    let old = vec![
        item_with_path("1"),
        item_with_path("2"),
        item_with_path("2"),
        item_with_path("3"),
        item_with_path("3"),
        item_with_path("3"),
        fn_with_param_type(&["a", "b"], "i32"),
        fn_with_param_type(&["a", "b"], "i32"),
    ];
    let new = vec![
        item_with_path("1"),
        item_with_path("2"),
        item_with_path("3"),
        item_with_path("4"),
        item_with_path("4"),
        fn_with_param_type(&["a", "b"], "i64"),
        fn_with_param_type(&["a", "b"], "i64"),
    ];

    let actual = PublicItemsDiff::between(old, new);
    let expected = PublicItemsDiff {
        removed: vec![item_with_path("2"), item_with_path("3"), item_with_path("3")],
        changed: vec![
            ChangedPublicItem {
                old: fn_with_param_type(&["a", "b"], "i32"),
                new: fn_with_param_type(&["a", "b"], "i64"),
            },
            ChangedPublicItem {
                old: fn_with_param_type(&["a", "b"], "i32"),
                new: fn_with_param_type(&["a", "b"], "i64"),
            },
        ],
        added: vec![item_with_path("4"), item_with_path("4")],
    };
    assert_eq!(actual, expected);
    assert!(!actual.is_empty());
}

#[test]
fn no_off_by_one_diff_skewing() {
    let old = vec![
        fn_with_param_type(&["a", "b"], "i8"),
        fn_with_param_type(&["a", "b"], "i32"),
        fn_with_param_type(&["a", "b"], "i64"),
    ];
    // Same as `old` but with a new item with the same path added on top.
    // The diffing algorithm needs to figure out that only one item has been
    // added, rather than showing that of three items changed.
    let new = vec![
        fn_with_param_type(&["a", "b"], "u8"), // The only new item!
        fn_with_param_type(&["a", "b"], "i8"),
        fn_with_param_type(&["a", "b"], "i32"),
        fn_with_param_type(&["a", "b"], "i64"),
    ];
    let expected = PublicItemsDiff {
        removed: vec![],
        changed: vec![],
        added: vec![fn_with_param_type(&["a", "b"], "u8")],
    };
    let actual = PublicItemsDiff::between(old, new);
    assert_eq!(actual, expected);
    assert!(!actual.is_empty());
}

#[test]
fn empty_snapshots_differ_in_nothing() {
    let actual = PublicItemsDiff::between(vec![], vec![]);
    assert_eq!(actual, PublicItemsDiff { removed: vec![], changed: vec![], added: vec![] });
    assert!(actual.is_empty());
}

#[test]
fn equal_snapshots_differ_in_nothing() {
    let snapshot = || {
        vec![
            item_with_path("1"),
            item_with_path("2"),
            item_with_path("2"),
            fn_with_param_type(&["a", "b"], "i32"),
            fn_with_param_type(&["a", "b"], "i64"),
        ]
    };
    let actual = PublicItemsDiff::between(snapshot(), snapshot());
    assert!(actual.is_empty());
    assert_eq!(actual.removed, vec![]);
    assert_eq!(actual.changed, vec![]);
    assert_eq!(actual.added, vec![]);
}

#[test]
fn reordered_snapshot_differs_in_nothing() {
    let old = vec![item_with_path("1"), item_with_path("2"), item_with_path("2")];
    let new = vec![item_with_path("2"), item_with_path("1"), item_with_path("2")];
    assert!(PublicItemsDiff::between(old, new).is_empty());
}

#[test]
fn is_empty_sees_each_list() {
    let none = PublicItemsDiff { removed: vec![], changed: vec![], added: vec![] };
    assert!(none.is_empty());
    let removed = PublicItemsDiff { removed: vec![item_with_path("a")], changed: vec![], added: vec![] };
    assert!(!removed.is_empty());
    let changed_only = PublicItemsDiff {
        removed: vec![],
        changed: vec![changed(fn_with_param_type(&["a"], "i8"), fn_with_param_type(&["a"], "u8"))],
        added: vec![],
    };
    assert!(!changed_only.is_empty());
    let added = PublicItemsDiff { removed: vec![], changed: vec![], added: vec![item_with_path("a")] };
    assert!(!added.is_empty());
}

#[test]
fn surplus_of_a_repeated_item_is_removed() {
    // three times in the old snapshot, once in the new one: two went
    let old = vec![item_with_path("x"), item_with_path("x"), item_with_path("x")];
    let new = vec![item_with_path("x")];
    let actual = PublicItemsDiff::between(old, new);
    assert_eq!(actual.removed, vec![item_with_path("x"), item_with_path("x")]);
    assert_eq!(actual.changed, vec![]);
    assert_eq!(actual.added, vec![]);
}

#[test]
fn counts_are_conserved() {
    let a = || fn_with_param_type(&["p"], "i8");
    let b = || fn_with_param_type(&["p"], "i16");
    let c = || fn_with_param_type(&["p"], "i32");
    let old = vec![a(), a(), a(), b(), item_with_path("q")];
    let new = vec![a(), c(), c(), item_with_path("r"), item_with_path("r")];
    let diff = PublicItemsDiff::between(old, new);
    let count = |v: &PublicItem, items: &Vec<PublicItem>| items.iter().filter(|x| *x == v).count();
    let as_old = |v: &PublicItem| diff.changed.iter().filter(|x| &x.old == v).count();
    let as_new = |v: &PublicItem| diff.changed.iter().filter(|x| &x.new == v).count();
    // a: 3 - 1 went, b: 1 went, q: 1 went; c: 2 came, r: 2 came
    assert_eq!(count(&a(), &diff.removed) + as_old(&a()), 2);
    assert_eq!(count(&b(), &diff.removed) + as_old(&b()), 1);
    assert_eq!(count(&c(), &diff.removed) + as_old(&c()), 0);
    assert_eq!(count(&item_with_path("q"), &diff.removed) + as_old(&item_with_path("q")), 1);
    assert_eq!(count(&c(), &diff.added) + as_new(&c()), 2);
    assert_eq!(count(&item_with_path("r"), &diff.added) + as_new(&item_with_path("r")), 2);
    assert_eq!(count(&a(), &diff.added) + as_new(&a()), 0);
    // at path p three went and two came: two changes, one removal
    assert_eq!(diff.changed.len(), 2);
    assert_eq!(diff.removed.len(), 2);
    assert_eq!(diff.added, vec![item_with_path("r"), item_with_path("r")]);
}

#[test]
fn changes_stay_on_one_path_and_no_path_is_removed_and_added() {
    let old = vec![
        fn_with_param_type(&["a"], "i8"),
        fn_with_param_type(&["a"], "i16"),
        fn_with_param_type(&["b"], "i8"),
        item_with_path("c"),
    ];
    let new = vec![
        fn_with_param_type(&["a"], "u8"),
        fn_with_param_type(&["b"], "u8"),
        fn_with_param_type(&["b"], "u16"),
        item_with_path("d"),
    ];
    let diff = PublicItemsDiff::between(old, new);
    assert_eq!(diff.changed.len(), 2);
    for change in &diff.changed {
        assert_eq!(change.old.path, change.new.path);
        assert_ne!(change.old, change.new);
    }
    for removed in &diff.removed {
        for added in &diff.added {
            assert_ne!(removed.path, added.path);
        }
    }
    assert_eq!(diff.removed.len(), 2);
    assert_eq!(diff.added.len(), 2);
}

#[test]
fn swapping_the_snapshots_swaps_the_difference() {
    let old = || {
        vec![
            item_with_path("1"),
            item_with_path("2"),
            item_with_path("2"),
            fn_with_param_type(&["a", "b"], "i32"),
            fn_with_param_type(&["a", "b"], "i32"),
            fn_with_param_type(&["c"], "i8"),
        ]
    };
    let new = || {
        vec![
            item_with_path("1"),
            item_with_path("4"),
            fn_with_param_type(&["a", "b"], "i64"),
            fn_with_param_type(&["a", "b"], "u64"),
            fn_with_param_type(&["c"], "u8"),
        ]
    };
    let forth = PublicItemsDiff::between(old(), new());
    let back = PublicItemsDiff::between(new(), old());
    assert_eq!(forth.removed, back.added);
    assert_eq!(forth.added, back.removed);
    let swapped: Vec<ChangedPublicItem> =
        forth.changed.iter().map(|c| changed(c.new.clone(), c.old.clone())).collect();
    assert_eq!(swapped, back.changed);
    assert_eq!(forth.changed.len(), 3);
}

#[test]
fn the_order_of_a_snapshot_does_not_matter() {
    let old = vec![
        item_with_path("1"),
        item_with_path("2"),
        fn_with_param_type(&["a", "b"], "i32"),
        item_with_path("3"),
    ];
    let old_reordered = vec![
        item_with_path("3"),
        fn_with_param_type(&["a", "b"], "i32"),
        item_with_path("2"),
        item_with_path("1"),
    ];
    let new = vec![item_with_path("0"), fn_with_param_type(&["a", "b"], "i64"), item_with_path("3")];
    let new_reordered =
        vec![item_with_path("3"), item_with_path("0"), fn_with_param_type(&["a", "b"], "i64")];
    let one = PublicItemsDiff::between(old, new);
    let other = PublicItemsDiff::between(old_reordered, new_reordered);
    assert_eq!(one, other);
    assert_eq!(one.removed, vec![item_with_path("1"), item_with_path("2")]);
    assert_eq!(one.added, vec![item_with_path("0")]);
    assert_eq!(
        one.changed,
        vec![changed(
            fn_with_param_type(&["a", "b"], "i32"),
            fn_with_param_type(&["a", "b"], "i64")
        )]
    );
}

#[test]
fn results_are_sorted() {
    let old = vec![item_with_path("z"), item_with_path("m"), item_with_path("a"), item_with_path("m")];
    let new = vec![item_with_path("y"), item_with_path("b"), item_with_path("n")];
    let diff = PublicItemsDiff::between(old, new);
    assert_eq!(
        diff.removed,
        vec![item_with_path("a"), item_with_path("m"), item_with_path("m"), item_with_path("z")]
    );
    assert_eq!(diff.added, vec![item_with_path("b"), item_with_path("n"), item_with_path("y")]);
    assert!(diff.changed.is_empty());
}

#[test]
fn candidates_are_paired_from_the_last_backwards() {
    let a = || fn_with_param_type(&["p"], "i8");
    let b = || fn_with_param_type(&["p"], "i16");
    let c = || fn_with_param_type(&["p"], "u8");
    // at path p: removed [a, b], added [c]: the last removed pairs with the last added
    let diff = PublicItemsDiff::from_candidates(vec![(a(), 1), (b(), 1)], vec![(c(), 1)]);
    assert_eq!(diff.changed, vec![changed(b(), c())]);
    assert_eq!(diff.removed, vec![a()]);
    assert_eq!(diff.added, vec![]);
    // the other order of the removed list pairs the other item
    let diff = PublicItemsDiff::from_candidates(vec![(b(), 1), (a(), 1)], vec![(c(), 1)]);
    assert_eq!(diff.changed, vec![changed(a(), c())]);
    assert_eq!(diff.removed, vec![b()]);
    assert_eq!(diff.added, vec![]);
}

#[test]
fn candidates_count_as_often_as_they_say() {
    let a = || fn_with_param_type(&["p"], "i8");
    let c = || fn_with_param_type(&["p"], "u8");
    let d = || fn_with_param_type(&["p"], "u16");
    let diff = PublicItemsDiff::from_candidates(
        vec![(a(), 2), (item_with_path("q"), 3)],
        vec![(c(), 1), (d(), 2), (item_with_path("r"), 0)],
    );
    // removed at p: [a, a]; added at p: [c, d, d]: pairs (a, d), (a, d); c is added
    assert_eq!(diff.changed, vec![changed(a(), d()), changed(a(), d())]);
    assert_eq!(
        diff.removed,
        vec![item_with_path("q"), item_with_path("q"), item_with_path("q")]
    );
    assert_eq!(diff.added, vec![c()]);
}

#[test]
fn no_candidates_give_an_empty_difference() {
    let diff = PublicItemsDiff::from_candidates(vec![], vec![]);
    assert!(diff.is_empty());
}

#[test]
fn changes_are_sorted_by_old_item_then_new_item() {
    let diff = PublicItemsDiff::from_candidates(
        vec![
            (fn_with_param_type(&["b"], "i8"), 1),
            (fn_with_param_type(&["a"], "i8"), 1),
            (fn_with_param_type(&["c"], "i8"), 2),
        ],
        vec![
            (fn_with_param_type(&["c"], "u8"), 1),
            (fn_with_param_type(&["c"], "u16"), 1),
            (fn_with_param_type(&["a"], "u8"), 1),
            (fn_with_param_type(&["b"], "u8"), 1),
        ],
    );
    assert_eq!(
        diff.changed,
        vec![
            changed(fn_with_param_type(&["a"], "i8"), fn_with_param_type(&["a"], "u8")),
            changed(fn_with_param_type(&["b"], "i8"), fn_with_param_type(&["b"], "u8")),
            changed(fn_with_param_type(&["c"], "i8"), fn_with_param_type(&["c"], "u16")),
            changed(fn_with_param_type(&["c"], "i8"), fn_with_param_type(&["c"], "u8")),
        ]
    );
    assert!(diff.removed.is_empty());
    assert!(diff.added.is_empty());
}

#[test]
fn equal_items_hash_alike() {
    let hash_of = |item: &PublicItem| {
        let mut hasher = std::collections::hash_map::DefaultHasher::new();
        item.hash(&mut hasher);
        hasher.finish()
    };
    let a = fn_with_param_type(&["a", "b"], "i32");
    let b = fn_with_param_type(&["a", "b"], "i32");
    assert_eq!(a, b);
    assert_eq!(hash_of(&a), hash_of(&b));
    assert_eq!(hash_of(&a), hash_of(&a.clone()));
    assert_eq!(hash_of(&item_with_path("x::y")), hash_of(&item_with_path("x::y")));
}

#[test]
fn a_larger_difference_keeps_every_law() {
    // a fixed sequence of small numbers that looks shuffled
    let mut state: u32 = 12345;
    let mut next = move |bound: u32| {
        state = state.wrapping_mul(1103515245).wrapping_add(12345);
        (state >> 16) % bound
    };
    let paths = ["a", "a::b", "b", "c::d::e", "f"];
    let types = ["i8", "i16", "u8"];
    let mut pick = |n: usize| -> Vec<PublicItem> {
        (0..n)
            .map(|_| {
                let path: Vec<&str> = paths[next(5) as usize].split("::").collect();
                fn_with_param_type(&path, types[next(3) as usize])
            })
            .collect()
    };
    let old = pick(60);
    let new = pick(70);
    let diff = PublicItemsDiff::between(old.clone(), new.clone());

    // each list is sorted
    assert!(diff.removed.windows(2).all(|w| w[0] <= w[1]));
    assert!(diff.changed.windows(2).all(|w| w[0] <= w[1]));
    assert!(diff.added.windows(2).all(|w| w[0] <= w[1]));

    // counts are conserved for every item that occurs anywhere
    let count = |v: &PublicItem, items: &Vec<PublicItem>| items.iter().filter(|x| *x == v).count();
    for v in old.iter().chain(new.iter()) {
        let went = count(v, &old).saturating_sub(count(v, &new));
        let came = count(v, &new).saturating_sub(count(v, &old));
        let as_old = diff.changed.iter().filter(|c| &c.old == v).count();
        let as_new = diff.changed.iter().filter(|c| &c.new == v).count();
        assert_eq!(count(v, &diff.removed) + as_old, went);
        assert_eq!(count(v, &diff.added) + as_new, came);
    }
    // nothing else is in the difference
    let total_went: usize = diff.removed.len() + diff.changed.len();
    let total_came: usize = diff.added.len() + diff.changed.len();
    assert_eq!(total_came - total_went, 10);

    // paths are local
    for change in &diff.changed {
        assert_eq!(change.old.path, change.new.path);
        assert_ne!(change.old, change.new);
    }
    for removed in &diff.removed {
        assert!(diff.added.iter().all(|added| added.path != removed.path));
    }

    // the other way round, removed and added change places
    let back = PublicItemsDiff::between(new, old);
    assert_eq!(back.removed.len(), diff.added.len());
    assert_eq!(back.added.len(), diff.removed.len());
    assert_eq!(back.changed.len(), diff.changed.len());
}
