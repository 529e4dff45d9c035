use public_api::diff::ChangedPublicItem;
use public_api::item::PublicItem;
use public_api::order::{compare_seqs, compare_text, Ordered, Relation};
use public_api::sorting::{merge, reversed, sort};
use public_api::tokens::Token;

fn named(path: &[&str], text: &str) -> PublicItem {
    PublicItem::new(path.iter().map(|s| s.to_string()).collect(), vec![Token::identifier(text)])
}

fn strings(texts: &[&str]) -> Vec<String> {
    texts.iter().map(|s| s.to_string()).collect()
}

#[test]
fn text_is_ordered_by_its_first_difference() {
    assert_eq!(compare_text("abc", "abd"), Relation::Before);
    assert_eq!(compare_text("abd", "abc"), Relation::After);
    assert_eq!(compare_text("abc", "abc"), Relation::Same);
    assert_eq!(compare_text("b", "abc"), Relation::After);
}

#[test]
fn a_proper_prefix_comes_first() {
    assert_eq!(compare_text("ab", "abc"), Relation::Before);
    assert_eq!(compare_text("abc", "ab"), Relation::After);
    assert_eq!(compare_text("", "a"), Relation::Before);
    assert_eq!(compare_text("a", ""), Relation::After);
    assert_eq!(compare_text("", ""), Relation::Same);
}

#[test]
fn characters_are_ordered_by_code_point() {
    assert_eq!(compare_text("Z", "a"), Relation::Before);
    assert_eq!(compare_text("z", "é"), Relation::Before);
    assert_eq!(compare_text("é", "z"), Relation::After);
    assert_eq!(compare_text("\u{ffff}", "\u{10000}"), Relation::Before);
    assert_eq!(compare_text("日本", "日本"), Relation::Same);
}

#[test]
fn text_order_agrees_with_the_order_of_strings() {
    let texts = ["", "a", "ab", "b", "B", "é", "z", "zz", "\u{10000}", "i16", "i8", "u16", "u8"];
    for a in texts {
        for b in texts {
            let expected = match a.cmp(b) {
                std::cmp::Ordering::Less => Relation::Before,
                std::cmp::Ordering::Equal => Relation::Same,
                std::cmp::Ordering::Greater => Relation::After,
            };
            assert_eq!(compare_text(a, b), expected);
            assert_eq!(a.to_string().compare(&b.to_string()), expected);
        }
    }
}

#[test]
fn vectors_are_ordered_element_by_element() {
    assert_eq!(compare_seqs(&strings(&["a", "b"]), &strings(&["a", "c"])), Relation::Before);
    assert_eq!(compare_seqs(&strings(&["a", "c"]), &strings(&["a", "b"])), Relation::After);
    assert_eq!(compare_seqs(&strings(&["a"]), &strings(&["a", "b"])), Relation::Before);
    assert_eq!(compare_seqs(&strings(&["a", "b"]), &strings(&["a"])), Relation::After);
    assert_eq!(compare_seqs(&strings(&["a", "b"]), &strings(&["a", "b"])), Relation::Same);
    assert_eq!(compare_seqs(&strings(&[]), &strings(&[])), Relation::Same);
    // the first difference decides, whatever follows
    assert_eq!(compare_seqs(&strings(&["a", "z"]), &strings(&["b"])), Relation::Before);
    // a segment that is a prefix of the other comes first
    assert_eq!(compare_seqs(&strings(&["ab"]), &strings(&["a", "b"])), Relation::After);
}

#[test]
fn tokens_are_ordered_by_kind_then_text() {
    assert_eq!(Token::symbol("z").compare(&Token::qualifier("a")), Relation::Before);
    assert_eq!(Token::type_("a").compare(&Token::symbol("z")), Relation::After);
    assert_eq!(Token::kind("z").compare(&Token::Whitespace), Relation::Before);
    assert_eq!(Token::Whitespace.compare(&Token::identifier("")), Relation::Before);
    assert_eq!(Token::Whitespace.compare(&Token::Whitespace), Relation::Same);
    assert_eq!(Token::identifier("a").compare(&Token::identifier("b")), Relation::Before);
    assert_eq!(Token::identifier("b").compare(&Token::identifier("a")), Relation::After);
    assert_eq!(Token::identifier("a").compare(&Token::identifier("a")), Relation::Same);
    assert_eq!(Token::identifier("a").compare(&Token::function("a")), Relation::Before);
}

#[test]
fn the_kinds_of_token_stand_in_one_order() {
    let tokens = [
        Token::symbol("x"),
        Token::qualifier("x"),
        Token::kind("x"),
        Token::Whitespace,
        Token::identifier("x"),
        Token::annotation("x"),
        Token::self_("x"),
        Token::function("x"),
        Token::lifetime("x"),
        Token::keyword("x"),
        Token::generic("x"),
        Token::primitive("x"),
        Token::type_("x"),
    ];
    for (i, a) in tokens.iter().enumerate() {
        assert_eq!(a.rank() as usize, i);
        for (j, b) in tokens.iter().enumerate() {
            let expected = if i < j {
                Relation::Before
            } else if i == j {
                Relation::Same
            } else {
                Relation::After
            };
            assert_eq!(a.compare(b), expected);
            assert_eq!(a == b, i == j);
        }
    }
}

#[test]
fn a_token_has_the_text_it_was_made_with() {
    assert_eq!(Token::symbol("::").text(), "::");
    assert_eq!(Token::qualifier("pub").text(), "pub");
    assert_eq!(Token::kind("fn").text(), "fn");
    assert_eq!(Token::Whitespace.text(), " ");
    assert_eq!(Token::identifier("x").text(), "x");
    assert_eq!(Token::annotation("#[a]").text(), "#[a]");
    assert_eq!(Token::self_("Self").text(), "Self");
    assert_eq!(Token::function("f").text(), "f");
    assert_eq!(Token::lifetime("'a").text(), "'a");
    assert_eq!(Token::keyword("impl").text(), "impl");
    assert_eq!(Token::generic("T").text(), "T");
    assert_eq!(Token::primitive("usize").text(), "usize");
    assert_eq!(Token::type_("Iterator").text(), "Iterator");
    assert_eq!(Token::symbol("::"), Token::Symbol("::".to_string()));
    assert_eq!(Token::type_("T"), Token::Type("T".to_string()));
}

#[test]
fn a_copy_of_a_token_equals_it() {
    let token = Token::lifetime("'a");
    assert_eq!(token.clone(), token);
    assert_eq!(Token::Whitespace.clone(), Token::Whitespace);
    assert_ne!(Token::lifetime("'a"), Token::lifetime("'b"));
    assert_ne!(Token::lifetime("x"), Token::keyword("x"));
}

#[test]
fn items_are_ordered_by_path_then_rendering() {
    assert_eq!(named(&["a"], "z").compare(&named(&["b"], "a")), Relation::Before);
    assert_eq!(named(&["b"], "a").compare(&named(&["a"], "z")), Relation::After);
    assert_eq!(named(&["a"], "x").compare(&named(&["a"], "y")), Relation::Before);
    assert_eq!(named(&["a"], "y").compare(&named(&["a"], "x")), Relation::After);
    assert_eq!(named(&["a"], "x").compare(&named(&["a"], "x")), Relation::Same);
    assert_eq!(named(&["a"], "x").compare(&named(&["a", "b"], "a")), Relation::Before);
}

#[test]
fn items_are_equal_when_path_and_rendering_are() {
    assert_eq!(named(&["a", "b"], "x"), named(&["a", "b"], "x"));
    assert_ne!(named(&["a", "b"], "x"), named(&["a", "b"], "y"));
    assert_ne!(named(&["a", "b"], "x"), named(&["a", "c"], "x"));
    assert_ne!(named(&["a", "b"], "x"), named(&["a"], "x"));
    let item = named(&["a", "b"], "x");
    assert_eq!(item.clone(), item);
    assert_eq!(item.path, vec!["a".to_string(), "b".to_string()]);
    assert_eq!(item.tokens, vec![Token::identifier("x")]);
}

#[test]
fn changes_are_ordered_by_old_item_then_new_item() {
    let change = |old: &str, new: &str| ChangedPublicItem {
        old: named(&["p"], old),
        new: named(&["p"], new),
    };
    assert_eq!(change("a", "z").compare(&change("b", "a")), Relation::Before);
    assert_eq!(change("b", "a").compare(&change("a", "z")), Relation::After);
    assert_eq!(change("a", "x").compare(&change("a", "y")), Relation::Before);
    assert_eq!(change("a", "y").compare(&change("a", "x")), Relation::After);
    assert_eq!(change("a", "x").compare(&change("a", "x")), Relation::Same);
    assert_eq!(change("a", "x"), change("a", "x"));
    assert_ne!(change("a", "x"), change("a", "y"));
    assert_ne!(change("a", "x"), change("b", "x"));
    assert_eq!(change("a", "x").clone(), change("a", "x"));
}

#[test]
fn sorting_puts_items_in_order_and_keeps_each() {
    let sorted = sort(vec![
        named(&["c"], "x"),
        named(&["a"], "y"),
        named(&["b"], "x"),
        named(&["a"], "x"),
        named(&["c"], "x"),
        named(&["a", "a"], "x"),
    ]);
    assert_eq!(
        sorted,
        vec![
            named(&["a"], "x"),
            named(&["a"], "y"),
            named(&["a", "a"], "x"),
            named(&["b"], "x"),
            named(&["c"], "x"),
            named(&["c"], "x"),
        ]
    );
}

#[test]
fn sorting_handles_the_small_cases() {
    assert_eq!(sort(Vec::<String>::new()), Vec::<String>::new());
    assert_eq!(sort(strings(&["a"])), strings(&["a"]));
    assert_eq!(sort(strings(&["b", "a"])), strings(&["a", "b"]));
    assert_eq!(sort(strings(&["a", "b"])), strings(&["a", "b"]));
    assert_eq!(sort(strings(&["a", "a"])), strings(&["a", "a"]));
}

#[test]
fn sorting_agrees_with_the_order_of_strings() {
    let texts = strings(&["pear", "apple", "fig", "", "apple", "Zebra", "éclair", "figs", "fi", "z"]);
    let mut expected = texts.clone();
    expected.sort();
    assert_eq!(sort(texts), expected);
    let many: Vec<String> = (0..200u32).map(|n| ((n * 7919) % 251).to_string()).collect();
    let mut expected = many.clone();
    expected.sort();
    assert_eq!(sort(many), expected);
}

#[test]
fn merging_keeps_order_and_elements() {
    assert_eq!(
        merge(strings(&["a", "c", "c", "e"]), strings(&["b", "c", "d", "f", "g"])),
        strings(&["a", "b", "c", "c", "c", "d", "e", "f", "g"])
    );
    assert_eq!(merge(strings(&[]), strings(&["a", "b"])), strings(&["a", "b"]));
    assert_eq!(merge(strings(&["a", "b"]), strings(&[])), strings(&["a", "b"]));
    assert_eq!(merge(strings(&[]), strings(&[])), strings(&[]));
    assert_eq!(merge(strings(&["x"]), strings(&["a", "b"])), strings(&["a", "b", "x"]));
}

#[test]
fn reversing_turns_a_vector_round() {
    assert_eq!(reversed(strings(&["a", "b", "c"])), strings(&["c", "b", "a"]));
    assert_eq!(reversed(strings(&["a"])), strings(&["a"]));
    assert_eq!(reversed(strings(&[])), strings(&[]));
}

#[test]
fn the_comparison_operators_follow_the_order() {
    assert!(Token::symbol("z") < Token::qualifier("a"));
    assert!(Token::identifier("a") < Token::identifier("b"));
    assert!(Token::identifier("b") > Token::identifier("a"));
    assert!(Token::identifier("a") <= Token::identifier("a"));
    assert!(!(Token::identifier("a") < Token::identifier("a")));
    assert!(named(&["a"], "z") < named(&["b"], "a"));
    assert!(named(&["a"], "x") < named(&["a"], "y"));
    assert!(named(&["a"], "x") >= named(&["a"], "x"));
    assert!(named(&["a", "b"], "x") > named(&["a"], "x"));
    let change = |old: &str, new: &str| ChangedPublicItem {
        old: named(&["p"], old),
        new: named(&["p"], new),
    };
    assert!(change("a", "z") < change("b", "a"));
    assert!(change("a", "x") < change("a", "y"));
    assert!(change("a", "x") >= change("a", "x"));
    assert_eq!(
        named(&["a"], "x").partial_cmp(&named(&["a"], "y")),
        Some(std::cmp::Ordering::Less)
    );
    assert_eq!(Relation::Before.to_ordering(), std::cmp::Ordering::Less);
    assert_eq!(Relation::Same.to_ordering(), std::cmp::Ordering::Equal);
    assert_eq!(Relation::After.to_ordering(), std::cmp::Ordering::Greater);
}
