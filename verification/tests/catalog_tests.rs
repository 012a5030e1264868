use quipcat::catalog::{build_catalog, item_at_position, Catalog, CategoryEntry, Item};
use quipcat::text::{split_str, str_le};
use quipcat::DrawError;

fn item(name: &str, locator: &str) -> Item {
    Item { name: String::from(name), locator: String::from(locator) }
}

/// Three categories of sizes 3, 1 and 2, handed over out of order.
fn sample_catalog() -> Catalog {
    build_catalog(vec![
        (String::from("a1"), item("chime", "a1/chime.mp3")),
        (String::from("b2"), item("drum", "b2/drum.mp3")),
        (String::from("a1"), item("bell", "a1/bell.mp3")),
        (String::from("c3"), item("flute", "c3/flute.mp3")),
        (String::from("a1"), item("anvil", "a1/anvil.mp3")),
        (String::from("c3"), item("echo", "c3/echo.mp3")),
    ])
}

#[test]
fn test_build_totals() {
    let cat = sample_catalog();
    assert_eq!(cat.total, 6);
    let mut sum: usize = 0;
    for e in &cat.entries {
        sum += e.items.len();
    }
    assert_eq!(sum, cat.total);
}

#[test]
fn test_build_sorts_by_locator() {
    let cat = sample_catalog();
    let items = cat.lookup_category(&String::from("a1")).unwrap();
    assert_eq!(items.len(), 3);
    assert_eq!(items[0].name, "anvil");
    assert_eq!(items[1].name, "bell");
    assert_eq!(items[2].name, "chime");
}

#[test]
fn test_lookup_unknown_category() {
    let cat = sample_catalog();
    let err = cat.lookup_category(&String::from("zz")).unwrap_err();
    assert!(matches!(err, DrawError::UnknownCategory { ref name } if name.as_str() == "zz"));
}

#[test]
fn test_resolve_covers_every_ordinal() {
    let cat = sample_catalog();
    let mut seen: Vec<String> = Vec::new();
    for i in 0..cat.total {
        let (it, category, local) = cat.resolve_global_ordinal(i).unwrap();
        let items = cat.lookup_category(category).unwrap();
        assert!(local < items.len());
        assert_eq!(items[local].name, it.name);
        let key = format!("{}#{}", category, local);
        assert!(!seen.contains(&key));
        seen.push(key);
    }
    assert_eq!(seen.len(), cat.total);
}

#[test]
fn test_resolve_out_of_range() {
    let cat = sample_catalog();
    let err = cat.resolve_global_ordinal(6).unwrap_err();
    assert!(matches!(err, DrawError::OrdinalOutOfRange { ordinal: 6, total: 6 }));
}

#[test]
fn test_ordinal_round_trip() {
    let cat = sample_catalog();
    for i in 0..cat.total {
        let (_, category, local) = cat.resolve_global_ordinal(i).unwrap();
        let category = category.clone();
        assert_eq!(cat.global_ordinal_of(&category, local), Some(i));
    }
}

#[test]
fn test_ordinal_of_unknown_or_outside() {
    let cat = sample_catalog();
    assert_eq!(cat.global_ordinal_of(&String::from("zz"), 0), None);
    assert_eq!(cat.global_ordinal_of(&String::from("b2"), 1), None);
}

#[test]
fn test_select_global_uniform_reach() {
    let cat = sample_catalog();
    for _ in 0..100 {
        let (it, category, local) = cat.select_global().unwrap();
        let items = cat.lookup_category(&category.clone()).unwrap();
        assert!(local < items.len());
        assert_eq!(items[local].name, it.name);
    }
}

#[test]
fn test_select_global_empty_catalog() {
    let cat = build_catalog(Vec::new());
    assert_eq!(cat.total, 0);
    let err = cat.select_global().unwrap_err();
    assert!(matches!(err, DrawError::EmptyCatalog));
}

#[test]
fn test_select_within_single_item() {
    // A category with exactly one item always yields that item at
    // local index 0.
    let cat = build_catalog(vec![
        (String::from("a1"), item("chime", "a1/chime.mp3")),
        (String::from("solo"), item("lone", "solo/lone.mp3")),
        (String::from("a1"), item("bell", "a1/bell.mp3")),
    ]);
    for _ in 0..50 {
        let (it, local) = cat.select_within(&String::from("solo")).unwrap();
        assert_eq!(local, 0);
        assert_eq!(it.name, "lone");
    }
}

#[test]
fn test_select_within_unknown_category() {
    let cat = sample_catalog();
    let err = cat.select_within(&String::from("nope")).unwrap_err();
    assert!(matches!(err, DrawError::UnknownCategory { ref name } if name.as_str() == "nope"));
}

#[test]
fn test_select_within_empty_category() {
    let cat = Catalog {
        entries: vec![CategoryEntry { name: String::from("bare"), items: Vec::new() }],
        total: 0,
    };
    let err = cat.select_within(&String::from("bare")).unwrap_err();
    assert!(matches!(err, DrawError::EmptyCategory { ref name } if name.as_str() == "bare"));
}

#[test]
fn test_item_at_position() {
    let cat = sample_catalog();
    let items = cat.lookup_category(&String::from("a1")).unwrap();
    assert!(item_at_position(items, 0).is_none());
    assert_eq!(item_at_position(items, 1).unwrap().name, "anvil");
    assert_eq!(item_at_position(items, 3).unwrap().name, "chime");
    assert!(item_at_position(items, 4).is_none());
}

#[test]
fn test_str_le_order() {
    assert!(str_le("abc", "abd"));
    assert!(str_le("abc", "abc"));
    assert!(str_le("ab", "abc"));
    assert!(!str_le("abd", "abc"));
    assert!(!str_le("b", "abc"));
    assert!(str_le("", "a"));
}

#[test]
fn test_split_str_short() {
    let pieces = split_str("hello");
    assert_eq!(pieces, vec![String::from("hello\n```")]);
}

#[test]
fn test_split_str_empty() {
    let pieces = split_str("");
    assert!(pieces.is_empty());
}

#[test]
fn test_split_str_long() {
    let long: String = "x".repeat(1993);
    let pieces = split_str(&long);
    assert_eq!(pieces.len(), 2);
    let first: String = "x".repeat(1992) + "\n```";
    assert_eq!(pieces[0], first);
    assert_eq!(pieces[1], "```\nx\n```");
}

#[test]
fn test_split_str_exact_chunk() {
    let exact: String = "y".repeat(1992);
    let pieces = split_str(&exact);
    assert_eq!(pieces.len(), 1);
    assert_eq!(pieces[0], exact + "\n```");
}
