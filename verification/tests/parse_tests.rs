use trait_export::parse::category_order;
use trait_export::text::{capitalize, parse_name_and_rarity};

#[test]
fn category_order_numeric_prefix() {
    assert_eq!(category_order("03_hats"), 3);
}

#[test]
fn category_order_no_prefix() {
    assert_eq!(category_order("hats"), 1);
}

#[test]
fn category_order_edge_cases() {
    assert_eq!(category_order(""), 1);
    assert_eq!(category_order("42"), 42);
    assert_eq!(category_order("0042x"), 42);
    assert_eq!(category_order("0000"), 0);
    assert_eq!(category_order("4294967295_max"), 4294967295);
    // a value that does not fit in u32 falls back to 1
    assert_eq!(category_order("4294967296_over"), 1);
    assert_eq!(category_order("99999999999999999999_way_over"), 1);
    assert_eq!(category_order("_7"), 1);
}

#[test]
fn capitalize_basic() {
    assert_eq!(capitalize("plain_hat"), "Plain Hat");
    assert_eq!(capitalize("Plain_Hat"), "Plain Hat");
    assert_eq!(capitalize("already"), "Already");
    assert_eq!(capitalize("sword.2"), "Sword.2");
}

#[test]
fn capitalize_separators() {
    assert_eq!(capitalize("a__b"), "A B");
    assert_eq!(capitalize("  two  words "), "Two Words");
    assert_eq!(capitalize("_"), "");
    assert_eq!(capitalize(""), "");
    assert_eq!(capitalize("tab\there"), "Tab Here");
}

#[test]
fn capitalize_unicode_first_char() {
    // the first character of each word goes through the Unicode mapping
    assert_eq!(capitalize("über_cool"), "Über Cool");
    assert_eq!(capitalize("ßharp"), "SSharp");
}

#[test]
fn parse_plain_stem() {
    let (name, rarity) = parse_name_and_rarity("Plain_Hat");
    assert_eq!(name, "Plain Hat");
    assert_eq!(rarity, None);
}

#[test]
fn parse_no_dot() {
    let (name, rarity) = parse_name_and_rarity("already");
    assert_eq!(name, "Already");
    assert_eq!(rarity, None);
}

#[test]
fn parse_rightmost_dot_quirk() {
    // the split happens at the last dot: the rarity is the final "5" and the
    // embedded dot stays in the name
    let (name, rarity) = parse_name_and_rarity("sword.2.5");
    assert_eq!(name, "Sword.2");
    assert_eq!(rarity.as_deref(), Some("5"));
    assert_eq!(rarity.unwrap().parse::<f32>().unwrap(), 5.0);

    let (name, rarity) = parse_name_and_rarity("Sword.2.5");
    assert_eq!(name, "Sword.2");
    assert_eq!(rarity.as_deref(), Some("5"));
}

#[test]
fn parse_simple_rarity() {
    let (name, rarity) = parse_name_and_rarity("sword.2");
    assert_eq!(name, "Sword");
    assert_eq!(rarity.as_deref(), Some("2"));
    assert_eq!(rarity.unwrap().parse::<f32>().unwrap(), 2.0);
}

#[test]
fn parse_fractional_rarity_needs_single_suffix() {
    let (name, rarity) = parse_name_and_rarity("hat.0.25");
    assert_eq!(name, "Hat.0");
    assert_eq!(rarity.as_deref(), Some("25"));
}

#[test]
fn parse_unparsable_suffix_falls_back() {
    let (name, rarity) = parse_name_and_rarity("hat.rare");
    assert_eq!(name, "Hat.rare");
    assert_eq!(rarity, None);

    let (name, rarity) = parse_name_and_rarity("hat.");
    assert_eq!(name, "Hat.");
    assert_eq!(rarity, None);
}

#[test]
fn rarity_acceptance_matches_float_parsing() {
    // the suffix is taken as a rarity exactly when `str::parse::<f32>`
    // accepts it
    let candidates = [
        "5", "05", "1e5", "1E5", "1e+5", "1e-5", "+2", "-3", "3e", "3e+", "e5", "", "abc",
        "nan", "NaN", "inf", "INFINITY", "infinit", "1_000", "0x10", " 1", "1 ", "∞", "١",
        "--1", "++1", "+", "-", "1e999",
    ];
    for s in candidates {
        let stem = format!("p.{}", s);
        let (_, rarity) = parse_name_and_rarity(&stem);
        assert_eq!(
            rarity.is_some(),
            s.parse::<f32>().is_ok(),
            "suffix {:?} disagreed with std float parsing",
            s
        );
        if let Some(r) = rarity {
            assert_eq!(r, s);
        }
    }
}
