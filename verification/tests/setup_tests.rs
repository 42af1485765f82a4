use leftright::setup::{parse_categories, trim};

#[test]
fn parse_splits_and_trims() {
    let got = parse_categories(&"keep, discard".to_string());
    assert_eq!(got, Some(vec!["keep".to_string(), "discard".to_string()]));
}

#[test]
fn parse_rejects_empty_field_and_empty_labels() {
    assert_eq!(parse_categories(&"".to_string()), None);
    assert_eq!(parse_categories(&"   ".to_string()), None);
    assert_eq!(parse_categories(&",a".to_string()), None);
    assert_eq!(parse_categories(&"a,,b".to_string()), None);
}

#[test]
fn parse_keeps_at_most_four_labels() {
    let got = parse_categories(&"a,b,c,d,e".to_string());
    assert_eq!(
        got,
        Some(vec!["a".to_string(), "b".to_string(), "c".to_string(), "d".to_string()])
    );
}

#[test]
fn trim_strips_unicode_white_space() {
    assert_eq!(trim("  spaces \t"), "spaces".to_string());
    assert_eq!(trim("solid"), "solid".to_string());
    assert_eq!(trim(" \n "), "".to_string());
    // The Unicode blanks str::trim strips go too: no-break space,
    // ideographic space.
    assert_eq!(trim("\u{a0}keep\u{3000}"), "keep".to_string());
    assert_eq!(trim("\u{2009}"), "".to_string());
}
