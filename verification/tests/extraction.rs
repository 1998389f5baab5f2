use product_archiver::parser::parse_product;
use product_archiver::parser::trim;

#[test]
fn extracts_trimmed_title_from_fixture() {
    let html = "<html><body><h1 class=\"product-title-text\">  Wireless Mouse  </h1></body></html>";
    let p = parse_product(1005007181903595, html);
    assert_eq!(p.product_id, 1005007181903595u64);
    assert_eq!(p.title, "Wireless Mouse");
}

#[test]
fn extracts_title_surrounded_by_mixed_whitespace() {
    let html = "<html><body><h1 class=\"product-title-text\">\n\t Gaming Keyboard \r\n</h1></body></html>";
    let p = parse_product(7, html);
    assert_eq!(p.title, "Gaming Keyboard");
}

#[test]
fn first_matching_element_wins() {
    let html = "<html><body><h1 class=\"product-title-text\">First</h1>\
                <h1 class=\"product-title-text\">Second</h1></body></html>";
    let p = parse_product(7, html);
    assert_eq!(p.title, "First");
}

#[test]
fn sentinel_title_when_element_missing() {
    let html = "<html><body><p>no title here</p></body></html>";
    let p = parse_product(42, html);
    assert_eq!(p.title, "Unknown Title");
    assert_eq!(p.product_id, 42u64);
}

#[test]
fn sentinel_title_for_empty_document() {
    let p = parse_product(1, "");
    assert_eq!(p.title, "Unknown Title");
}

#[test]
fn malformed_markup_does_not_fail() {
    let p = parse_product(1, "<<<div><h1><p powers< broken");
    assert_eq!(p.title, "Unknown Title");
    // The parser closes the dangling div: the inner markup is kept as-is.
    let p2 = parse_product(
        1,
        "<h1 class=\"product-title-text\">Unclosed Title<div></body>",
    );
    assert_eq!(p2.title, "Unclosed Title<div></div>");
}

#[test]
fn wrong_element_or_class_does_not_match() {
    let p = parse_product(1, "<h2 class=\"product-title-text\">x</h2>");
    assert_eq!(p.title, "Unknown Title");
    let p2 = parse_product(1, "<h1 class=\"product-title\">x</h1>");
    assert_eq!(p2.title, "Unknown Title");
}

#[test]
fn title_trims_unicode_whitespace() {
    let html = "<html><body><h1 class=\"product-title-text\">\u{0C} Wireless Mouse \u{2003}</h1></body></html>";
    let p = parse_product(3, html);
    assert_eq!(p.title, "Wireless Mouse");
}

#[test]
fn trim_matches_std_unicode_whitespace() {
    let samples = [
        "\u{0C}x\u{0B}",
        "\u{2003}\u{85}y\u{A0}z\u{3000}",
        "\u{1680}\u{2028}\u{2029}\u{202F}\u{205F}w\u{200A}\u{2000}",
        " \t\r\nmixed\u{0B}\u{0C}",
        "no trim needed",
        "",
    ];
    for s in samples {
        assert_eq!(trim(s), s.trim());
    }
}

#[test]
fn timestamp_is_rfc3339_between_start_and_end() {
    let before = chrono::Utc::now();
    let p = parse_product(9, "<p>nothing</p>");
    let after = chrono::Utc::now();
    let parsed = chrono::DateTime::parse_from_rfc3339(&p.timestamp)
        .expect("timestamp must parse as RFC 3339");
    let parsed_utc = parsed.with_timezone(&chrono::Utc);
    assert!(parsed_utc >= before);
    assert!(parsed_utc <= after);
    assert!(p.timestamp.ends_with("+00:00"));
}

#[test]
fn trim_removes_leading_and_trailing_whitespace_only() {
    assert_eq!(trim("  a b\t\n"), "a b");
    assert_eq!(trim(""), "");
    assert_eq!(trim(" \t\r\n"), "");
    assert_eq!(trim("inner  spaces kept"), "inner  spaces kept");
}
