use product_archiver::Product;
use product_archiver::archiver::from_json;
use product_archiver::archiver::to_json_pretty;
use product_archiver::get_product_url;

fn record(id: u64, title: &str, timestamp: &str) -> Product {
    Product { product_id: id, title: title.to_string(), timestamp: timestamp.to_string() }
}

#[test]
fn serialized_record_is_valid_json_with_exact_fields() {
    let p = record(1005007181903595, "Wireless Mouse", "2024-05-01T12:00:00+00:00");
    let text = to_json_pretty(&p);
    let v: serde_json::Value = serde_json::from_str(&text).expect("output must be valid JSON");
    assert_eq!(v["product_id"].as_u64(), Some(1005007181903595u64));
    assert_eq!(v["title"].as_str(), Some("Wireless Mouse"));
    assert_eq!(v["timestamp"].as_str(), Some("2024-05-01T12:00:00+00:00"));
}

#[test]
fn serialized_form_is_indented_with_fixed_key_order() {
    let p = record(7, "x", "t");
    let text = to_json_pretty(&p);
    assert_eq!(
        text,
        "{\n  \"product_id\": 7,\n  \"title\": \"x\",\n  \"timestamp\": \"t\"\n}"
    );
}

#[test]
fn round_trip_plain_record() {
    let p = record(1005007181903595, "Wireless Mouse", "2024-05-01T12:00:00+00:00");
    let text = to_json_pretty(&p);
    let q = from_json(&text).expect("own output must parse");
    assert_eq!(q.product_id, p.product_id);
    assert_eq!(q.title, p.title);
    assert_eq!(q.timestamp, p.timestamp);
}

#[test]
fn round_trip_with_escaped_characters() {
    let p = record(0, "a\"b\\c\nd\u{1}e", "t\"\\\u{1f}");
    let text = to_json_pretty(&p);
    let v: serde_json::Value = serde_json::from_str(&text).expect("escapes must be valid JSON");
    assert_eq!(v["title"].as_str(), Some("a\"b\\c\nd\u{1}e"));
    let q = from_json(&text).expect("own output must parse");
    assert_eq!(q.product_id, 0u64);
    assert_eq!(q.title, p.title);
    assert_eq!(q.timestamp, p.timestamp);
}

#[test]
fn round_trip_keeps_non_ascii_text() {
    let p = record(u64::MAX, "h\u{e9}llo \u{2013} \u{2603}", "2024-01-01T00:00:00+00:00");
    let text = to_json_pretty(&p);
    let q = from_json(&text).expect("own output must parse");
    assert_eq!(q.product_id, u64::MAX);
    assert_eq!(q.title, p.title);
}

#[test]
fn control_characters_are_escaped_lowercase() {
    let p = record(1, "\u{1f}", "\u{0}");
    let text = to_json_pretty(&p);
    assert!(text.contains("\\u001f"));
    assert!(text.contains("\\u0000"));
}

#[test]
fn quote_is_escaped_as_unicode_escape() {
    let p = record(1, "a\"b", "t");
    let text = to_json_pretty(&p);
    assert!(text.contains("a\\u0022b"));
}

#[test]
fn from_json_rejects_other_shapes() {
    assert!(from_json("").is_none());
    assert!(from_json("{}").is_none());
    assert!(from_json("{\"product_id\": 1}").is_none());
    let p = record(5, "x", "t");
    let text = to_json_pretty(&p);
    let padded = format!("{} ", text);
    assert!(from_json(&padded).is_none());
    let truncated = &text[..text.len() - 1];
    assert!(from_json(truncated).is_none());
}

#[test]
fn from_json_rejects_leading_zeros_and_overflow() {
    let zeros = "{\n  \"product_id\": 007,\n  \"title\": \"x\",\n  \"timestamp\": \"t\"\n}";
    assert!(from_json(zeros).is_none());
    let too_big =
        "{\n  \"product_id\": 18446744073709551616,\n  \"title\": \"x\",\n  \"timestamp\": \"t\"\n}";
    assert!(from_json(too_big).is_none());
    let max =
        "{\n  \"product_id\": 18446744073709551615,\n  \"title\": \"x\",\n  \"timestamp\": \"t\"\n}";
    let q = from_json(max).expect("the largest identifier fits");
    assert_eq!(q.product_id, u64::MAX);
}

#[test]
fn from_json_rejects_non_canonical_escapes() {
    let other = "{\n  \"product_id\": 5,\n  \"title\": \"\\u0041\",\n  \"timestamp\": \"t\"\n}";
    assert!(from_json(other).is_none());
    let named = "{\n  \"product_id\": 5,\n  \"title\": \"\\n\",\n  \"timestamp\": \"t\"\n}";
    assert!(from_json(named).is_none());
}

#[test]
fn product_id_survives_with_full_precision() {
    let p = record(1005007181903595, "t", "s");
    let text = to_json_pretty(&p);
    let v: serde_json::Value = serde_json::from_str(&text).unwrap();
    assert_eq!(v["product_id"].as_u64(), Some(1005007181903595u64));
    let q = from_json(&text).unwrap();
    assert_eq!(q.product_id, 1005007181903595u64);
}

#[test]
fn builds_product_url_from_identifier() {
    assert_eq!(
        get_product_url(1005007181903595),
        "https://vi.aliexpress.com/item/1005007181903595.html"
    );
    assert_eq!(get_product_url(0), "https://vi.aliexpress.com/item/0.html");
}

#[test]
fn round_trip_function_returns_equal_record() {
    let p = record(123456789, "Some \u{2603} Title", "2025-12-31T23:59:59.999999+00:00");
    let q = product_archiver::archiver::round_trip(&p);
    assert_eq!(q.product_id, p.product_id);
    assert_eq!(q.title, p.title);
    assert_eq!(q.timestamp, p.timestamp);
}
