use limbo_core::ast::SortOrder;
use limbo_core::collate::{compare_bytes, CollationSeq};
use limbo_core::types::{compare_immutable, compare_values, ImmutableRecord, Value};
use std::cmp::Ordering;

#[test]
fn compare_strings_binary() {
    let c = CollationSeq::Binary;
    assert_eq!(c.compare_strings("abc", "abd"), Ordering::Less);
    assert_eq!(c.compare_strings("abc", "ab"), Ordering::Greater);
    assert_eq!(c.compare_strings("abc", "abc"), Ordering::Equal);
    assert_eq!(c.compare_strings("B", "a"), Ordering::Less);
    assert_eq!(c.compare_strings("", ""), Ordering::Equal);
}

#[test]
fn compare_strings_nocase() {
    let c = CollationSeq::NoCase;
    assert_eq!(c.compare_strings("HeLLo", "hello"), Ordering::Equal);
    assert_eq!(c.compare_strings("B", "a"), Ordering::Greater);
    assert_eq!(c.compare_strings("Zeta", "alpha"), Ordering::Greater);
    // '_' (0x5f) lies between the upper- and lower-case letters.
    assert_eq!(c.compare_strings("_", "A"), Ordering::Less);
    assert_eq!(CollationSeq::Binary.compare_strings("_", "A"), Ordering::Greater);
}

#[test]
fn compare_strings_rtrim() {
    let c = CollationSeq::Rtrim;
    assert_eq!(c.compare_strings("abc   ", "abc"), Ordering::Equal);
    assert_eq!(c.compare_strings(" abc", "abc"), Ordering::Less);
    assert_eq!(c.compare_strings("ab c ", "ab"), Ordering::Greater);
    assert_eq!(c.compare_strings("   ", ""), Ordering::Equal);
    assert_eq!(CollationSeq::Binary.compare_strings("abc ", "abc"), Ordering::Greater);
}

#[test]
fn default_collation_is_binary() {
    assert_eq!(CollationSeq::default(), CollationSeq::Binary);
}

#[test]
fn compare_values_across_storage_classes() {
    let b = CollationSeq::Binary;
    assert_eq!(compare_values(&Value::Null, &Value::Null, b), Ordering::Equal);
    assert_eq!(compare_values(&Value::Null, &Value::Integer(-5), b), Ordering::Less);
    assert_eq!(compare_values(&Value::Integer(5), &Value::Text("".into()), b), Ordering::Less);
    assert_eq!(compare_values(&Value::Text("z".into()), &Value::Blob(vec![]), b), Ordering::Less);
    assert_eq!(compare_values(&Value::Blob(vec![]), &Value::Null, b), Ordering::Greater);
    assert_eq!(compare_values(&Value::Integer(-3), &Value::Integer(2), b), Ordering::Less);
    assert_eq!(compare_values(&Value::Integer(7), &Value::Integer(7), b), Ordering::Equal);
}

#[test]
fn compare_values_text_follows_collation() {
    let x = Value::Text("ABC".into());
    let y = Value::Text("abc".into());
    assert_eq!(compare_values(&x, &y, CollationSeq::Binary), Ordering::Less);
    assert_eq!(compare_values(&x, &y, CollationSeq::NoCase), Ordering::Equal);
    // Text compares by its UTF-8 bytes: 'é' (0xC3 0xA9) sorts after 'z'.
    let e = Value::Text("é".into());
    let z = Value::Text("z".into());
    assert_eq!(compare_values(&e, &z, CollationSeq::Binary), Ordering::Greater);
}

#[test]
fn compare_values_blobs_ignore_collation() {
    let x = Value::Blob(b"ABC".to_vec());
    let y = Value::Blob(b"abc".to_vec());
    assert_eq!(compare_values(&x, &y, CollationSeq::NoCase), Ordering::Less);
}

#[test]
fn compare_immutable_directions_and_missing_columns() {
    let a = ImmutableRecord::new(vec![Value::Integer(1), Value::Integer(2)]);
    let b = ImmutableRecord::new(vec![Value::Integer(1), Value::Integer(3)]);
    let short = ImmutableRecord::new(vec![Value::Integer(1)]);
    let asc = [SortOrder::Asc, SortOrder::Asc];
    let mixed = [SortOrder::Asc, SortOrder::Desc];
    assert_eq!(compare_immutable(&a, &b, &asc, &[]), Ordering::Less);
    assert_eq!(compare_immutable(&a, &b, &mixed, &[]), Ordering::Greater);
    assert_eq!(compare_immutable(&a, &b, &[SortOrder::Desc], &[]), Ordering::Equal);
    assert_eq!(compare_immutable(&short, &a, &mixed, &[]), Ordering::Less);
    assert_eq!(compare_immutable(&a, &short, &mixed, &[]), Ordering::Greater);
    assert_eq!(compare_immutable(&a, &b, &[], &[]), Ordering::Equal);
}

#[test]
fn compare_bytes_is_lexicographic() {
    assert_eq!(compare_bytes(&[1, 2], &[1, 2, 0]), Ordering::Less);
    assert_eq!(compare_bytes(&[2], &[1, 255]), Ordering::Greater);
    assert_eq!(compare_bytes(&[], &[]), Ordering::Equal);
    assert_eq!(compare_bytes(b"A ", b"A"), Ordering::Greater);
}

#[test]
fn compare_strings_nocase_leaves_non_ascii_alone() {
    assert_eq!(CollationSeq::NoCase.compare_strings("É", "é"), Ordering::Less);
}
