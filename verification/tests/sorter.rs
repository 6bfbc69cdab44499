use limbo_core::ast::SortOrder;
use limbo_core::collate::CollationSeq;
use limbo_core::sorter::Sorter;
use limbo_core::types::{ImmutableRecord, Value};

fn integer(i: i64) -> Value {
    Value::Integer(i)
}

fn text(s: &str) -> Value {
    Value::Text(s.to_string())
}

fn rec(values: Vec<Value>) -> ImmutableRecord {
    ImmutableRecord::new(values)
}

/// Sorts `records` and reads them all back.
fn sort_all(order: &[SortOrder], collations: Vec<CollationSeq>, records: Vec<ImmutableRecord>) -> Vec<ImmutableRecord> {
    let mut sorter = Sorter::new(order, collations);
    for r in &records {
        sorter.insert(r);
    }
    sorter.sort();
    let mut out = Vec::new();
    while sorter.has_more() {
        out.push(sorter.record().unwrap().clone());
        sorter.next();
    }
    out
}

#[test]
fn new_sorter_is_empty() {
    let sorter = Sorter::new(&[SortOrder::Asc], vec![]);
    assert!(sorter.is_empty());
    assert!(!sorter.has_more());
    assert!(sorter.record().is_none());
}

#[test]
fn insert_makes_sorter_non_empty() {
    let mut sorter = Sorter::new(&[SortOrder::Asc], vec![]);
    sorter.insert(&rec(vec![integer(1)]));
    assert!(!sorter.is_empty());
    assert!(!sorter.has_more());
}

#[test]
fn sort_of_nothing_points_at_nothing() {
    let mut sorter = Sorter::new(&[SortOrder::Asc], vec![]);
    sorter.sort();
    assert!(!sorter.has_more());
    assert!(sorter.is_empty());
    assert!(sorter.record().is_none());
}

#[test]
fn ascending_sort_is_stable() {
    let out = sort_all(
        &[SortOrder::Asc],
        vec![],
        vec![
            rec(vec![integer(3), text("b")]),
            rec(vec![integer(1), text("a")]),
            rec(vec![integer(2), text("c")]),
            rec(vec![integer(1), text("z")]),
        ],
    );
    assert_eq!(
        out,
        vec![
            rec(vec![integer(1), text("a")]),
            rec(vec![integer(1), text("z")]),
            rec(vec![integer(2), text("c")]),
            rec(vec![integer(3), text("b")]),
        ]
    );
}

#[test]
fn descending_sort_keeps_ties_in_insertion_order() {
    let out = sort_all(
        &[SortOrder::Desc],
        vec![],
        vec![
            rec(vec![integer(1), text("first")]),
            rec(vec![integer(5)]),
            rec(vec![integer(1), text("second")]),
            rec(vec![integer(-7)]),
        ],
    );
    assert_eq!(
        out,
        vec![
            rec(vec![integer(5)]),
            rec(vec![integer(1), text("first")]),
            rec(vec![integer(1), text("second")]),
            rec(vec![integer(-7)]),
        ]
    );
}

#[test]
fn two_key_columns_with_mixed_directions() {
    let out = sort_all(
        &[SortOrder::Asc, SortOrder::Desc],
        vec![],
        vec![
            rec(vec![integer(2), integer(1)]),
            rec(vec![integer(1), integer(1)]),
            rec(vec![integer(2), integer(9)]),
            rec(vec![integer(1), integer(5)]),
        ],
    );
    assert_eq!(
        out,
        vec![
            rec(vec![integer(1), integer(5)]),
            rec(vec![integer(1), integer(1)]),
            rec(vec![integer(2), integer(9)]),
            rec(vec![integer(2), integer(1)]),
        ]
    );
}

#[test]
fn storage_classes_sort_null_integer_text_blob() {
    let out = sort_all(
        &[SortOrder::Asc],
        vec![],
        vec![
            rec(vec![Value::Blob(vec![0])]),
            rec(vec![text("")]),
            rec(vec![integer(i64::MAX)]),
            rec(vec![Value::Null]),
            rec(vec![integer(i64::MIN)]),
        ],
    );
    assert_eq!(
        out,
        vec![
            rec(vec![Value::Null]),
            rec(vec![integer(i64::MIN)]),
            rec(vec![integer(i64::MAX)]),
            rec(vec![text("")]),
            rec(vec![Value::Blob(vec![0])]),
        ]
    );
}

#[test]
fn blobs_sort_bytewise_and_shorter_prefix_first() {
    let out = sort_all(
        &[SortOrder::Asc],
        vec![],
        vec![
            rec(vec![Value::Blob(vec![1, 2, 3])]),
            rec(vec![Value::Blob(vec![1, 2])]),
            rec(vec![Value::Blob(vec![0, 255])]),
        ],
    );
    assert_eq!(
        out,
        vec![
            rec(vec![Value::Blob(vec![0, 255])]),
            rec(vec![Value::Blob(vec![1, 2])]),
            rec(vec![Value::Blob(vec![1, 2, 3])]),
        ]
    );
}

#[test]
fn binary_collation_puts_upper_case_first() {
    let out = sort_all(
        &[SortOrder::Asc],
        vec![CollationSeq::Binary],
        vec![rec(vec![text("apple")]), rec(vec![text("Banana")])],
    );
    assert_eq!(out, vec![rec(vec![text("Banana")]), rec(vec![text("apple")])]);
}

#[test]
fn nocase_collation_ignores_ascii_case() {
    let out = sort_all(
        &[SortOrder::Asc],
        vec![CollationSeq::NoCase],
        vec![rec(vec![text("banana")]), rec(vec![text("APPLE")]), rec(vec![text("Apple")])],
    );
    assert_eq!(
        out,
        vec![rec(vec![text("APPLE")]), rec(vec![text("Apple")]), rec(vec![text("banana")])]
    );
}

#[test]
fn rtrim_collation_ignores_trailing_spaces() {
    let out = sort_all(
        &[SortOrder::Asc],
        vec![CollationSeq::Rtrim],
        vec![rec(vec![text("b  ")]), rec(vec![text("a ")]), rec(vec![text("a")])],
    );
    assert_eq!(out, vec![rec(vec![text("a ")]), rec(vec![text("a")]), rec(vec![text("b  ")])]);
}

#[test]
fn collation_applies_to_its_own_column_only() {
    // The second key column has no collation given, so it compares binary.
    let out = sort_all(
        &[SortOrder::Asc, SortOrder::Asc],
        vec![CollationSeq::NoCase],
        vec![
            rec(vec![text("X"), text("b")]),
            rec(vec![text("x"), text("B")]),
        ],
    );
    assert_eq!(out, vec![rec(vec![text("x"), text("B")]), rec(vec![text("X"), text("b")])]);
}

#[test]
fn record_without_key_column_sorts_first_in_both_directions() {
    for dir in [SortOrder::Asc, SortOrder::Desc] {
        let out = sort_all(&[dir], vec![], vec![rec(vec![integer(1)]), rec(vec![])]);
        assert_eq!(out, vec![rec(vec![]), rec(vec![integer(1)])]);
    }
}

#[test]
fn only_key_columns_decide_the_order() {
    let out = sort_all(
        &[SortOrder::Asc],
        vec![],
        vec![rec(vec![integer(1), integer(9)]), rec(vec![integer(1), integer(0)])],
    );
    assert_eq!(out, vec![rec(vec![integer(1), integer(9)]), rec(vec![integer(1), integer(0)])]);
}

#[test]
fn sort_points_at_first_record_and_next_walks_the_rest() {
    let mut sorter = Sorter::new(&[SortOrder::Asc], vec![]);
    sorter.insert(&rec(vec![integer(2)]));
    sorter.insert(&rec(vec![integer(1)]));
    sorter.insert(&rec(vec![integer(3)]));
    sorter.sort();
    assert!(sorter.has_more());
    assert!(!sorter.is_empty());
    assert_eq!(sorter.record(), Some(&rec(vec![integer(1)])));
    sorter.next();
    assert_eq!(sorter.record(), Some(&rec(vec![integer(2)])));
    assert!(!sorter.is_empty());
    sorter.next();
    assert_eq!(sorter.record(), Some(&rec(vec![integer(3)])));
    assert!(sorter.is_empty());
    sorter.next();
    assert!(!sorter.has_more());
    assert_eq!(sorter.record(), None);
}

#[test]
fn sorting_keeps_every_record() {
    let input: Vec<ImmutableRecord> = (0..40).map(|i| rec(vec![integer((i * 7) % 5), integer(i)])).collect();
    let out = sort_all(&[SortOrder::Asc], vec![], input.clone());
    assert_eq!(out.len(), input.len());
    for r in &input {
        assert!(out.contains(r));
    }
    let key = |r: &ImmutableRecord| match (&r.values[0], &r.values[1]) {
        (Value::Integer(k), Value::Integer(i)) => (*k, *i),
        _ => panic!("unexpected record"),
    };
    for w in out.windows(2) {
        // Sorted on the key; ties keep insertion order (the second column).
        assert!(key(&w[0]) < key(&w[1]));
    }
}

#[test]
fn inserted_record_is_a_copy() {
    let mut sorter = Sorter::new(&[SortOrder::Asc], vec![]);
    let mut r = rec(vec![text("kept")]);
    sorter.insert(&r);
    r.values[0] = text("changed");
    sorter.sort();
    assert_eq!(sorter.record(), Some(&rec(vec![text("kept")])));
}

#[test]
fn many_records_with_ties_sort_stably_in_both_directions() {
    let records: Vec<ImmutableRecord> = (0..41)
        .map(|i| rec(vec![integer((i * 7) % 5), integer(i)]))
        .collect();
    let mut expected_asc: Vec<(i64, i64)> = (0..41).map(|i| ((i * 7) % 5, i)).collect();
    expected_asc.sort_by_key(|&(k, _)| k);
    let got = sort_all(&[SortOrder::Asc], vec![], records.clone());
    let got_pairs: Vec<(i64, i64)> = got
        .iter()
        .map(|r| match (&r.values[0], &r.values[1]) {
            (Value::Integer(k), Value::Integer(m)) => (*k, *m),
            _ => panic!("unexpected values"),
        })
        .collect();
    assert_eq!(got_pairs, expected_asc);

    let mut expected_desc: Vec<(i64, i64)> = (0..41).map(|i| ((i * 7) % 5, i)).collect();
    expected_desc.sort_by_key(|&(k, _)| -k);
    let got = sort_all(&[SortOrder::Desc], vec![], records);
    let got_pairs: Vec<(i64, i64)> = got
        .iter()
        .map(|r| match (&r.values[0], &r.values[1]) {
            (Value::Integer(k), Value::Integer(m)) => (*k, *m),
            _ => panic!("unexpected values"),
        })
        .collect();
    assert_eq!(got_pairs, expected_desc);
}

#[test]
fn walk_after_sort_reports_position_at_each_step() {
    let mut sorter = Sorter::new(&[SortOrder::Asc], vec![]);
    for k in [4, 0, 3, 1, 2] {
        sorter.insert(&rec(vec![integer(k)]));
    }
    sorter.sort();
    let n = 5;
    for k in 0..=6 {
        assert_eq!(sorter.has_more(), k < n);
        assert_eq!(sorter.is_empty(), k + 1 >= n);
        if k < n {
            assert_eq!(sorter.record(), Some(&rec(vec![integer(k as i64)])));
        } else {
            assert_eq!(sorter.record(), None);
        }
        sorter.next();
    }
}
