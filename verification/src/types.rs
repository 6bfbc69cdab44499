//! Values, records, and the order in which the sorter puts records.
use crate::ast::SortOrder;
use crate::collate::{
    bytes_order, compare_bytes, lemma_bytes_order_laws, sign_ordering, text_order, CollationSeq, collation_key,
};
use std::cmp::Ordering;
use vstd::prelude::*;
use vstd::utf8::encode_utf8;

verus! {

/// A value held in one column of a record.
#[derive(Debug, PartialEq, Eq)]
pub enum Value {
    Null,
    Integer(i64),
    Text(String),
    Blob(Vec<u8>),
}

/// What a value is: text is seen as its UTF-8 bytes.
pub enum ValueView {
    Null,
    Integer(i64),
    Text(Seq<u8>),
    Blob(Seq<u8>),
}

impl View for Value {
    type V = ValueView;

    open spec fn view(&self) -> ValueView {
        match self {
            Value::Null => ValueView::Null,
            Value::Integer(i) => ValueView::Integer(*i),
            Value::Text(s) => ValueView::Text(encode_utf8(s@)),
            Value::Blob(b) => ValueView::Blob(b@),
        }
    }
}

impl Clone for Value {
    fn clone(&self) -> (r: Self)
        ensures
            r@ == self@,
    {
        match self {
            Value::Null => Value::Null,
            Value::Integer(i) => Value::Integer(*i),
            Value::Text(s) => Value::Text(s.clone()),
            Value::Blob(b) => {
                let c = b.clone();
                assert(c@ =~= b@);
                Value::Blob(c)
            },
        }
    }
}

/// A record: the values of one row, column by column.
#[derive(Debug, PartialEq, Eq)]
pub struct ImmutableRecord {
    pub values: Vec<Value>,
}

/// What a record is: the sequence of its values.
pub type RecordView = Seq<ValueView>;

impl View for ImmutableRecord {
    type V = RecordView;

    open spec fn view(&self) -> RecordView {
        self.values@.map_values(|v: Value| v@)
    }
}

impl Clone for ImmutableRecord {
    fn clone(&self) -> (r: Self)
        ensures
            r@ == self@,
    {
        let mut values: Vec<Value> = Vec::new();
        for i in 0..self.values.len()
            invariant
                values@.len() == i,
                forall|j: int| 0 <= j < i ==> values@[j]@ == self.values@[j]@,
        {
            values.push(self.values[i].clone());
        }
        let r = ImmutableRecord { values };
        assert(r@ =~= self@);
        r
    }
}

impl ImmutableRecord {
    /// A record made of the given values.
    pub fn new(values: Vec<Value>) -> (r: Self)
        ensures
            r.values == values,
    {
        ImmutableRecord { values }
    }
}

/// Storage classes in the order in which they sort: NULL, numbers, text, blobs.
pub open spec fn value_rank(v: ValueView) -> int {
    match v {
        ValueView::Null => 0,
        ValueView::Integer(_) => 1,
        ValueView::Text(_) => 2,
        ValueView::Blob(_) => 3,
    }
}

/// Order of two values (`-1`, `0` or `1`): values of different storage classes
/// sort by class; integers numerically; texts by the collating sequence; blobs
/// byte-wise.
pub open spec fn value_order(x: ValueView, y: ValueView, coll: CollationSeq) -> int {
    match (x, y) {
        (ValueView::Integer(a), ValueView::Integer(b)) => if a < b {
            -1
        } else if a > b {
            1
        } else {
            0
        },
        (ValueView::Text(a), ValueView::Text(b)) => text_order(coll, a, b),
        (ValueView::Blob(a), ValueView::Blob(b)) => bytes_order(a, b),
        _ => if value_rank(x) < value_rank(y) {
            -1
        } else if value_rank(x) > value_rank(y) {
            1
        } else {
            0
        },
    }
}

/// The collating sequence of key column `i`: the given one, else `Binary`.
pub open spec fn collation_at(colls: Seq<CollationSeq>, i: int) -> CollationSeq {
    if 0 <= i < colls.len() {
        colls[i]
    } else {
        CollationSeq::Binary
    }
}

/// Order of two records on key column `i`. A record that lacks the column
/// sorts before one that has it, whatever the direction; otherwise the values
/// compare, reversed for `DESC`.
pub open spec fn key_column_order(
    a: RecordView,
    b: RecordView,
    i: int,
    dir: SortOrder,
    coll: CollationSeq,
) -> int {
    if 0 <= i < a.len() && 0 <= i < b.len() {
        let c = value_order(a[i], b[i], coll);
        match dir {
            SortOrder::Asc => c,
            SortOrder::Desc => -c,
        }
    } else if 0 <= i < a.len() {
        1
    } else if 0 <= i < b.len() {
        -1
    } else {
        0
    }
}

/// Lexicographic order of two records on the key columns from `i` on.
pub open spec fn record_order_from(
    a: RecordView,
    b: RecordView,
    order: Seq<SortOrder>,
    colls: Seq<CollationSeq>,
    i: int,
) -> int
    decreases order.len() - i,
{
    if i < 0 || i >= order.len() {
        0
    } else {
        let c = key_column_order(a, b, i, order[i], collation_at(colls, i));
        if c != 0 {
            c
        } else {
            record_order_from(a, b, order, colls, i + 1)
        }
    }
}

/// Order of two records on their `order.len()` key columns: `-1` when `a`
/// sorts first, `1` when `b` does, `0` when their keys tie.
pub open spec fn record_order(
    a: RecordView,
    b: RecordView,
    order: Seq<SortOrder>,
    colls: Seq<CollationSeq>,
) -> int {
    record_order_from(a, b, order, colls, 0)
}

/// The order on values is a total preorder under every collating sequence:
/// a value ties with itself, swapping the operands negates the result, and
/// it is transitive.
pub proof fn lemma_value_order_laws(x: ValueView, y: ValueView, z: ValueView, coll: CollationSeq)
    ensures
        value_order(x, x, coll) == 0,
        value_order(x, y, coll) == -value_order(y, x, coll),
        -1 <= value_order(x, y, coll) <= 1,
        value_order(x, y, coll) <= 0 && value_order(y, z, coll) <= 0 ==> value_order(x, z, coll)
            <= 0,
{
    match (x, y, z) {
        (ValueView::Text(a), ValueView::Text(b), ValueView::Text(c)) => {
            lemma_bytes_order_laws(
                collation_key(coll, a),
                collation_key(coll, b),
                collation_key(coll, c),
            );
        },
        (ValueView::Blob(a), ValueView::Blob(b), ValueView::Blob(c)) => {
            lemma_bytes_order_laws(a, b, c);
        },
        _ => {
            match x {
                ValueView::Text(a) => lemma_bytes_order_laws(
                    collation_key(coll, a),
                    collation_key(coll, a),
                    collation_key(coll, a),
                ),
                ValueView::Blob(a) => lemma_bytes_order_laws(a, a, a),
                _ => {},
            }
            match (x, y) {
                (ValueView::Text(a), ValueView::Text(b)) => lemma_bytes_order_laws(
                    collation_key(coll, a),
                    collation_key(coll, b),
                    collation_key(coll, b),
                ),
                (ValueView::Blob(a), ValueView::Blob(b)) => lemma_bytes_order_laws(a, b, b),
                _ => {},
            }
        },
    }
}

/// The order on one key column is a total preorder, in either direction.
pub proof fn lemma_key_column_order_laws(
    a: RecordView,
    b: RecordView,
    c: RecordView,
    i: int,
    dir: SortOrder,
    coll: CollationSeq,
)
    ensures
        key_column_order(a, a, i, dir, coll) == 0,
        key_column_order(a, b, i, dir, coll) == -key_column_order(b, a, i, dir, coll),
        -1 <= key_column_order(a, b, i, dir, coll) <= 1,
        key_column_order(a, b, i, dir, coll) <= 0 && key_column_order(b, c, i, dir, coll) <= 0
            ==> key_column_order(a, c, i, dir, coll) <= 0,
{
    if 0 <= i < a.len() && 0 <= i < b.len() && 0 <= i < c.len() {
        match dir {
            SortOrder::Asc => lemma_value_order_laws(a[i], b[i], c[i], coll),
            SortOrder::Desc => lemma_value_order_laws(c[i], b[i], a[i], coll),
        }
        lemma_value_order_laws(a[i], b[i], c[i], coll);
        lemma_value_order_laws(c[i], a[i], b[i], coll);
    } else if 0 <= i < a.len() && 0 <= i < b.len() {
        lemma_value_order_laws(a[i], b[i], b[i], coll);
    } else if 0 <= i < a.len() {
        lemma_value_order_laws(a[i], a[i], a[i], coll);
    }
}

/// The order on the key columns from `i` on is a total preorder.
pub proof fn lemma_record_order_from_laws(
    a: RecordView,
    b: RecordView,
    c: RecordView,
    order: Seq<SortOrder>,
    colls: Seq<CollationSeq>,
    i: int,
)
    ensures
        record_order_from(a, a, order, colls, i) == 0,
        record_order_from(a, b, order, colls, i) == -record_order_from(b, a, order, colls, i),
        -1 <= record_order_from(a, b, order, colls, i) <= 1,
        record_order_from(a, b, order, colls, i) <= 0 && record_order_from(b, c, order, colls, i)
            <= 0 ==> record_order_from(a, c, order, colls, i) <= 0,
    decreases order.len() - i,
{
    if 0 <= i < order.len() {
        let dir = order[i];
        let coll = collation_at(colls, i);
        lemma_key_column_order_laws(a, b, c, i, dir, coll);
        lemma_key_column_order_laws(b, c, a, i, dir, coll);
        lemma_key_column_order_laws(c, a, b, i, dir, coll);
        lemma_record_order_from_laws(a, b, c, order, colls, i + 1);
    }
}

/// The order on records is a total preorder: every record ties with itself,
/// swapping the operands negates the result, and it is transitive.
pub proof fn lemma_record_order_laws(
    a: RecordView,
    b: RecordView,
    c: RecordView,
    order: Seq<SortOrder>,
    colls: Seq<CollationSeq>,
)
    ensures
        record_order(a, a, order, colls) == 0,
        record_order(a, b, order, colls) == -record_order(b, a, order, colls),
        -1 <= record_order(a, b, order, colls) <= 1,
        record_order(a, b, order, colls) <= 0 && record_order(b, c, order, colls) <= 0
            ==> record_order(a, c, order, colls) <= 0,
{
    lemma_record_order_from_laws(a, b, c, order, colls, 0);
}

/// Integers compare numerically, under every collating sequence: `a` sorts
/// before `b` exactly when `a < b`, ties with it exactly when they are
/// equal, and sorts after it exactly when `a > b`.
pub proof fn lemma_integers_compare_numerically(a: i64, b: i64, coll: CollationSeq)
    ensures
        value_order(ValueView::Integer(a), ValueView::Integer(b), coll) < 0 <==> a < b,
        value_order(ValueView::Integer(a), ValueView::Integer(b), coll) == 0 <==> a == b,
        value_order(ValueView::Integer(a), ValueView::Integer(b), coll) > 0 <==> a > b,
{
}

/// Values of different storage classes sort NULL first, then integers,
/// then texts, then blobs, whatever they hold; NULLs tie with each other.
pub proof fn lemma_storage_classes_in_order(
    i: i64,
    t: Seq<u8>,
    u: Seq<u8>,
    coll: CollationSeq,
)
    ensures
        value_order(ValueView::Null, ValueView::Null, coll) == 0,
        value_order(ValueView::Null, ValueView::Integer(i), coll) < 0,
        value_order(ValueView::Null, ValueView::Text(t), coll) < 0,
        value_order(ValueView::Null, ValueView::Blob(u), coll) < 0,
        value_order(ValueView::Integer(i), ValueView::Text(t), coll) < 0,
        value_order(ValueView::Integer(i), ValueView::Blob(u), coll) < 0,
        value_order(ValueView::Text(t), ValueView::Blob(u), coll) < 0,
        value_order(ValueView::Integer(i), ValueView::Null, coll) > 0,
        value_order(ValueView::Text(t), ValueView::Integer(i), coll) > 0,
        value_order(ValueView::Blob(u), ValueView::Text(t), coll) > 0,
{
}

/// Texts compare under the collating sequence of their column, blobs byte
/// by byte whatever the collating sequence.
pub proof fn lemma_texts_and_blobs_compare(a: Seq<u8>, b: Seq<u8>, coll: CollationSeq)
    ensures
        value_order(ValueView::Text(a), ValueView::Text(b), coll) == text_order(coll, a, b),
        value_order(ValueView::Blob(a), ValueView::Blob(b), coll) == bytes_order(a, b),
{
}

/// Sorting on one ascending integer key column puts the keys in numeric
/// order: in the sort of records whose first column holds an integer, the
/// key of every record is at most that of every later one.
pub proof fn lemma_integer_keys_sort_ascending(
    s: Seq<RecordView>,
    colls: Seq<CollationSeq>,
    i: int,
    j: int,
)
    requires
        forall|k: int| 0 <= k < s.len() ==> (#[trigger] s[k]).len() > 0 && s[k][0] is Integer,
        0 <= i < j < s.len(),
    ensures
        ({
            let y = crate::sorter::sorted_records(s, seq![SortOrder::Asc], colls);
            y[i][0]->Integer_0 <= y[j][0]->Integer_0
        }),
{
    broadcast use vstd::seq_lib::group_to_multiset_ensures;

    let order = seq![SortOrder::Asc];
    let y = crate::sorter::sorted_records(s, order, colls);
    crate::sorter::lemma_sorted_records_is_sorted(s, order, colls);
    crate::sorter::lemma_sorted_records_permutation(s, order, colls);
    assert(y.to_multiset().count(y[i]) > 0);
    assert(y.to_multiset().count(y[j]) > 0);
    assert(s.to_multiset().count(y[i]) > 0);
    assert(s.to_multiset().count(y[j]) > 0);
    assert(s.contains(y[i]));
    assert(s.contains(y[j]));
    let p = choose|p: int| 0 <= p < s.len() && s[p] == y[i];
    let q = choose|q: int| 0 <= q < s.len() && s[q] == y[j];
    assert(s[p].len() > 0 && s[p][0] is Integer);
    assert(s[q].len() > 0 && s[q][0] is Integer);
    let a = y[i];
    let b = y[j];
    assert(record_order(a, b, order, colls) <= 0);
    assert(record_order_from(a, b, order, colls, 1) == 0);
    assert(record_order(a, b, order, colls) == key_column_order(a, b, 0, SortOrder::Asc, collation_at(colls, 0)));
}

/// On one key column, `DESC` reverses the order of the values and `ASC`
/// keeps it; a record that lacks the column sorts before one that has it,
/// in either direction, and two records that both lack it tie there.
pub proof fn lemma_key_column_directions(
    a: RecordView,
    b: RecordView,
    i: int,
    dir: SortOrder,
    coll: CollationSeq,
)
    requires
        0 <= i,
    ensures
        i < a.len() && i < b.len() ==> key_column_order(a, b, i, SortOrder::Asc, coll) == value_order(
            a[i],
            b[i],
            coll,
        ) && key_column_order(a, b, i, SortOrder::Desc, coll) == -value_order(a[i], b[i], coll),
        a.len() <= i < b.len() ==> key_column_order(a, b, i, dir, coll) < 0,
        b.len() <= i < a.len() ==> key_column_order(a, b, i, dir, coll) > 0,
        a.len() <= i && b.len() <= i ==> key_column_order(a, b, i, dir, coll) == 0,
{
}

proof fn lemma_record_order_skip_ties(
    a: RecordView,
    b: RecordView,
    order: Seq<SortOrder>,
    colls: Seq<CollationSeq>,
    i: int,
    j: int,
)
    requires
        0 <= i <= j <= order.len(),
        forall|k: int|
            i <= k < j ==> #[trigger] key_column_order(a, b, k, order[k], collation_at(colls, k)) == 0,
    ensures
        record_order_from(a, b, order, colls, i) == record_order_from(a, b, order, colls, j),
    decreases j - i,
{
    if i < j {
        lemma_record_order_skip_ties(a, b, order, colls, i + 1, j);
        assert(key_column_order(a, b, i, order[i], collation_at(colls, i)) == 0);
    }
}

/// Records compare lexicographically on their key columns: when every key
/// column ties they tie, and otherwise the first key column that does not
/// tie decides.
pub proof fn lemma_record_order_lexicographic(
    a: RecordView,
    b: RecordView,
    order: Seq<SortOrder>,
    colls: Seq<CollationSeq>,
    j: int,
)
    requires
        0 <= j <= order.len(),
        forall|k: int|
            0 <= k < j ==> #[trigger] key_column_order(a, b, k, order[k], collation_at(colls, k)) == 0,
    ensures
        j == order.len() ==> record_order(a, b, order, colls) == 0,
        j < order.len() && key_column_order(a, b, j, order[j], collation_at(colls, j)) != 0
            ==> record_order(a, b, order, colls) == key_column_order(
            a,
            b,
            j,
            order[j],
            collation_at(colls, j),
        ),
{
    lemma_record_order_skip_ties(a, b, order, colls, 0, j);
}

/// Key column `i` compares under the `i`-th collating sequence given, and
/// under `Binary` when fewer are given.
pub proof fn lemma_collation_of_key_column(colls: Seq<CollationSeq>, i: int)
    requires
        0 <= i,
    ensures
        i < colls.len() ==> collation_at(colls, i) == colls[i],
        i >= colls.len() ==> collation_at(colls, i) == CollationSeq::Binary,
{
}

/// Rank of a value's storage class, as `value_rank` gives it.
fn storage_rank(v: &Value) -> (r: u8)
    ensures
        r == value_rank(v@),
{
    match v {
        Value::Null => 0,
        Value::Integer(_) => 1,
        Value::Text(_) => 2,
        Value::Blob(_) => 3,
    }
}

/// The opposite of a comparison result.
fn reversed(o: Ordering) -> (r: Ordering)
    ensures
        o == Ordering::Less ==> r == Ordering::Greater,
        o == Ordering::Greater ==> r == Ordering::Less,
        o == Ordering::Equal ==> r == Ordering::Equal,
{
    match o {
        Ordering::Less => Ordering::Greater,
        Ordering::Equal => Ordering::Equal,
        Ordering::Greater => Ordering::Less,
    }
}

/// Compares two values under a collating sequence (used for texts only).
pub fn compare_values(x: &Value, y: &Value, coll: CollationSeq) -> (r: Ordering)
    ensures
        r == sign_ordering(value_order(x@, y@, coll)),
{
    match (x, y) {
        (Value::Integer(a), Value::Integer(b)) => {
            if *a < *b {
                Ordering::Less
            } else if *a > *b {
                Ordering::Greater
            } else {
                Ordering::Equal
            }
        },
        (Value::Text(a), Value::Text(b)) => coll.compare_strings(a.as_str(), b.as_str()),
        (Value::Blob(a), Value::Blob(b)) => compare_bytes(a.as_slice(), b.as_slice()),
        _ => {
            let rx = storage_rank(x);
            let ry = storage_rank(y);
            if rx < ry {
                Ordering::Less
            } else if rx > ry {
                Ordering::Greater
            } else {
                Ordering::Equal
            }
        },
    }
}

/// Compares two records on their first `order.len()` columns, column `i`
/// going in direction `order[i]` under collating sequence `collations[i]`
/// (`Binary` where none is given). A record that lacks a key column sorts
/// before one that has it.
pub fn compare_immutable(
    l: &ImmutableRecord,
    r: &ImmutableRecord,
    order: &[SortOrder],
    collations: &[CollationSeq],
) -> (res: Ordering)
    ensures
        res == sign_ordering(record_order(l@, r@, order@, collations@)),
{
    let n = order.len();
    let mut i: usize = 0;
    let ghost mut gi: int = 0;
    while i < n
        invariant
            n == order@.len(),
            i <= n,
            gi == i,
            record_order(l@, r@, order@, collations@) == record_order_from(
                l@,
                r@,
                order@,
                collations@,
                gi,
            ),
        decreases n - i,
    {
        let coll = if i < collations.len() {
            collations[i]
        } else {
            CollationSeq::default()
        };
        let in_l = i < l.values.len();
        let in_r = i < r.values.len();
        let c = if in_l && in_r {
            let v = compare_values(&l.values[i], &r.values[i], coll);
            match order[i] {
                SortOrder::Asc => v,
                SortOrder::Desc => reversed(v),
            }
        } else if in_l {
            Ordering::Greater
        } else if in_r {
            Ordering::Less
        } else {
            Ordering::Equal
        };
        proof {
            lemma_key_column_order_laws(l@, r@, r@, gi, order@[gi], collation_at(collations@, gi));
        }
        assert(c == sign_ordering(key_column_order(l@, r@, gi, order@[gi], collation_at(collations@, gi))));
        match c {
            Ordering::Equal => {},
            _ => {
                return c;
            },
        }
        i = i + 1;
        proof {
            gi = gi + 1;
        }
    }
    Ordering::Equal
}

} // verus!
