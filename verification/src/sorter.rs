//! The sorter of the virtual machine: it collects records, sorts them on
//! their key columns, and hands them back one at a time in sorted order.
use crate::ast::SortOrder;
use crate::collate::CollationSeq;
use crate::types::{
    compare_immutable, lemma_record_order_laws, record_order, ImmutableRecord, RecordView,
};
use std::cmp::Ordering;
use vstd::prelude::*;

verus! {

broadcast use vstd::seq_lib::group_to_multiset_ensures;

/// The views of a sequence of records.
pub open spec fn record_views(s: Seq<ImmutableRecord>) -> Seq<RecordView> {
    s.map_values(|r: ImmutableRecord| r@)
}

/// `s` with `e` inserted after every element that does not sort after `e`
/// (stable insertion from the right).
pub open spec fn insert_sorted(
    s: Seq<RecordView>,
    e: RecordView,
    order: Seq<SortOrder>,
    colls: Seq<CollationSeq>,
) -> Seq<RecordView>
    decreases s.len(),
{
    if s.len() == 0 {
        seq![e]
    } else if record_order(s.last(), e, order, colls) > 0 {
        insert_sorted(s.drop_last(), e, order, colls).push(s.last())
    } else {
        s.push(e)
    }
}

/// The stable sort of `s` on the key columns described by `order` and `colls`.
pub open spec fn sorted_records(
    s: Seq<RecordView>,
    order: Seq<SortOrder>,
    colls: Seq<CollationSeq>,
) -> Seq<RecordView>
    decreases s.len(),
{
    if s.len() == 0 {
        seq![]
    } else {
        insert_sorted(sorted_records(s.drop_last(), order, colls), s.last(), order, colls)
    }
}

/// No record of `s` sorts after a later one.
pub open spec fn is_sorted(s: Seq<RecordView>, order: Seq<SortOrder>, colls: Seq<CollationSeq>) -> bool {
    forall|i: int, j: int| 0 <= i < j < s.len() ==> record_order(s[i], s[j], order, colls) <= 0
}

/// The records of `s` whose keys tie with those of `x`, in the order of `s`.
pub open spec fn ties_with(
    s: Seq<RecordView>,
    x: RecordView,
    order: Seq<SortOrder>,
    colls: Seq<CollationSeq>,
) -> Seq<RecordView>
    decreases s.len(),
{
    if s.len() == 0 {
        seq![]
    } else if record_order(s.last(), x, order, colls) == 0 {
        ties_with(s.drop_last(), x, order, colls).push(s.last())
    } else {
        ties_with(s.drop_last(), x, order, colls)
    }
}

proof fn lemma_insert_sorted_multiset(
    s: Seq<RecordView>,
    e: RecordView,
    order: Seq<SortOrder>,
    colls: Seq<CollationSeq>,
)
    ensures
        insert_sorted(s, e, order, colls).len() == s.len() + 1,
        insert_sorted(s, e, order, colls).to_multiset() =~= s.to_multiset().insert(e),
    decreases s.len(),
{
    if s.len() == 0 {
        assert(seq![e] =~= s.push(e));
    } else if record_order(s.last(), e, order, colls) > 0 {
        let t = s.drop_last();
        lemma_insert_sorted_multiset(t, e, order, colls);
        assert(t.push(s.last()) =~= s);
    }
}

proof fn lemma_insert_sorted_all(
    s: Seq<RecordView>,
    e: RecordView,
    order: Seq<SortOrder>,
    colls: Seq<CollationSeq>,
    p: spec_fn(RecordView) -> bool,
)
    requires
        forall|i: int| 0 <= i < s.len() ==> p(#[trigger] s[i]),
        p(e),
    ensures
        forall|k: int|
            0 <= k < insert_sorted(s, e, order, colls).len() ==> p(
                #[trigger] insert_sorted(s, e, order, colls)[k],
            ),
    decreases s.len(),
{
    if s.len() > 0 && record_order(s.last(), e, order, colls) > 0 {
        let t = s.drop_last();
        assert forall|i: int| 0 <= i < t.len() implies p(#[trigger] t[i]) by {
            assert(t[i] == s[i]);
        }
        lemma_insert_sorted_all(t, e, order, colls, p);
        lemma_insert_sorted_multiset(t, e, order, colls);
        assert(p(s[s.len() - 1]));
    }
}

proof fn lemma_insert_sorted_sorted(
    s: Seq<RecordView>,
    e: RecordView,
    order: Seq<SortOrder>,
    colls: Seq<CollationSeq>,
)
    requires
        is_sorted(s, order, colls),
    ensures
        is_sorted(insert_sorted(s, e, order, colls), order, colls),
    decreases s.len(),
{
    if s.len() == 0 {
    } else if record_order(s.last(), e, order, colls) > 0 {
        let t = s.drop_last();
        let l = s.last();
        assert(is_sorted(t, order, colls)) by {
            assert forall|i: int, j: int| 0 <= i < j < t.len() implies record_order(
                t[i],
                t[j],
                order,
                colls,
            ) <= 0 by {
                assert(t[i] == s[i] && t[j] == s[j]);
            }
        }
        lemma_insert_sorted_sorted(t, e, order, colls);
        lemma_insert_sorted_multiset(t, e, order, colls);
        let r = insert_sorted(t, e, order, colls);
        let p = |y: RecordView| record_order(y, l, order, colls) <= 0;
        assert forall|i: int| 0 <= i < t.len() implies p(#[trigger] t[i]) by {
            assert(t[i] == s[i]);
            assert(s[s.len() - 1] == l);
        }
        lemma_record_order_laws(l, e, e, order, colls);
        lemma_insert_sorted_all(t, e, order, colls, p);
        let r2 = r.push(l);
        assert forall|i: int, j: int| 0 <= i < j < r2.len() implies record_order(
            r2[i],
            r2[j],
            order,
            colls,
        ) <= 0 by {
            if j < r.len() {
                assert(r2[i] == r[i] && r2[j] == r[j]);
            } else {
                assert(r2[i] == r[i] && r2[j] == l);
                assert(p(r[i]));
            }
        }
    } else {
        let l = s.last();
        let r2 = s.push(e);
        assert forall|i: int, j: int| 0 <= i < j < r2.len() implies record_order(
            r2[i],
            r2[j],
            order,
            colls,
        ) <= 0 by {
            if j < s.len() {
                assert(r2[i] == s[i] && r2[j] == s[j]);
            } else {
                assert(r2[i] == s[i] && r2[j] == e);
                if i < s.len() - 1 {
                    assert(record_order(s[i], s[s.len() - 1], order, colls) <= 0);
                }
                lemma_record_order_laws(s[i], l, e, order, colls);
            }
        }
    }
}

proof fn lemma_ties_with_push(
    t: Seq<RecordView>,
    y: RecordView,
    x: RecordView,
    order: Seq<SortOrder>,
    colls: Seq<CollationSeq>,
)
    ensures
        ties_with(t.push(y), x, order, colls) == (if record_order(y, x, order, colls) == 0 {
            ties_with(t, x, order, colls).push(y)
        } else {
            ties_with(t, x, order, colls)
        }),
{
    assert(t.push(y).drop_last() =~= t);
}

proof fn lemma_ties_with_insert(
    t: Seq<RecordView>,
    e: RecordView,
    x: RecordView,
    order: Seq<SortOrder>,
    colls: Seq<CollationSeq>,
)
    ensures
        ties_with(insert_sorted(t, e, order, colls), x, order, colls) == ties_with(
            t.push(e),
            x,
            order,
            colls,
        ),
    decreases t.len(),
{
    if t.len() == 0 {
        assert(seq![e] =~= t.push(e));
    } else if record_order(t.last(), e, order, colls) > 0 {
        let t1 = t.drop_last();
        let l = t.last();
        lemma_ties_with_insert(t1, e, x, order, colls);
        lemma_ties_with_push(insert_sorted(t1, e, order, colls), l, x, order, colls);
        lemma_ties_with_push(t1, e, x, order, colls);
        lemma_ties_with_push(t, e, x, order, colls);
        lemma_ties_with_push(t1, l, x, order, colls);
        assert(t1.push(l) =~= t);
        lemma_record_order_laws(l, x, e, order, colls);
        lemma_record_order_laws(e, x, l, order, colls);
        lemma_record_order_laws(x, e, l, order, colls);
        lemma_record_order_laws(l, e, x, order, colls);
    }
}

/// Sorting puts the records in order: no record sorts after a later one.
pub proof fn lemma_sorted_records_is_sorted(
    s: Seq<RecordView>,
    order: Seq<SortOrder>,
    colls: Seq<CollationSeq>,
)
    ensures
        is_sorted(sorted_records(s, order, colls), order, colls),
    decreases s.len(),
{
    if s.len() > 0 {
        lemma_sorted_records_is_sorted(s.drop_last(), order, colls);
        lemma_insert_sorted_sorted(sorted_records(s.drop_last(), order, colls), s.last(), order, colls);
    }
}

/// Sorting neither loses nor adds records: the result is a permutation of its input.
pub proof fn lemma_sorted_records_permutation(
    s: Seq<RecordView>,
    order: Seq<SortOrder>,
    colls: Seq<CollationSeq>,
)
    ensures
        sorted_records(s, order, colls).to_multiset() == s.to_multiset(),
        sorted_records(s, order, colls).len() == s.len(),
    decreases s.len(),
{
    if s.len() > 0 {
        let t = s.drop_last();
        lemma_sorted_records_permutation(t, order, colls);
        lemma_insert_sorted_multiset(sorted_records(t, order, colls), s.last(), order, colls);
        assert(t.push(s.last()) =~= s);
    }
}

/// Sorting is stable: records whose keys tie come out in the order in which
/// they went in.
pub proof fn lemma_sorted_records_stable(
    s: Seq<RecordView>,
    x: RecordView,
    order: Seq<SortOrder>,
    colls: Seq<CollationSeq>,
)
    ensures
        ties_with(sorted_records(s, order, colls), x, order, colls) == ties_with(s, x, order, colls),
    decreases s.len(),
{
    if s.len() > 0 {
        let t = s.drop_last();
        let e = s.last();
        lemma_sorted_records_stable(t, x, order, colls);
        lemma_ties_with_insert(sorted_records(t, order, colls), e, x, order, colls);
        lemma_ties_with_push(sorted_records(t, order, colls), e, x, order, colls);
        lemma_ties_with_push(t, e, x, order, colls);
        assert(t.push(e) =~= s);
    }
}

proof fn lemma_ties_with_concat(
    a: Seq<RecordView>,
    b: Seq<RecordView>,
    x: RecordView,
    order: Seq<SortOrder>,
    colls: Seq<CollationSeq>,
)
    ensures
        ties_with(a + b, x, order, colls) == ties_with(a, x, order, colls) + ties_with(
            b,
            x,
            order,
            colls,
        ),
    decreases b.len(),
{
    if b.len() == 0 {
        assert(a + b =~= a);
        assert(ties_with(a, x, order, colls) + ties_with(b, x, order, colls) =~= ties_with(
            a,
            x,
            order,
            colls,
        ));
    } else {
        let b1 = b.drop_last();
        lemma_ties_with_concat(a, b1, x, order, colls);
        assert((a + b).drop_last() =~= a + b1);
        assert((a + b).last() == b.last());
        let ta = ties_with(a, x, order, colls);
        let tb1 = ties_with(b1, x, order, colls);
        assert((ta + tb1).push(b.last()) =~= ta + tb1.push(b.last()));
    }
}

proof fn lemma_ties_with_member(
    s: Seq<RecordView>,
    x: RecordView,
    y: RecordView,
    order: Seq<SortOrder>,
    colls: Seq<CollationSeq>,
)
    requires
        ties_with(s, x, order, colls).contains(y),
    ensures
        s.contains(y),
    decreases s.len(),
{
    if s.len() > 0 {
        let t = s.drop_last();
        let tt = ties_with(t, x, order, colls);
        if y == s.last() {
            assert(s[s.len() - 1] == y);
        } else {
            if record_order(s.last(), x, order, colls) == 0 {
                let k = choose|k: int| 0 <= k < tt.push(s.last()).len() && tt.push(s.last())[k] == y;
                assert(tt[k] == y);
            }
            lemma_ties_with_member(t, x, y, order, colls);
            let i = choose|i: int| 0 <= i < t.len() && t[i] == y;
            assert(s[i] == y);
        }
    }
}

proof fn lemma_ties_with_drop_last(
    s: Seq<RecordView>,
    x: RecordView,
    order: Seq<SortOrder>,
    colls: Seq<CollationSeq>,
)
    requires
        s.len() > 0,
    ensures
        record_order(s.last(), x, order, colls) == 0 ==> ties_with(s, x, order, colls).len() > 0
            && ties_with(s, x, order, colls).last() == s.last()
            && ties_with(s.drop_last(), x, order, colls) == ties_with(s, x, order, colls).drop_last(),
        record_order(s.last(), x, order, colls) != 0 ==> ties_with(s.drop_last(), x, order, colls)
            == ties_with(s, x, order, colls),
{
    let t = ties_with(s.drop_last(), x, order, colls);
    assert(t.push(s.last()).drop_last() =~= t);
}

/// Two arrangements in order whose tying records come, for every key, in the
/// same order are the same.
pub proof fn lemma_sorted_ties_unique(
    t1: Seq<RecordView>,
    t2: Seq<RecordView>,
    order: Seq<SortOrder>,
    colls: Seq<CollationSeq>,
)
    requires
        is_sorted(t1, order, colls),
        is_sorted(t2, order, colls),
        forall|x: RecordView| #[trigger] ties_with(t1, x, order, colls) == ties_with(t2, x, order, colls),
    ensures
        t1 == t2,
    decreases t1.len() + t2.len(),
{
    if t1.len() == 0 && t2.len() == 0 {
        assert(t1 =~= t2);
    } else if t1.len() == 0 {
        let b = t2.last();
        lemma_record_order_laws(b, b, b, order, colls);
        lemma_ties_with_drop_last(t2, b, order, colls);
        assert(ties_with(t1, b, order, colls).len() == 0);
    } else if t2.len() == 0 {
        let a = t1.last();
        lemma_record_order_laws(a, a, a, order, colls);
        lemma_ties_with_drop_last(t1, a, order, colls);
        assert(ties_with(t2, a, order, colls).len() == 0);
    } else {
        let a = t1.last();
        let b = t2.last();
        lemma_record_order_laws(a, a, a, order, colls);
        lemma_record_order_laws(b, b, b, order, colls);
        lemma_record_order_laws(a, b, b, order, colls);
        lemma_ties_with_drop_last(t1, a, order, colls);
        lemma_ties_with_drop_last(t2, b, order, colls);
        let ta = ties_with(t1, a, order, colls);
        let tb = ties_with(t2, b, order, colls);
        assert(ta == ties_with(t2, a, order, colls));
        assert(ta[ta.len() - 1] == a);
        lemma_ties_with_member(t2, a, a, order, colls);
        let i = choose|i: int| 0 <= i < t2.len() && t2[i] == a;
        if i < t2.len() - 1 {
            assert(record_order(t2[i], t2[t2.len() - 1], order, colls) <= 0);
        }
        assert(tb == ties_with(t1, b, order, colls));
        assert(tb[tb.len() - 1] == b);
        lemma_ties_with_member(t1, b, b, order, colls);
        let j = choose|j: int| 0 <= j < t1.len() && t1[j] == b;
        if j < t1.len() - 1 {
            assert(record_order(t1[j], t1[t1.len() - 1], order, colls) <= 0);
        }
        assert(record_order(b, a, order, colls) == 0);
        lemma_ties_with_drop_last(t2, a, order, colls);
        assert(a == b);
        let u1 = t1.drop_last();
        let u2 = t2.drop_last();
        assert forall|x: RecordView| #[trigger] ties_with(u1, x, order, colls) == ties_with(
            u2,
            x,
            order,
            colls,
        ) by {
            lemma_ties_with_drop_last(t1, x, order, colls);
            lemma_ties_with_drop_last(t2, x, order, colls);
            assert(ties_with(t1, x, order, colls) == ties_with(t2, x, order, colls));
        }
        assert(is_sorted(u1, order, colls)) by {
            assert forall|p: int, q: int| 0 <= p < q < u1.len() implies record_order(
                u1[p],
                u1[q],
                order,
                colls,
            ) <= 0 by {
                assert(u1[p] == t1[p] && u1[q] == t1[q]);
            }
        }
        assert(is_sorted(u2, order, colls)) by {
            assert forall|p: int, q: int| 0 <= p < q < u2.len() implies record_order(
                u2[p],
                u2[q],
                order,
                colls,
            ) <= 0 by {
                assert(u2[p] == t2[p] && u2[q] == t2[q]);
            }
        }
        lemma_sorted_ties_unique(u1, u2, order, colls);
        assert(t1 =~= t2) by {
            assert(u1.push(a) =~= t1);
            assert(u2.push(b) =~= t2);
        }
    }
}

/// The sort of `s` is the one arrangement of records in order in which the
/// records whose keys tie come in the order in which `s` holds them.
pub proof fn lemma_sorted_records_unique(
    s: Seq<RecordView>,
    t: Seq<RecordView>,
    order: Seq<SortOrder>,
    colls: Seq<CollationSeq>,
)
    requires
        is_sorted(t, order, colls),
        forall|x: RecordView| #[trigger] ties_with(t, x, order, colls) == ties_with(s, x, order, colls),
    ensures
        t == sorted_records(s, order, colls),
{
    let y = sorted_records(s, order, colls);
    lemma_sorted_records_is_sorted(s, order, colls);
    assert forall|x: RecordView| #[trigger] ties_with(t, x, order, colls) == ties_with(
        y,
        x,
        order,
        colls,
    ) by {
        lemma_sorted_records_stable(s, x, order, colls);
    }
    lemma_sorted_ties_unique(t, y, order, colls);
}

proof fn lemma_ties_with_single(
    e: RecordView,
    x: RecordView,
    order: Seq<SortOrder>,
    colls: Seq<CollationSeq>,
)
    ensures
        ties_with(seq![e], x, order, colls) == (if record_order(e, x, order, colls) == 0 {
            seq![e]
        } else {
            Seq::<RecordView>::empty()
        }),
{
    let s = seq![e];
    assert(s.drop_last() =~= Seq::<RecordView>::empty());
    assert(s.last() == e);
    assert(ties_with(Seq::<RecordView>::empty(), x, order, colls) =~= Seq::<RecordView>::empty());
    assert(Seq::<RecordView>::empty().push(e) =~= seq![e]);
}

proof fn lemma_ties_with_none(
    s: Seq<RecordView>,
    x: RecordView,
    order: Seq<SortOrder>,
    colls: Seq<CollationSeq>,
)
    requires
        forall|k: int| 0 <= k < s.len() ==> record_order(#[trigger] s[k], x, order, colls) != 0,
    ensures
        ties_with(s, x, order, colls) == Seq::<RecordView>::empty(),
    decreases s.len(),
{
    if s.len() > 0 {
        let t = s.drop_last();
        assert forall|k: int| 0 <= k < t.len() implies record_order(#[trigger] t[k], x, order, colls)
            != 0 by {
            assert(t[k] == s[k]);
        }
        assert(record_order(s[s.len() - 1], x, order, colls) != 0);
        lemma_ties_with_none(t, x, order, colls);
    }
}

/// What holds while two runs in order are merged from their ends: the
/// first `i` records of `a` and the first `j` of `b` are left, `t` holds
/// the others in order, no record left sorts after the first of `t`, the
/// records taken from `a` sort after every record left in `b`, and the
/// records of `t` that tie with any key come as those of `a` then those of
/// `b`.
spec fn merge_invariant(
    a: Seq<RecordView>,
    b: Seq<RecordView>,
    i: int,
    j: int,
    t: Seq<RecordView>,
    order: Seq<SortOrder>,
    colls: Seq<CollationSeq>,
) -> bool {
    &&& 0 <= i <= a.len()
    &&& 0 <= j <= b.len()
    &&& is_sorted(a, order, colls)
    &&& is_sorted(b, order, colls)
    &&& is_sorted(t, order, colls)
    &&& t.len() > 0 ==> forall|k: int| 0 <= k < i ==> record_order(#[trigger] a[k], t[0], order, colls) <= 0
    &&& t.len() > 0 ==> forall|k: int| 0 <= k < j ==> record_order(#[trigger] b[k], t[0], order, colls) <= 0
    &&& forall|p: int, q: int|
        i <= p < a.len() && 0 <= q < j ==> record_order(#[trigger] a[p], #[trigger] b[q], order, colls) > 0
    &&& forall|x: RecordView| #[trigger] ties_with(t, x, order, colls) == ties_with(a.skip(i), x, order, colls)
        + ties_with(b.skip(j), x, order, colls)
}

proof fn lemma_merge_start(
    a: Seq<RecordView>,
    b: Seq<RecordView>,
    order: Seq<SortOrder>,
    colls: Seq<CollationSeq>,
)
    requires
        is_sorted(a, order, colls),
        is_sorted(b, order, colls),
    ensures
        merge_invariant(a, b, a.len() as int, b.len() as int, Seq::<RecordView>::empty(), order, colls),
{
    let t = Seq::<RecordView>::empty();
    assert forall|x: RecordView| #[trigger] ties_with(t, x, order, colls) == ties_with(
        a.skip(a.len() as int),
        x,
        order,
        colls,
    ) + ties_with(b.skip(b.len() as int), x, order, colls) by {
        assert(a.skip(a.len() as int) =~= t);
        assert(b.skip(b.len() as int) =~= t);
        assert(t + t =~= t);
    }
}

proof fn lemma_merge_end(
    a: Seq<RecordView>,
    b: Seq<RecordView>,
    t: Seq<RecordView>,
    order: Seq<SortOrder>,
    colls: Seq<CollationSeq>,
)
    requires
        merge_invariant(a, b, 0, 0, t, order, colls),
    ensures
        is_sorted(t, order, colls),
        forall|x: RecordView| #[trigger] ties_with(t, x, order, colls) == ties_with(a, x, order, colls)
            + ties_with(b, x, order, colls),
{
    assert(a.skip(0) =~= a);
    assert(b.skip(0) =~= b);
}

/// Taking the last record left in `a`, which sorts after the last left in `b`.
proof fn lemma_merge_take_a(
    a: Seq<RecordView>,
    b: Seq<RecordView>,
    i: int,
    j: int,
    t: Seq<RecordView>,
    order: Seq<SortOrder>,
    colls: Seq<CollationSeq>,
)
    requires
        merge_invariant(a, b, i, j, t, order, colls),
        i > 0,
        j > 0 ==> record_order(a[i - 1], b[j - 1], order, colls) > 0,
    ensures
        merge_invariant(a, b, i - 1, j, seq![a[i - 1]] + t, order, colls),
{
    let e = a[i - 1];
    let t2 = seq![e] + t;
    assert forall|p: int, q: int| 0 <= p < q < t2.len() implies record_order(
        t2[p],
        t2[q],
        order,
        colls,
    ) <= 0 by {
        if p == 0 {
            assert(t2[q] == t[q - 1]);
            assert(record_order(a[i - 1], t[0], order, colls) <= 0);
            if q > 1 {
                assert(record_order(t[0], t[q - 1], order, colls) <= 0);
                lemma_record_order_laws(e, t[0], t[q - 1], order, colls);
            }
        } else {
            assert(t2[p] == t[p - 1] && t2[q] == t[q - 1]);
        }
    }
    assert forall|k: int| 0 <= k < i - 1 implies record_order(#[trigger] a[k], t2[0], order, colls) <= 0 by {
        assert(record_order(a[k], a[i - 1], order, colls) <= 0);
    }
    assert forall|k: int| 0 <= k < j implies record_order(#[trigger] b[k], t2[0], order, colls) <= 0 by {
        lemma_record_order_laws(e, b[j - 1], b[j - 1], order, colls);
        if k < j - 1 {
            assert(record_order(b[k], b[j - 1], order, colls) <= 0);
        }
        lemma_record_order_laws(b[k], b[j - 1], e, order, colls);
    }
    assert forall|p: int, q: int| i - 1 <= p < a.len() && 0 <= q < j implies record_order(
        #[trigger] a[p],
        #[trigger] b[q],
        order,
        colls,
    ) > 0 by {
        if p == i - 1 {
            if q < j - 1 {
                assert(record_order(b[q], b[j - 1], order, colls) <= 0);
            }
            lemma_record_order_laws(e, b[q], b[j - 1], order, colls);
            lemma_record_order_laws(b[q], b[j - 1], e, order, colls);
        }
    }
    assert(a.skip(i - 1) =~= seq![e] + a.skip(i));
    assert forall|x: RecordView| #[trigger] ties_with(t2, x, order, colls) == ties_with(
        a.skip(i - 1),
        x,
        order,
        colls,
    ) + ties_with(b.skip(j), x, order, colls) by {
        lemma_ties_with_concat(seq![e], t, x, order, colls);
        lemma_ties_with_concat(seq![e], a.skip(i), x, order, colls);
        let te = ties_with(seq![e], x, order, colls);
        let ta = ties_with(a.skip(i), x, order, colls);
        let tb = ties_with(b.skip(j), x, order, colls);
        assert(ties_with(t, x, order, colls) == ta + tb);
        assert(te + (ta + tb) =~= (te + ta) + tb);
    }
}

/// Taking the last record left in `b`, after which that left in `a` does not sort.
proof fn lemma_merge_take_b(
    a: Seq<RecordView>,
    b: Seq<RecordView>,
    i: int,
    j: int,
    t: Seq<RecordView>,
    order: Seq<SortOrder>,
    colls: Seq<CollationSeq>,
)
    requires
        merge_invariant(a, b, i, j, t, order, colls),
        j > 0,
        i > 0 ==> record_order(a[i - 1], b[j - 1], order, colls) <= 0,
    ensures
        merge_invariant(a, b, i, j - 1, seq![b[j - 1]] + t, order, colls),
{
    let e = b[j - 1];
    let t2 = seq![e] + t;
    assert forall|p: int, q: int| 0 <= p < q < t2.len() implies record_order(
        t2[p],
        t2[q],
        order,
        colls,
    ) <= 0 by {
        if p == 0 {
            assert(t2[q] == t[q - 1]);
            assert(record_order(b[j - 1], t[0], order, colls) <= 0);
            if q > 1 {
                assert(record_order(t[0], t[q - 1], order, colls) <= 0);
                lemma_record_order_laws(e, t[0], t[q - 1], order, colls);
            }
        } else {
            assert(t2[p] == t[p - 1] && t2[q] == t[q - 1]);
        }
    }
    assert forall|k: int| 0 <= k < i implies record_order(#[trigger] a[k], t2[0], order, colls) <= 0 by {
        if k < i - 1 {
            assert(record_order(a[k], a[i - 1], order, colls) <= 0);
        }
        lemma_record_order_laws(a[k], a[i - 1], e, order, colls);
    }
    assert forall|k: int| 0 <= k < j - 1 implies record_order(#[trigger] b[k], t2[0], order, colls) <= 0 by {
        assert(record_order(b[k], b[j - 1], order, colls) <= 0);
    }
    assert(b.skip(j - 1) =~= seq![e] + b.skip(j));
    assert forall|x: RecordView| #[trigger] ties_with(t2, x, order, colls) == ties_with(
        a.skip(i),
        x,
        order,
        colls,
    ) + ties_with(b.skip(j - 1), x, order, colls) by {
        lemma_ties_with_concat(seq![e], t, x, order, colls);
        lemma_ties_with_concat(seq![e], b.skip(j), x, order, colls);
        lemma_ties_with_single(e, x, order, colls);
        let te = ties_with(seq![e], x, order, colls);
        let ta = ties_with(a.skip(i), x, order, colls);
        let tb = ties_with(b.skip(j), x, order, colls);
        assert(ties_with(t, x, order, colls) == ta + tb);
        if record_order(e, x, order, colls) == 0 {
            let s = a.skip(i);
            assert forall|k: int| 0 <= k < s.len() implies record_order(#[trigger] s[k], x, order, colls)
                != 0 by {
                assert(s[k] == a[i + k]);
                assert(record_order(a[i + k], b[j - 1], order, colls) > 0);
                lemma_record_order_laws(a[i + k], x, e, order, colls);
                lemma_record_order_laws(x, e, e, order, colls);
            }
            lemma_ties_with_none(s, x, order, colls);
            assert(te + (ta + tb) =~= ta + (te + tb));
        } else {
            assert(te + (ta + tb) =~= ta + (te + tb));
        }
    }
}

/// What a sorter holds: the records not yet handed out, the one it points at,
/// and how it orders records.
pub struct SorterView {
    pub records: Seq<RecordView>,
    pub current: Option<RecordView>,
    pub order: Seq<SortOrder>,
    pub collations: Seq<CollationSeq>,
}

/// The records a reader of the sorter will see from now on, in the order in
/// which it will see them: the current one, then those that `next` pops.
pub open spec fn remaining(v: SorterView) -> Seq<RecordView> {
    match v.current {
        Some(c) => seq![c] + v.records.reverse(),
        None => v.records.reverse(),
    }
}

/// The sorter once it has moved on: it points at the last of the records
/// waiting, which leaves them, or at nothing when none waits.
pub open spec fn next_view(v: SorterView) -> SorterView {
    if v.records.len() > 0 {
        SorterView { records: v.records.drop_last(), current: Some(v.records.last()), ..v }
    } else {
        SorterView { current: None, ..v }
    }
}

/// The sorter once it has moved on `k` times.
pub open spec fn nexts(v: SorterView, k: nat) -> SorterView
    decreases k,
{
    if k == 0 {
        v
    } else {
        next_view(nexts(v, (k - 1) as nat))
    }
}

/// The sorter once its records are sorted: they wait in reverse order, and
/// it points at the first of them.
pub open spec fn sorted_view(v: SorterView) -> SorterView {
    next_view(
        SorterView {
            records: sorted_records(v.records, v.order, v.collations).reverse(),
            ..v
        },
    )
}

/// Reading a sorted sorter: after `sort` and `k` calls of `next`, the sorter
/// points at the record at place `k` of the sorted records while `k` is less
/// than their number `n`, and at nothing from then on; `n - k - 1` records
/// still wait behind it (none once `k + 1 >= n`); and what is left to read is
/// the sorted records from place `k` on. So a loop that reads the current
/// record and calls `next` while the sorter has one visits the `n` records
/// in sorted order and stops.
pub proof fn lemma_sorted_walk(v: SorterView, k: nat)
    ensures
        ({
            let y = sorted_records(v.records, v.order, v.collations);
            let w = nexts(sorted_view(v), k);
            &&& (w.current is Some <==> k < y.len())
            &&& k < y.len() ==> w.current == Some(y[k as int])
            &&& w.records.len() == (if k + 1 <= y.len() { y.len() - k - 1 } else { 0int })
            &&& (w.records.len() == 0 <==> k + 1 >= y.len())
            &&& k <= y.len() ==> remaining(w) == y.skip(k as int)
            &&& w.order == v.order
            &&& w.collations == v.collations
        }),
    decreases k,
{
    let y = sorted_records(v.records, v.order, v.collations);
    let n = y.len();
    let w = nexts(sorted_view(v), k);
    let r = y.reverse();
    assert(w.records == r.take(if k + 1 <= n { n - k - 1 } else { 0int })
        && (k < n ==> w.current == Some(y[k as int]))
        && (k >= n ==> w.current is None)
        && w.order == v.order && w.collations == v.collations) by {
        lemma_sorted_walk_state(v, k);
    }
    if k <= n {
        let m: int = if k + 1 <= n { n - k - 1 } else { 0int };
        if k < n {
            assert(seq![y[k as int]] + r.take(m).reverse() =~= y.skip(k as int));
        } else {
            assert(r.take(m).reverse() =~= y.skip(k as int));
        }
    }
}

proof fn lemma_sorted_walk_state(v: SorterView, k: nat)
    ensures
        ({
            let y = sorted_records(v.records, v.order, v.collations);
            let n = y.len();
            let w = nexts(sorted_view(v), k);
            &&& w.records == y.reverse().take(if k + 1 <= n { n - k - 1 } else { 0int })
            &&& k < n ==> w.current == Some(y[k as int])
            &&& k >= n ==> w.current is None
            &&& w.order == v.order
            &&& w.collations == v.collations
        }),
    decreases k,
{
    let y = sorted_records(v.records, v.order, v.collations);
    let n = y.len();
    let r = y.reverse();
    if k == 0 {
        if n > 0 {
            assert(r.drop_last() =~= r.take(n - 1));
        } else {
            assert(r =~= r.take(0));
        }
    } else {
        lemma_sorted_walk_state(v, (k - 1) as nat);
        let km1 = (k - 1) as int;
        if k < n {
            let m = n - km1 - 1;
            assert(r.take(m).drop_last() =~= r.take(m - 1));
            assert(r.take(m).last() == r[m - 1]);
        } else {
            assert(r.take(0) =~= Seq::<RecordView>::empty());
        }
    }
}

/// Collects records, sorts them by their key columns, and returns them one
/// at a time.
pub struct Sorter {
    records: Vec<ImmutableRecord>,
    current: Option<ImmutableRecord>,
    order: Vec<SortOrder>,
    collations: Vec<CollationSeq>,
}

impl View for Sorter {
    type V = SorterView;

    closed spec fn view(&self) -> SorterView {
        SorterView {
            records: record_views(self.records@),
            current: match self.current {
                Some(r) => Some(r@),
                None => None,
            },
            order: self.order@,
            collations: self.collations@,
        }
    }
}

/// Whether a comparison found its left operand greater.
fn is_greater(o: Ordering) -> (r: bool)
    ensures
        r == (o == Ordering::Greater),
{
    match o {
        Ordering::Greater => true,
        _ => false,
    }
}

/// Whether `x` sorts after `y`.
fn sorts_after(
    x: &ImmutableRecord,
    y: &ImmutableRecord,
    order: &Vec<SortOrder>,
    colls: &Vec<CollationSeq>,
) -> (r: bool)
    ensures
        r == (record_order(x@, y@, order@, colls@) > 0),
{
    proof {
        lemma_record_order_laws(x@, y@, y@, order@, colls@);
    }
    is_greater(compare_immutable(x, y, order.as_slice(), colls.as_slice()))
}

/// The records of `v` in reverse order.
fn reverse_records(v: Vec<ImmutableRecord>) -> (r: Vec<ImmutableRecord>)
    ensures
        r@ == v@.reverse(),
{
    let ghost orig = v@;
    let mut v = v;
    let mut r: Vec<ImmutableRecord> = Vec::new();
    while v.len() > 0
        invariant
            v@ == orig.take(v@.len() as int),
            r@ == orig.reverse().take(r@.len() as int),
            v@.len() + r@.len() == orig.len(),
        decreases v@.len(),
    {
        let ghost m: int = v@.len() as int;
        let ghost k: int = r@.len() as int;
        assert(v@[m - 1] == orig[m - 1]);
        let x = v.pop().unwrap();
        r.push(x);
        proof {
            assert(orig.reverse()[k] == orig[m - 1]);
            assert(r@ =~= orig.reverse().take(k + 1));
            assert(v@ =~= orig.take(m - 1));
        }
    }
    assert(r@ =~= orig.reverse());
    r
}

/// Merges two runs of records in order into one. Records whose keys tie
/// keep their order, those of `a` before those of `b`.
fn merge(
    a: Vec<ImmutableRecord>,
    b: Vec<ImmutableRecord>,
    order: &Vec<SortOrder>,
    colls: &Vec<CollationSeq>,
) -> (r: Vec<ImmutableRecord>)
    requires
        is_sorted(record_views(a@), order@, colls@),
        is_sorted(record_views(b@), order@, colls@),
    ensures
        is_sorted(record_views(r@), order@, colls@),
        forall|x: RecordView| #[trigger] ties_with(record_views(r@), x, order@, colls@) == ties_with(
            record_views(a@),
            x,
            order@,
            colls@,
        ) + ties_with(record_views(b@), x, order@, colls@),
{
    let ghost va = record_views(a@);
    let ghost vb = record_views(b@);
    let ghost o = order@;
    let ghost c = colls@;
    let mut a = a;
    let mut b = b;
    let mut out: Vec<ImmutableRecord> = Vec::new();
    proof {
        lemma_merge_start(va, vb, o, c);
        assert(record_views(a@) =~= va.take(a@.len() as int));
        assert(record_views(b@) =~= vb.take(b@.len() as int));
        assert(record_views(out@).reverse() =~= Seq::<RecordView>::empty());
    }
    while a.len() > 0 || b.len() > 0
        invariant
            o == order@,
            c == colls@,
            a@.len() <= va.len(),
            b@.len() <= vb.len(),
            record_views(a@) == va.take(a@.len() as int),
            record_views(b@) == vb.take(b@.len() as int),
            merge_invariant(
                va,
                vb,
                a@.len() as int,
                b@.len() as int,
                record_views(out@).reverse(),
                o,
                c,
            ),
        decreases a@.len() + b@.len(),
    {
        let ghost i: int = a@.len() as int;
        let ghost j: int = b@.len() as int;
        let ghost t = record_views(out@).reverse();
        proof {
            if i > 0 {
                assert(a@[i - 1]@ == va[i - 1]) by {
                    assert(record_views(a@)[i - 1] == va.take(i)[i - 1]);
                }
            }
            if j > 0 {
                assert(b@[j - 1]@ == vb[j - 1]) by {
                    assert(record_views(b@)[j - 1] == vb.take(j)[j - 1]);
                }
            }
        }
        let take_a = if a.len() == 0 {
            false
        } else if b.len() == 0 {
            true
        } else {
            let la = a.len() - 1;
            let lb = b.len() - 1;
            sorts_after(&a[la], &b[lb], order, colls)
        };
        if take_a {
            proof {
                lemma_merge_take_a(va, vb, i, j, t, o, c);
            }
            let e = a.pop().unwrap();
            out.push(e);
            proof {
                assert(record_views(a@) =~= va.take(i - 1));
                assert(record_views(out@).reverse() =~= seq![va[i - 1]] + t);
            }
        } else {
            proof {
                if i > 0 {
                    lemma_record_order_laws(va[i - 1], vb[j - 1], vb[j - 1], o, c);
                }
                lemma_merge_take_b(va, vb, i, j, t, o, c);
            }
            let e = b.pop().unwrap();
            out.push(e);
            proof {
                assert(record_views(b@) =~= vb.take(j - 1));
                assert(record_views(out@).reverse() =~= seq![vb[j - 1]] + t);
            }
        }
    }
    proof {
        lemma_merge_end(va, vb, record_views(out@).reverse(), o, c);
    }
    let r = reverse_records(out);
    assert(record_views(r@) =~= record_views(out@).reverse());
    r
}

/// Sorts `v` by merging sorted halves: the result is in order, and records
/// whose keys tie keep their order.
fn merge_sort(
    v: Vec<ImmutableRecord>,
    order: &Vec<SortOrder>,
    colls: &Vec<CollationSeq>,
) -> (r: Vec<ImmutableRecord>)
    ensures
        is_sorted(record_views(r@), order@, colls@),
        forall|x: RecordView| #[trigger] ties_with(record_views(r@), x, order@, colls@) == ties_with(
            record_views(v@),
            x,
            order@,
            colls@,
        ),
    decreases v@.len(),
{
    if v.len() <= 1 {
        return v;
    }
    let ghost vv = record_views(v@);
    let mid = v.len() / 2;
    let mut left = v;
    let right = left.split_off(mid);
    proof {
        assert(record_views(left@) + record_views(right@) =~= vv);
    }
    let ghost vl = record_views(left@);
    let ghost vr = record_views(right@);
    let l = merge_sort(left, order, colls);
    let r = merge_sort(right, order, colls);
    let m = merge(l, r, order, colls);
    assert forall|x: RecordView| #[trigger] ties_with(record_views(m@), x, order@, colls@) == ties_with(
        vv,
        x,
        order@,
        colls@,
    ) by {
        lemma_ties_with_concat(vl, vr, x, order@, colls@);
    }
    m
}

impl Sorter {
    /// An empty sorter whose key columns go in the directions `order` under
    /// the collating sequences `collations` (`Binary` past their end).
    pub fn new(order: &[SortOrder], collations: Vec<CollationSeq>) -> (s: Self)
        ensures
            s@.records == Seq::<RecordView>::empty(),
            s@.current == Option::<RecordView>::None,
            s@.order == order@,
            s@.collations == collations@,
    {
        let mut o: Vec<SortOrder> = Vec::new();
        for i in 0..order.len()
            invariant
                o@ == order@.take(i as int),
        {
            o.push(order[i]);
            assert(o@ =~= order@.take(i + 1));
        }
        assert(order@.take(order@.len() as int) =~= order@);
        let s = Sorter { records: Vec::new(), current: None, order: o, collations };
        assert(s@.records =~= Seq::<RecordView>::empty());
        s
    }

    /// Whether no records wait behind the current one.
    pub fn is_empty(&self) -> (r: bool)
        ensures
            r == (self@.records.len() == 0),
    {
        self.records.len() == 0
    }

    /// Whether the sorter points at a record.
    pub fn has_more(&self) -> (r: bool)
        ensures
            r == (self@.current is Some),
    {
        self.current.is_some()
    }

    /// Sorts the collected records on their key columns, stably (a merge
    /// sort: O(n log n) comparisons), and points at the first of them.
    pub fn sort(&mut self)
        ensures
            final(self)@ == sorted_view(old(self)@),
            final(self)@.order == old(self)@.order,
            final(self)@.collations == old(self)@.collations,
            ({
                let s = sorted_records(old(self)@.records, old(self)@.order, old(self)@.collations);
                &&& s.len() == 0 ==> final(self)@.current is None && final(self)@.records.len() == 0
                &&& s.len() > 0 ==> final(self)@.current == Some(s[0])
                    && final(self)@.records == s.reverse().drop_last()
                &&& remaining(final(self)@) == s
            }),
    {
        let ghost orig = record_views(self.records@);
        let ghost order = self.order@;
        let ghost colls = self.collations@;
        let v = self.records.split_off(0);
        assert(record_views(v@) =~= orig);
        let sorted = merge_sort(v, &self.order, &self.collations);
        proof {
            lemma_sorted_records_unique(orig, record_views(sorted@), order, colls);
        }
        let ghost s = sorted_records(orig, order, colls);
        self.records = reverse_records(sorted);
        assert(record_views(self.records@) =~= s.reverse());
        self.next();
        proof {
            if s.len() > 0 {
                assert(s.reverse().drop_last().reverse() =~= s.drop_first());
                assert(seq![s[0]] + s.drop_first() =~= s);
            } else {
                assert(s.reverse() =~= s);
            }
        }
    }

    /// Points at the next record: the last of those waiting, if any.
    pub fn next(&mut self)
        ensures
            final(self)@ == next_view(old(self)@),
            final(self)@.order == old(self)@.order,
            final(self)@.collations == old(self)@.collations,
            old(self)@.records.len() > 0 ==> final(self)@.current == Some(old(self)@.records.last())
                && final(self)@.records == old(self)@.records.drop_last(),
            old(self)@.records.len() == 0 ==> final(self)@.current is None && final(self)@.records
                == old(self)@.records,
            remaining(final(self)@) == (match old(self)@.current {
                Some(_) => remaining(old(self)@).drop_first(),
                None => remaining(old(self)@),
            }),
    {
        let ghost old_records = record_views(self.records@);
        self.current = self.records.pop();
        proof {
            let new_records = record_views(self.records@);
            if old_records.len() > 0 {
                assert(new_records =~= old_records.drop_last());
                assert(seq![old_records.last()] + new_records.reverse() =~= old_records.reverse());
            } else {
                assert(new_records =~= old_records);
            }
        }
    }

    /// The record the sorter points at, if any.
    pub fn record(&self) -> (r: Option<&ImmutableRecord>)
        ensures
            r is Some <==> self@.current is Some,
            r matches Some(x) ==> self@.current == Some(x@),
    {
        self.current.as_ref()
    }

    /// Adds a copy of `record` to the records to sort.
    pub fn insert(&mut self, record: &ImmutableRecord)
        ensures
            final(self)@.records == old(self)@.records.push(record@),
            final(self)@.current == old(self)@.current,
            final(self)@.order == old(self)@.order,
            final(self)@.collations == old(self)@.collations,
    {
        self.records.push(record.clone());
        assert(record_views(self.records@) =~= record_views(old(self).records@).push(record@));
    }
}

} // verus!
