//! What every emission of a compound SELECT guarantees: each SELECT is
//! emitted once, in the order of the statement; every jump label it creates
//! is resolved inside the program; and the LIMIT counter is one register,
//! shared by every SELECT and every limit check.
use crate::ast::{CompoundOperator, SortOrder};
use crate::builder::{
    after_epilogue, emitted, next_label, resolved, with_label, with_registers, BranchOffset,
    InsnView, LimitCtx, ProgramState, TransactionMode,
};
use crate::compound_select::{
    CompoundFailure, column_reads, compound_emission, compound_program, dedupe_read, dedupe_read_fits,
    select_emitted, union_dedupe_index,
    union_all_left, union_all_rest, union_index_setup, union_rest,
    with_destination, with_limit,
};
use crate::schema::IndexView;
use crate::plan::{left_views, DestinationView, Plan, SelectPlanView};
use vstd::prelude::*;

verus! {

/// What a SELECT reads and returns: its result columns and its tables.
pub open spec fn source_of(p: SelectPlanView) -> (Seq<Option<Seq<char>>>, Seq<Seq<char>>) {
    (p.result_columns, p.table_references)
}

/// The SELECTs that a run of instructions holds, in order, each by what it
/// reads and returns.
pub open spec fn select_sources(insns: Seq<InsnView>) -> Seq<(Seq<Option<Seq<char>>>, Seq<Seq<char>>)>
    decreases insns.len(),
{
    if insns.len() == 0 {
        seq![]
    } else {
        let r = select_sources(insns.drop_last());
        match insns.last() {
            InsnView::Select { plan, .. } => r.push(source_of(plan)),
            _ => r,
        }
    }
}

/// What the SELECTs left of the right-most one read and return, in order.
pub open spec fn left_sources(left: Seq<(SelectPlanView, CompoundOperator)>) -> Seq<
    (Seq<Option<Seq<char>>>, Seq<Seq<char>>),
> {
    left.map_values(|x: (SelectPlanView, CompoundOperator)| source_of(x.0))
}

/// `t` is `s` with instructions appended.
pub open spec fn insns_extend(s: ProgramState, t: ProgramState) -> bool {
    &&& t.insns.len() >= s.insns.len()
    &&& t.insns.take(s.insns.len() as int) == s.insns
}

/// From `s` to `t`, the labels of `s` are left as they were, and every label
/// created since is resolved to an offset within the program.
pub open spec fn labels_settled(s: ProgramState, t: ProgramState) -> bool {
    &&& t.labels.len() >= s.labels.len()
    &&& t.insns.len() >= s.insns.len()
    &&& forall|n: int| 0 <= n < s.labels.len() ==> #[trigger] t.labels[n] == s.labels[n]
    &&& forall|n: int|
        s.labels.len() <= n < t.labels.len() ==> (#[trigger] t.labels[n] matches Some(o) && o
            <= t.insns.len())
}

/// An instruction that names a limit counter names that of `ctx`.
pub open spec fn names_limit(i: InsnView, ctx: Option<LimitCtx>) -> bool {
    match i {
        InsnView::Select { limit_ctx, .. } => limit_ctx is None || limit_ctx == ctx,
        InsnView::IfNot { reg, .. } => ctx matches Some(c) && reg == c.reg_limit,
        InsnView::DecrJumpZero { reg, .. } => ctx matches Some(c) && reg == c.reg_limit,
        _ => true,
    }
}

/// Every instruction appended from `s` to `t` names, if any, the limit counter of `ctx`.
pub open spec fn added_name_limit(s: ProgramState, t: ProgramState, ctx: Option<LimitCtx>) -> bool {
    forall|k: int| s.insns.len() <= k < t.insns.len() ==> names_limit(#[trigger] t.insns[k], ctx)
}

/// A SELECT instruction puts its result columns into the registers from
/// `start` on (or into registers of its own when `start` is `None`).
pub open spec fn select_start(i: InsnView, start: Option<usize>) -> bool {
    match i {
        InsnView::Select { reg_result_cols_start, .. } => reg_result_cols_start == start,
        _ => true,
    }
}

/// Every SELECT appended from `s` to `t` puts its result columns into the
/// registers from `start` on.
pub open spec fn added_select_start(s: ProgramState, t: ProgramState, start: Option<usize>) -> bool {
    forall|k: int| s.insns.len() <= k < t.insns.len() ==> select_start(#[trigger] t.insns[k], start)
}

proof fn lemma_start_trans(s: ProgramState, t: ProgramState, u: ProgramState, start: Option<usize>)
    requires
        insns_extend(s, t),
        insns_extend(t, u),
        added_select_start(s, t, start),
        added_select_start(t, u, start),
    ensures
        added_select_start(s, u, start),
{
    assert forall|k: int| s.insns.len() <= k < u.insns.len() implies select_start(
        #[trigger] u.insns[k],
        start,
    ) by {
        if k < t.insns.len() {
            assert(u.insns[k] == u.insns.take(t.insns.len() as int)[k]);
            assert(select_start(t.insns[k], start));
        }
    }
}

proof fn lemma_sources_concat(a: Seq<InsnView>, b: Seq<InsnView>)
    ensures
        select_sources(a + b) == select_sources(a) + select_sources(b),
    decreases b.len(),
{
    if b.len() == 0 {
        assert(a + b =~= a);
        assert(select_sources(a) + select_sources(b) =~= select_sources(a));
    } else {
        lemma_sources_concat(a, b.drop_last());
        assert((a + b).drop_last() =~= a + b.drop_last());
        assert((a + b).last() == b.last());
        match b.last() {
            InsnView::Select { plan, .. } => {
                assert(select_sources(a) + select_sources(b) =~= (select_sources(a) + select_sources(
                    b.drop_last(),
                )).push(source_of(plan)));
            },
            _ => {},
        }
    }
}

proof fn lemma_sources_push(a: Seq<InsnView>, i: InsnView)
    ensures
        select_sources(a.push(i)) == match i {
            InsnView::Select { plan, .. } => select_sources(a).push(source_of(plan)),
            _ => select_sources(a),
        },
{
    assert(a.push(i).drop_last() =~= a);
}

proof fn lemma_sources_none(b: Seq<InsnView>)
    requires
        forall|k: int| 0 <= k < b.len() ==> !(#[trigger] b[k] is Select),
    ensures
        select_sources(b) == Seq::<(Seq<Option<Seq<char>>>, Seq<Seq<char>>)>::empty(),
    decreases b.len(),
{
    if b.len() > 0 {
        lemma_sources_none(b.drop_last());
        assert(!(b[b.len() - 1] is Select));
    }
}

/// Appending instructions none of which is a SELECT adds no SELECT.
proof fn lemma_sources_extend_without_select(s: ProgramState, t: ProgramState)
    requires
        insns_extend(s, t),
        forall|k: int| s.insns.len() <= k < t.insns.len() ==> !(#[trigger] t.insns[k] is Select),
    ensures
        select_sources(t.insns) == select_sources(s.insns),
{
    let b = t.insns.skip(s.insns.len() as int);
    assert(t.insns =~= s.insns + b);
    assert forall|k: int| 0 <= k < b.len() implies !(#[trigger] b[k] is Select) by {
        assert(b[k] == t.insns[k + s.insns.len()]);
    }
    lemma_sources_none(b);
    lemma_sources_concat(s.insns, b);
    assert(select_sources(s.insns) + select_sources(b) =~= select_sources(s.insns));
}

/// The deduplication loop appends no SELECT, names only the limit counter
/// it is given, and resolves the two labels it creates.
proof fn lemma_dedupe_read_facts(
    s: ProgramState,
    cursor: usize,
    ncols: nat,
    limit_ctx: Option<LimitCtx>,
    label_limit_reached: BranchOffset,
    yield_reg: Option<usize>,
)
    requires
        s.labels.len() + 2 <= usize::MAX,
    ensures
        ({
            let d = dedupe_read(s, cursor, ncols, limit_ctx, label_limit_reached, yield_reg);
            &&& insns_extend(s, d)
            &&& forall|k: int|
                s.insns.len() <= k < d.insns.len() ==> !(#[trigger] d.insns[k] is Select)
                    && names_limit(d.insns[k], limit_ctx)
            &&& labels_settled(s, d)
            &&& d.labels.len() == s.labels.len() + 2
            &&& forall|start: Option<usize>| added_select_start(s, d, start)
        }),
{
    let d = dedupe_read(s, cursor, ncols, limit_ctx, label_limit_reached, yield_reg);
    let label_next = next_label(s);
    let s1 = with_label(s);
    let label_loop_start = next_label(s1);
    let s2 = with_label(s1);
    let cols_start = s2.next_free_register;
    let s3 = with_registers(s2, ncols as int);
    let s4 = emitted(s3, InsnView::Rewind { cursor_id: cursor, pc_if_empty: label_next });
    let s5 = resolved(s4, label_loop_start);
    let base = match yield_reg {
        Some(y) => y + 1,
        None => cols_start,
    };
    let s6 = ProgramState { insns: s5.insns + column_reads(cursor, ncols, base), ..s5 };
    let s7 = match yield_reg {
        Some(y) => emitted(
            s6,
            InsnView::Yield { yield_reg: y, end_offset: BranchOffset::Offset(0) },
        ),
        None => emitted(
            s6,
            InsnView::ResultRow { start_reg: cols_start as usize, count: ncols as usize },
        ),
    };
    let s8 = match limit_ctx {
        Some(c) => emitted(
            s7,
            InsnView::DecrJumpZero { reg: c.reg_limit, target_pc: label_limit_reached },
        ),
        None => s7,
    };
    let s9 = resolved(s8, label_next);
    let s10 = emitted(s9, InsnView::Next { cursor_id: cursor, pc_if_next: label_loop_start });
    assert(d == emitted(s10, InsnView::Close { cursor_id: cursor }));
    assert forall|k: int| s.insns.len() <= k < d.insns.len() implies !(
    #[trigger] d.insns[k] is Select) && names_limit(d.insns[k], limit_ctx) by {
        if s4.insns.len() <= k < s6.insns.len() {
            assert(d.insns[k] == s6.insns[k]);
            assert(s6.insns[k] == column_reads(cursor, ncols, base)[k - s5.insns.len()]);
        }
    }
    assert(d.insns.take(s.insns.len() as int) =~= s.insns);
    let m = s.labels.len() as int;
    assert(d.labels =~= s.labels.push(None).push(None).update(m + 1, Some(s4.insns.len() as usize)).update(
        m,
        Some(s8.insns.len() as usize),
    ));
}

/// The loop that reads the deduplicated rows back, instruction by
/// instruction: it allocates one register per index column and two labels
/// (`L` and `L + 1`, the first free ones); rewinds the index on `cursor`,
/// jumping to `L` when it is empty; reads column `c` into register
/// `base + c` for every column `c`, where `base` is the register after the
/// coroutine's yield register when rows go to a coroutine, else the first
/// newly allocated one; yields to the coroutine, or hands out the newly
/// allocated registers as a result row; with a limit, counts it down and
/// leaves for `label_limit_reached` when it runs out; then (at `L`) moves to
/// the next entry, back to the first column read (`L + 1`), and finally
/// closes the cursor.
pub proof fn lemma_dedupe_read_layout(
    s: ProgramState,
    cursor: usize,
    ncols: nat,
    limit_ctx: Option<LimitCtx>,
    label_limit_reached: BranchOffset,
    yield_reg: Option<usize>,
)
    requires
        s.labels.len() + 2 <= usize::MAX,
        s.insns.len() + ncols + 4 <= usize::MAX,
        dedupe_read_fits(s, ncols, yield_reg),
    ensures
        ({
            let d = dedupe_read(s, cursor, ncols, limit_ctx, label_limit_reached, yield_reg);
            let n0 = s.insns.len() as int;
            let l = s.labels.len() as int;
            let cols = s.next_free_register;
            let base: int = match yield_reg {
                Some(y) => y + 1,
                None => cols,
            };
            let after: int = n0 + 2 + ncols + if limit_ctx is Some { 1int } else { 0int };
            &&& d.next_free_register == s.next_free_register + ncols
            &&& d.cursors == s.cursors
            &&& d.insns.len() == after + 2
            &&& d.insns.take(n0) == s.insns
            &&& d.insns[n0] == InsnView::Rewind {
                cursor_id: cursor,
                pc_if_empty: BranchOffset::Label(l as usize),
            }
            &&& forall|c: int|
                0 <= c < ncols ==> #[trigger] d.insns[n0 + 1 + c] == InsnView::Column {
                    cursor_id: cursor,
                    column: c as usize,
                    dest: (base + c) as usize,
                }
            &&& d.insns[n0 + 1 + ncols] == match yield_reg {
                Some(y) => InsnView::Yield { yield_reg: y, end_offset: BranchOffset::Offset(0) },
                None => InsnView::ResultRow { start_reg: cols as usize, count: ncols as usize },
            }
            &&& limit_ctx matches Some(c) ==> d.insns[n0 + 2 + ncols] == InsnView::DecrJumpZero {
                reg: c.reg_limit,
                target_pc: label_limit_reached,
            }
            &&& d.insns[after] == InsnView::Next {
                cursor_id: cursor,
                pc_if_next: BranchOffset::Label((l + 1) as usize),
            }
            &&& d.insns[after + 1] == InsnView::Close { cursor_id: cursor }
            &&& d.labels.len() == l + 2
            &&& d.labels.take(l) == s.labels
            &&& d.labels[l] == Some(after as usize)
            &&& d.labels[l + 1] == Some((n0 + 1) as usize)
        }),
{
    let d = dedupe_read(s, cursor, ncols, limit_ctx, label_limit_reached, yield_reg);
    let n0 = s.insns.len() as int;
    let label_next = next_label(s);
    let s1 = with_label(s);
    let label_loop_start = next_label(s1);
    let s2 = with_label(s1);
    let cols_start = s2.next_free_register;
    let s3 = with_registers(s2, ncols as int);
    let s4 = emitted(s3, InsnView::Rewind { cursor_id: cursor, pc_if_empty: label_next });
    let s5 = resolved(s4, label_loop_start);
    let base = match yield_reg {
        Some(y) => y + 1,
        None => cols_start,
    };
    let s6 = ProgramState { insns: s5.insns + column_reads(cursor, ncols, base), ..s5 };
    let s7 = match yield_reg {
        Some(y) => emitted(
            s6,
            InsnView::Yield { yield_reg: y, end_offset: BranchOffset::Offset(0) },
        ),
        None => emitted(
            s6,
            InsnView::ResultRow { start_reg: cols_start as usize, count: ncols as usize },
        ),
    };
    let s8 = match limit_ctx {
        Some(c) => emitted(
            s7,
            InsnView::DecrJumpZero { reg: c.reg_limit, target_pc: label_limit_reached },
        ),
        None => s7,
    };
    let s9 = resolved(s8, label_next);
    let s10 = emitted(s9, InsnView::Next { cursor_id: cursor, pc_if_next: label_loop_start });
    assert(d == emitted(s10, InsnView::Close { cursor_id: cursor }));
    assert(s6.insns.len() == n0 + 1 + ncols);
    assert forall|c: int| 0 <= c < ncols implies #[trigger] d.insns[n0 + 1 + c] == InsnView::Column {
        cursor_id: cursor,
        column: c as usize,
        dest: (base + c) as usize,
    } by {
        assert(d.insns[n0 + 1 + c] == s6.insns[n0 + 1 + c]);
        assert(s6.insns[n0 + 1 + c] == column_reads(cursor, ncols, base)[c]);
    }
    assert(d.insns[n0] == s4.insns[n0]);
    assert(d.insns[n0 + 1 + ncols] == s7.insns[n0 + 1 + ncols]);
    if limit_ctx is Some {
        assert(d.insns[n0 + 2 + ncols] == s8.insns[n0 + 2 + ncols]);
    }
    assert(d.insns.take(n0) =~= s.insns);
    let l = s.labels.len() as int;
    assert(d.labels =~= s.labels.push(None).push(None).update(l + 1, Some((n0 + 1) as usize)).update(
        l,
        Some(s8.insns.len() as usize),
    ));
    assert(d.labels.take(l) =~= s.labels);
}

/// The index that deduplicates a UNION has one ascending column per result
/// column of the SELECT it is made for, named after that column (empty when
/// it has no name), with no collating sequence; it is unique, ephemeral and
/// without rowid, and is called `union_dedupe`.
pub proof fn lemma_union_dedupe_index_shape(first: SelectPlanView)
    ensures
        ({
            let idx = union_dedupe_index(first);
            &&& idx.columns.len() == first.result_columns.len()
            &&& forall|c: int|
                0 <= c < idx.columns.len() ==> {
                    &&& (#[trigger] idx.columns[c]).order == SortOrder::Asc
                    &&& idx.columns[c].collation is None
                    &&& idx.columns[c].pos_in_table == 0
                    &&& idx.columns[c].name == match first.result_columns[c] {
                        Some(n) => n,
                        None => Seq::<char>::empty(),
                    }
                }
            &&& idx.unique
            &&& idx.ephemeral
            &&& !idx.has_rowid
            &&& idx.name == "union_dedupe"@
            &&& idx.root_page == 0
            &&& idx.table_name == Seq::<char>::empty()
        }),
{
}

proof fn lemma_settled_trans(s: ProgramState, t: ProgramState, u: ProgramState)
    requires
        labels_settled(s, t),
        labels_settled(t, u),
    ensures
        labels_settled(s, u),
{
    assert forall|n: int| 0 <= n < s.labels.len() implies #[trigger] u.labels[n] == s.labels[n] by {
        assert(u.labels[n] == t.labels[n]);
    }
    assert forall|n: int| s.labels.len() <= n < u.labels.len() implies (
    #[trigger] u.labels[n] matches Some(o) && o <= u.insns.len()) by {
        if n < t.labels.len() {
            assert(u.labels[n] == t.labels[n]);
        }
    }
}

proof fn lemma_extend_trans(s: ProgramState, t: ProgramState, u: ProgramState, ctx: Option<LimitCtx>, inner_ctx: Option<LimitCtx>)
    requires
        insns_extend(s, t),
        insns_extend(t, u),
        added_name_limit(s, t, inner_ctx),
        added_name_limit(t, u, ctx),
        inner_ctx is None || inner_ctx == ctx,
    ensures
        insns_extend(s, u),
        added_name_limit(s, u, ctx),
{
    assert(u.insns.take(s.insns.len() as int) =~= s.insns) by {
        assert(u.insns.take(t.insns.len() as int) =~= t.insns);
    }
    assert forall|k: int| s.insns.len() <= k < u.insns.len() implies names_limit(
        #[trigger] u.insns[k],
        ctx,
    ) by {
        if k < t.insns.len() {
            assert(u.insns[k] == t.insns.take(t.insns.len() as int)[k]);
            assert(names_limit(t.insns[k], inner_ctx));
        }
    }
}

/// The right-hand SELECT of a `UNION ALL` adds one SELECT, resolves the
/// label it creates, and names only the limit counter it is given.
proof fn lemma_union_all_rest_facts(
    t: ProgramState,
    right_most: SelectPlanView,
    limit: Option<isize>,
    limit_ctx: Option<LimitCtx>,
    reg_result_cols_start: Option<usize>,
)
    requires
        t.labels.len() + 1 <= usize::MAX,
    ensures
        ({
            let u = union_all_rest(t, right_most, limit, limit_ctx, reg_result_cols_start);
            &&& select_sources(u.insns) == select_sources(t.insns).push(source_of(right_most))
            &&& insns_extend(t, u)
            &&& labels_settled(t, u)
            &&& added_name_limit(t, u, limit_ctx)
            &&& added_select_start(t, u, reg_result_cols_start)
            &&& u.labels.len() == t.labels.len() + 1
        }),
{
    let u = union_all_rest(t, right_most, limit, limit_ctx, reg_result_cols_start);
    let label = next_label(t);
    let s2 = with_label(t);
    let s3 = match limit_ctx {
        Some(c) => emitted(
            s2,
            InsnView::IfNot { reg: c.reg_limit, target_pc: label, jump_if_null: true },
        ),
        None => s2,
    };
    let r = match limit_ctx {
        Some(_) => with_limit(right_most, limit),
        None => right_most,
    };
    let s4 = select_emitted(s3, r, limit_ctx, reg_result_cols_start);
    match limit_ctx {
        Some(c) => lemma_sources_push(
            t.insns,
            InsnView::IfNot { reg: c.reg_limit, target_pc: label, jump_if_null: true },
        ),
        None => {},
    }
    lemma_sources_push(s3.insns, InsnView::Select { plan: r, limit_ctx, reg_result_cols_start });
    assert(u == resolved(s4, label));
    assert(u.insns.take(t.insns.len() as int) =~= t.insns);
    let n = t.labels.len() as int;
    assert(u.labels =~= t.labels.push(None).update(n, Some(s4.insns.len() as usize)));
}

/// Setting up the deduplication index adds no SELECT and no label.
proof fn lemma_union_index_setup_facts(s: ProgramState, right_most: SelectPlanView)
    ensures
        ({
            let t = union_index_setup(s, right_most).2;
            &&& select_sources(t.insns) == select_sources(s.insns)
            &&& insns_extend(s, t)
            &&& labels_settled(s, t)
            &&& added_name_limit(s, t, None)
            &&& forall|start: Option<usize>| added_select_start(s, t, start)
            &&& t.labels == s.labels
        }),
{
    let t = union_index_setup(s, right_most).2;
    match right_most.query_destination {
        DestinationView::EphemeralIndex { .. } => {
            assert(s.insns.take(s.insns.len() as int) =~= s.insns);
        },
        _ => {
            let c = s.cursors.len() as usize;
            lemma_sources_push(s.insns, InsnView::OpenEphemeral { cursor_id: c, is_table: false });
            assert(t.insns.take(s.insns.len() as int) =~= s.insns);
        },
    }
}

/// The right-hand SELECT of a `UNION` adds one SELECT, resolves the labels
/// it creates, and names only the limit counter it is given.
#[verifier::rlimit(40)]
proof fn lemma_union_rest_facts(
    t: ProgramState,
    right_most: SelectPlanView,
    cursor: usize,
    index: IndexView,
    read_back: bool,
    limit_ctx: Option<LimitCtx>,
    yield_reg: Option<usize>,
    reg_result_cols_start: Option<usize>,
)
    requires
        t.labels.len() + 3 <= usize::MAX,
    ensures
        ({
            let u = union_rest(
                t,
                right_most,
                cursor,
                index,
                read_back,
                limit_ctx,
                yield_reg,
                reg_result_cols_start,
            );
            &&& select_sources(u.insns) == select_sources(t.insns).push(source_of(right_most))
            &&& insns_extend(t, u)
            &&& labels_settled(t, u)
            &&& added_name_limit(t, u, limit_ctx)
            &&& added_select_start(t, u, reg_result_cols_start)
            &&& u.labels.len() <= t.labels.len() + 3
        }),
{
    let u = union_rest(
        t,
        right_most,
        cursor,
        index,
        read_back,
        limit_ctx,
        yield_reg,
        reg_result_cols_start,
    );
    let dest = DestinationView::EphemeralIndex { cursor_id: cursor, index };
    let s4 = select_emitted(t, with_destination(right_most, dest), None, reg_result_cols_start);
    lemma_sources_push(
        t.insns,
        InsnView::Select {
            plan: with_destination(right_most, dest),
            limit_ctx: None,
            reg_result_cols_start,
        },
    );
    assert(s4.insns.take(t.insns.len() as int) =~= t.insns);
    if read_back {
        let label = next_label(s4);
        let s5 = with_label(s4);
        let ncols = index.columns.len();
        lemma_dedupe_read_facts(s5, cursor, ncols, limit_ctx, label, yield_reg);
        let s6 = dedupe_read(s5, cursor, ncols, limit_ctx, label, yield_reg);
        assert(u == resolved(s6, label));
        lemma_sources_extend_without_select(s5, s6);
        assert(u.insns.take(t.insns.len() as int) =~= t.insns) by {
            assert(u.insns.take(s5.insns.len() as int) =~= s5.insns);
        }
        let n = s4.labels.len() as int;
        assert forall|j: int| 0 <= j < t.labels.len() implies #[trigger] u.labels[j] == t.labels[j] by {
            assert(s6.labels[j] == s5.labels[j]);
        }
        assert forall|j: int| t.labels.len() <= j < u.labels.len() implies (
        #[trigger] u.labels[j] matches Some(o) && o <= u.insns.len()) by {
            if j > n {
                assert(u.labels[j] == s6.labels[j]);
            }
        }
        assert forall|k: int| t.insns.len() <= k < u.insns.len() implies names_limit(
            #[trigger] u.insns[k],
            limit_ctx,
        ) && select_start(u.insns[k], reg_result_cols_start) by {
            if k < s4.insns.len() {
                assert(u.insns[k] == s4.insns[k]);
            }
        }
    }
}

/// The laws of `compound_emission`, proved together.
proof fn lemma_compound_emission_facts(
    s: ProgramState,
    left: Seq<(SelectPlanView, CompoundOperator)>,
    right_most: SelectPlanView,
    limit: Option<isize>,
    limit_ctx: Option<LimitCtx>,
    yield_reg: Option<usize>,
    reg_result_cols_start: Option<usize>,
    index_experimental: bool,
)
    requires
        s.labels.len() + 3 * left.len() <= usize::MAX,
    ensures
        ({
            let e = compound_emission(
                s,
                left,
                right_most,
                limit,
                limit_ctx,
                yield_reg,
                reg_result_cols_start,
                index_experimental,
            );
            e.1 is Ok ==> {
                &&& select_sources(e.0.insns) == select_sources(s.insns) + left_sources(left)
                    + seq![source_of(right_most)]
                &&& insns_extend(s, e.0)
                &&& labels_settled(s, e.0)
                &&& added_name_limit(s, e.0, limit_ctx)
                &&& added_select_start(s, e.0, reg_result_cols_start)
                &&& e.0.labels.len() <= s.labels.len() + 3 * left.len()
            }
        }),
    decreases left.len(),
{
    if left.len() == 0 {
        let r = match limit_ctx {
            Some(_) => with_limit(right_most, limit),
            None => right_most,
        };
        let e0 = select_emitted(s, r, limit_ctx, reg_result_cols_start);
        lemma_sources_push(s.insns, InsnView::Select { plan: r, limit_ctx, reg_result_cols_start });
        assert(left_sources(left) =~= Seq::empty());
        assert(select_sources(e0.insns) =~= select_sources(s.insns) + left_sources(left) + seq![
            source_of(right_most),
        ]);
        assert(e0.insns.take(s.insns.len() as int) =~= s.insns);
    } else {
        let p = left.last().0;
        let op = left.last().1;
        let rest = left.drop_last();
        assert(left_sources(left) =~= left_sources(rest).push(source_of(p)));
        match op {
            CompoundOperator::UnionAll => {
                let p2 = union_all_left(p, right_most);
                lemma_compound_emission_facts(
                    s,
                    rest,
                    p2,
                    limit,
                    limit_ctx,
                    yield_reg,
                    reg_result_cols_start,
                    index_experimental,
                );
                let inner = compound_emission(
                    s,
                    rest,
                    p2,
                    limit,
                    limit_ctx,
                    yield_reg,
                    reg_result_cols_start,
                    index_experimental,
                );
                if inner.1 is Ok {
                    lemma_union_all_rest_facts(inner.0, right_most, limit, limit_ctx, reg_result_cols_start);
                    let u = union_all_rest(inner.0, right_most, limit, limit_ctx, reg_result_cols_start);
                    assert(source_of(p2) == source_of(p));
                    assert(select_sources(u.insns) =~= select_sources(s.insns) + left_sources(left) + seq![
                        source_of(right_most),
                    ]);
                    lemma_settled_trans(s, inner.0, u);
                    lemma_extend_trans(s, inner.0, u, limit_ctx, limit_ctx);
                    lemma_start_trans(s, inner.0, u, reg_result_cols_start);
                }
            },
            CompoundOperator::Union => {
                let existing = right_most.query_destination is EphemeralIndex;
                if existing || index_experimental {
                    let (cursor, index, s1) = union_index_setup(s, right_most);
                    let dest = DestinationView::EphemeralIndex { cursor_id: cursor, index };
                    lemma_union_index_setup_facts(s, right_most);
                    lemma_compound_emission_facts(
                        s1,
                        rest,
                        with_destination(p, dest),
                        limit,
                        None,
                        yield_reg,
                        reg_result_cols_start,
                        index_experimental,
                    );
                    let inner = compound_emission(
                        s1,
                        rest,
                        with_destination(p, dest),
                        limit,
                        None,
                        yield_reg,
                        reg_result_cols_start,
                        index_experimental,
                    );
                    if inner.1 is Ok {
                        lemma_union_rest_facts(
                            inner.0,
                            right_most,
                            cursor,
                            index,
                            !existing,
                            limit_ctx,
                            yield_reg,
                            reg_result_cols_start,
                        );
                        let u = union_rest(
                            inner.0,
                            right_most,
                            cursor,
                            index,
                            !existing,
                            limit_ctx,
                            yield_reg,
                            reg_result_cols_start,
                        );
                        assert(source_of(with_destination(p, dest)) == source_of(p));
                        assert(select_sources(u.insns) =~= select_sources(s.insns) + left_sources(left)
                            + seq![source_of(right_most)]);
                        lemma_settled_trans(s, s1, inner.0);
                        lemma_settled_trans(s, inner.0, u);
                        lemma_extend_trans(s, s1, inner.0, None, None);
                        lemma_extend_trans(s, inner.0, u, limit_ctx, None);
                        lemma_start_trans(s, s1, inner.0, reg_result_cols_start);
                        lemma_start_trans(s, inner.0, u, reg_result_cols_start);
                    }
                }
            },
            _ => {},
        }
    }
}

proof fn lemma_emission_outcome(
    s: ProgramState,
    left: Seq<(SelectPlanView, CompoundOperator)>,
    right_most: SelectPlanView,
    limit: Option<isize>,
    limit_ctx: Option<LimitCtx>,
    yield_reg: Option<usize>,
    reg_result_cols_start: Option<usize>,
    index_experimental: bool,
)
    ensures
        ({
            let e = compound_emission(
                s,
                left,
                right_most,
                limit,
                limit_ctx,
                yield_reg,
                reg_result_cols_start,
                index_experimental,
            );
            &&& (forall|k: int| 0 <= k < left.len() ==> (#[trigger] left[k]).1 is UnionAll) ==> e.1 is Ok
            &&& (index_experimental && forall|k: int|
                0 <= k < left.len() ==> (#[trigger] left[k]).1 is UnionAll || left[k].1 is Union) ==> e.1 is Ok
            &&& (exists|k: int|
                0 <= k < left.len() && ((#[trigger] left[k]).1 is Except || left[k].1 is Intersect)) ==> e.1 is Err
        }),
    decreases left.len(),
{
    if left.len() > 0 {
        let p = left.last().0;
        let op = left.last().1;
        let rest = left.drop_last();
        let n = left.len() - 1;
        assert forall|k: int| 0 <= k < rest.len() implies #[trigger] rest[k] == left[k] by {}
        let all_all = forall|k: int| 0 <= k < left.len() ==> (#[trigger] left[k]).1 is UnionAll;
        let all_unions = forall|k: int|
            0 <= k < left.len() ==> (#[trigger] left[k]).1 is UnionAll || left[k].1 is Union;
        let some_bad = exists|k: int|
            0 <= k < left.len() && ((#[trigger] left[k]).1 is Except || left[k].1 is Intersect);
        if all_all {
            assert(left[n].1 is UnionAll);
            assert(forall|k: int| 0 <= k < rest.len() ==> (#[trigger] rest[k]).1 is UnionAll);
        }
        if all_unions {
            assert(left[n].1 is UnionAll || left[n].1 is Union);
            assert(forall|k: int|
                0 <= k < rest.len() ==> (#[trigger] rest[k]).1 is UnionAll || rest[k].1 is Union);
        }
        if some_bad {
            let k = choose|k: int|
                0 <= k < left.len() && ((#[trigger] left[k]).1 is Except || left[k].1 is Intersect);
            if k < n {
                assert(rest[k] == left[k]);
                assert(exists|k: int|
                    0 <= k < rest.len() && ((#[trigger] rest[k]).1 is Except || rest[k].1 is Intersect));
            }
        }
        match op {
            CompoundOperator::UnionAll => {
                lemma_emission_outcome(
                    s,
                    rest,
                    union_all_left(p, right_most),
                    limit,
                    limit_ctx,
                    yield_reg,
                    reg_result_cols_start,
                    index_experimental,
                );
            },
            CompoundOperator::Union => {
                let (cursor, index, s1) = union_index_setup(s, right_most);
                let dest = DestinationView::EphemeralIndex { cursor_id: cursor, index };
                lemma_emission_outcome(
                    s1,
                    rest,
                    with_destination(p, dest),
                    limit,
                    None,
                    yield_reg,
                    reg_result_cols_start,
                    index_experimental,
                );
            },
            _ => {},
        }
    }
}

/// Which compound SELECTs can be emitted. A plan that is not a compound
/// SELECT is refused. Otherwise, unless it has `LIMIT 0`: with `UNION ALL`
/// operators only it is always emitted; with `UNION` and `UNION ALL` only,
/// it is emitted when indexes may be created; an `EXCEPT` or `INTERSECT`
/// anywhere makes it fail; when the last operator is `EXCEPT` or
/// `INTERSECT`, the failure names that operator; and when the last operator
/// is `UNION`, no index may be created and the right-most SELECT does not
/// already write into one, it fails for want of an index.
pub proof fn lemma_compound_outcome(s: ProgramState, plan: Plan, index_experimental: bool)
    ensures
        ({
            let e = compound_program(s, plan, index_experimental);
            match plan {
                Plan::CompoundSelect { left, right_most, limit, .. } => limit != Some(0isize) ==> {
                    &&& (forall|k: int| 0 <= k < left@.len() ==> (#[trigger] left@[k]).1 is UnionAll) ==> e.1 is Ok
                    &&& (index_experimental && forall|k: int|
                        0 <= k < left@.len() ==> (#[trigger] left@[k]).1 is UnionAll || left@[k].1 is Union)
                        ==> e.1 is Ok
                    &&& (exists|k: int|
                        0 <= k < left@.len() && ((#[trigger] left@[k]).1 is Except || left@[k].1 is Intersect))
                        ==> e.1 is Err
                    &&& (left@.len() > 0 && (left@.last().1 is Except || left@.last().1 is Intersect)) ==> e.1
                        == Err::<(), CompoundFailure>(CompoundFailure::UnsupportedOperator(left@.last().1))
                    &&& (left@.len() > 0 && left@.last().1 is Union && !index_experimental
                        && !(right_most@.query_destination is EphemeralIndex)) ==> e.1 == Err::<
                        (),
                        CompoundFailure,
                    >(CompoundFailure::UnionWithoutIndexes)
                },
                Plan::Select(_) => e.1 == Err::<(), CompoundFailure>(CompoundFailure::NotCompound),
            }
        }),
{
    match plan {
        Plan::CompoundSelect { left, right_most, limit, .. } => {
            if limit != Some(0isize) {
                let lv = left_views(left@);
                assert forall|k: int| 0 <= k < lv.len() implies #[trigger] lv[k].1 == left@[k].1 by {}
                if forall|k: int| 0 <= k < left@.len() ==> (#[trigger] left@[k]).1 is UnionAll {
                    assert(forall|k: int| 0 <= k < lv.len() ==> (#[trigger] lv[k]).1 is UnionAll);
                }
                if forall|k: int|
                    0 <= k < left@.len() ==> (#[trigger] left@[k]).1 is UnionAll || left@[k].1 is Union {
                    assert(forall|k: int|
                        0 <= k < lv.len() ==> (#[trigger] lv[k]).1 is UnionAll || lv[k].1 is Union);
                }
                if exists|k: int|
                    0 <= k < left@.len() && ((#[trigger] left@[k]).1 is Except || left@[k].1 is Intersect) {
                    let k = choose|k: int|
                        0 <= k < left@.len() && ((#[trigger] left@[k]).1 is Except || left@[k].1 is Intersect);
                    assert(lv[k].1 == left@[k].1);
                    assert(exists|k: int|
                        0 <= k < lv.len() && ((#[trigger] lv[k]).1 is Except || lv[k].1 is Intersect));
                }
                if left@.len() > 0 {
                    assert(lv.last().1 == left@.last().1);
                    assert(lv.last().0 == left@.last().0@);
                }
                let reg = s.next_free_register;
                let s1 = match limit {
                    Some(l) => emitted(
                        with_registers(s, 1),
                        InsnView::Integer { value: l as i64, dest: reg as usize },
                    ),
                    None => s,
                };
                let limit_ctx = match limit {
                    Some(_) => Some(LimitCtx { reg_limit: reg as usize, initialize_counter: false }),
                    None => None,
                };
                let (s2, yield_reg, start) = match right_most@.query_destination {
                    DestinationView::CoroutineYield { yield_reg, .. } => (
                        with_registers(s1, right_most@.result_columns.len() as int),
                        Some(yield_reg),
                        Some(s1.next_free_register as usize),
                    ),
                    _ => (s1, None, None),
                };
                lemma_emission_outcome(
                    s2,
                    lv,
                    right_most@,
                    limit,
                    limit_ctx,
                    yield_reg,
                    start,
                    index_experimental,
                );
            }
        },
        _ => {},
    }
}

/// The labels that the emission of `plan` may create can be numbered by a
/// `usize` (three per compound operator at most).
pub open spec fn labels_fit(s: ProgramState, plan: Plan) -> bool {
    match plan {
        Plan::CompoundSelect { left, .. } => s.labels.len() + 3 * left@.len() <= usize::MAX,
        _ => true,
    }
}

/// Every SELECT of a compound SELECT is emitted exactly once, in the order
/// in which the statement lists them, the right-most last.
pub proof fn lemma_each_select_emitted_once_in_order(
    s: ProgramState,
    plan: Plan,
    index_experimental: bool,
)
    requires
        labels_fit(s, plan),
    ensures
        ({
            let e = compound_program(s, plan, index_experimental);
            e.1 is Ok ==> match plan {
                Plan::CompoundSelect { left, right_most, limit, .. } => if limit == Some(0isize) {
                    select_sources(e.0.insns) == select_sources(s.insns)
                } else {
                    select_sources(e.0.insns) == select_sources(s.insns) + left_sources(
                        left_views(left@),
                    ) + seq![source_of(right_most@)]
                },
                _ => false,
            }
        }),
{
    lemma_compound_program_facts(s, plan, index_experimental);
}

/// With `LIMIT 0` nothing is emitted but the epilogue: no SELECT runs.
pub proof fn lemma_limit_zero_emits_nothing(s: ProgramState, plan: Plan, index_experimental: bool)
    requires
        plan matches Plan::CompoundSelect { limit, .. } && limit == Some(0isize),
    ensures
        compound_program(s, plan, index_experimental) == (
            after_epilogue(s, TransactionMode::Read),
            Ok::<(), crate::compound_select::CompoundFailure>(()),
            true,
        ),
        select_sources(compound_program(s, plan, index_experimental).0.insns) == select_sources(
            s.insns,
        ),
{
    lemma_epilogue_facts(s);
}

/// Every jump label that the emission of a compound SELECT creates is
/// resolved, to an offset within the program; labels that existed before
/// are left alone.
pub proof fn lemma_labels_resolved(s: ProgramState, plan: Plan, index_experimental: bool)
    requires
        labels_fit(s, plan),
    ensures
        ({
            let e = compound_program(s, plan, index_experimental);
            e.1 is Ok ==> labels_settled(s, e.0) && insns_extend(s, e.0)
        }),
{
    lemma_compound_program_facts(s, plan, index_experimental);
}

/// The LIMIT of a compound SELECT applies to the whole statement: it is
/// loaded into one register, the first the emission allocates, and every
/// SELECT that counts down a limit and every limit check names that register.
pub proof fn lemma_limit_counter_shared(s: ProgramState, plan: Plan, index_experimental: bool)
    requires
        labels_fit(s, plan),
    ensures
        ({
            let e = compound_program(s, plan, index_experimental);
            e.1 is Ok ==> match plan {
                Plan::CompoundSelect { limit, .. } => match limit {
                    Some(l) => l != 0 ==> {
                        let ctx = Some(
                            LimitCtx { reg_limit: s.next_free_register as usize, initialize_counter: false },
                        );
                        &&& e.0.insns[s.insns.len() as int] == InsnView::Integer {
                            value: l as i64,
                            dest: s.next_free_register as usize,
                        }
                        &&& added_name_limit(s, e.0, ctx)
                    },
                    None => added_name_limit(s, e.0, None),
                },
                _ => false,
            }
        }),
{
    lemma_compound_program_facts(s, plan, index_experimental);
}

/// The registers that the rows of a compound SELECT go to, as its emission
/// allocates them: when the right-most SELECT yields to a coroutine, the
/// block allocated right after the LIMIT counter (if any), else none.
pub open spec fn result_registers(s: ProgramState, right_most: SelectPlanView, limit: Option<isize>) -> Option<usize> {
    match right_most.query_destination {
        DestinationView::CoroutineYield { .. } => Some(
            (s.next_free_register + if limit is Some { 1int } else { 0int }) as usize,
        ),
        _ => None,
    }
}

/// When a compound SELECT yields its rows to a coroutine, every SELECT of
/// it, on either side of every `UNION ALL` and `UNION`, puts its result
/// columns into the same block of registers: the one allocated before the
/// SELECTs, right after the LIMIT counter (first free register, or the one
/// after it when there is a LIMIT). Otherwise no SELECT is given shared
/// registers.
pub proof fn lemma_result_registers_shared(s: ProgramState, plan: Plan, index_experimental: bool)
    requires
        labels_fit(s, plan),
    ensures
        ({
            let e = compound_program(s, plan, index_experimental);
            e.1 is Ok ==> match plan {
                Plan::CompoundSelect { right_most, limit, .. } => limit != Some(0isize) ==> {
                    &&& forall|k: int|
                        s.insns.len() <= k < e.0.insns.len() && (#[trigger] e.0.insns[k]) is Select
                            ==> e.0.insns[k]->reg_result_cols_start == match right_most@.query_destination {
                            DestinationView::CoroutineYield { .. } => Some(
                                (s.next_free_register + if limit is Some { 1int } else { 0int }) as usize,
                            ),
                            _ => None::<usize>,
                        }
                    &&& e.0.insns.len() > s.insns.len()
                },
                _ => false,
            }
        }),
{
    lemma_compound_program_facts(s, plan, index_experimental);
    let e = compound_program(s, plan, index_experimental);
    if e.1 is Ok {
        match plan {
            Plan::CompoundSelect { right_most, limit, .. } => {
                if limit != Some(0isize) {
                    let start = result_registers(s, right_most@, limit);
                    assert forall|k: int|
                        s.insns.len() <= k < e.0.insns.len() && (#[trigger] e.0.insns[k]) is Select
                        implies e.0.insns[k]->reg_result_cols_start == start by {
                        assert(select_start(e.0.insns[k], start));
                    }
                    assert(select_sources(e.0.insns).len() > select_sources(s.insns).len());
                    lemma_sources_len(s.insns);
                    lemma_sources_len(e.0.insns);
                    assert(e.0.insns.take(s.insns.len() as int) == s.insns);
                    if e.0.insns.len() == s.insns.len() {
                        assert(e.0.insns =~= s.insns);
                    }
                }
            },
            _ => {},
        }
    }
}

proof fn lemma_sources_len(a: Seq<InsnView>)
    ensures
        select_sources(a).len() <= a.len(),
    decreases a.len(),
{
    if a.len() > 0 {
        lemma_sources_len(a.drop_last());
    }
}

proof fn lemma_epilogue_facts(s: ProgramState)
    ensures
        insns_extend(s, after_epilogue(s, TransactionMode::Read)),
        labels_settled(s, after_epilogue(s, TransactionMode::Read)),
        select_sources(after_epilogue(s, TransactionMode::Read).insns) == select_sources(s.insns),
        forall|ctx: Option<LimitCtx>| added_name_limit(s, after_epilogue(s, TransactionMode::Read), ctx),
        forall|start: Option<usize>| added_select_start(s, after_epilogue(s, TransactionMode::Read), start),
{
    let t = after_epilogue(s, TransactionMode::Read);
    assert(t.insns.take(s.insns.len() as int) =~= s.insns);
    lemma_sources_extend_without_select(s, t);
}

proof fn lemma_compound_program_facts(s: ProgramState, plan: Plan, index_experimental: bool)
    requires
        labels_fit(s, plan),
    ensures
        ({
            let e = compound_program(s, plan, index_experimental);
            e.1 is Ok ==> {
                &&& labels_settled(s, e.0)
                &&& insns_extend(s, e.0)
                &&& match plan {
                    Plan::CompoundSelect { left, right_most, limit, .. } => if limit == Some(0isize) {
                        select_sources(e.0.insns) == select_sources(s.insns)
                    } else {
                        &&& select_sources(e.0.insns) == select_sources(s.insns) + left_sources(
                            left_views(left@),
                        ) + seq![source_of(right_most@)]
                        &&& added_select_start(s, e.0, result_registers(s, right_most@, limit))
                        &&& match limit {
                            Some(l) => {
                                let ctx = Some(
                                    LimitCtx {
                                        reg_limit: s.next_free_register as usize,
                                        initialize_counter: false,
                                    },
                                );
                                &&& e.0.insns[s.insns.len() as int] == InsnView::Integer {
                                    value: l as i64,
                                    dest: s.next_free_register as usize,
                                }
                                &&& added_name_limit(s, e.0, ctx)
                            },
                            None => added_name_limit(s, e.0, None),
                        }
                    },
                    _ => false,
                }
            }
        }),
{
    match plan {
        Plan::CompoundSelect { left, right_most, limit, .. } => {
            if limit == Some(0isize) {
                lemma_epilogue_facts(s);
            } else {
                let reg = s.next_free_register;
                let s1 = match limit {
                    Some(l) => emitted(
                        with_registers(s, 1),
                        InsnView::Integer { value: l as i64, dest: reg as usize },
                    ),
                    None => s,
                };
                let limit_ctx = match limit {
                    Some(_) => Some(LimitCtx { reg_limit: reg as usize, initialize_counter: false }),
                    None => None,
                };
                let (s2, yield_reg, start) = match right_most@.query_destination {
                    DestinationView::CoroutineYield { yield_reg, .. } => (
                        with_registers(s1, right_most@.result_columns.len() as int),
                        Some(yield_reg),
                        Some(s1.next_free_register as usize),
                    ),
                    _ => (s1, None, None),
                };
                assert(s2.insns.take(s.insns.len() as int) =~= s.insns);
                assert(insns_extend(s, s2) && labels_settled(s, s2) && added_name_limit(s, s2, None));
                assert(added_select_start(s, s2, start));
                assert(start == result_registers(s, right_most@, limit));
                lemma_sources_extend_without_select(s, s2);
                lemma_compound_emission_facts(
                    s2,
                    left_views(left@),
                    right_most@,
                    limit,
                    limit_ctx,
                    yield_reg,
                    start,
                    index_experimental,
                );
                let inner = compound_emission(
                    s2,
                    left_views(left@),
                    right_most@,
                    limit,
                    limit_ctx,
                    yield_reg,
                    start,
                    index_experimental,
                );
                if inner.1 is Ok {
                    let e0 = after_epilogue(inner.0, TransactionMode::Read);
                    lemma_epilogue_facts(inner.0);
                    lemma_settled_trans(s, s2, inner.0);
                    lemma_settled_trans(s, inner.0, e0);
                    lemma_extend_trans(s, s2, inner.0, limit_ctx, None);
                    lemma_extend_trans(s, inner.0, e0, limit_ctx, limit_ctx);
                    lemma_start_trans(s, s2, inner.0, start);
                    lemma_start_trans(s, inner.0, e0, start);
                    match limit {
                        Some(l) => {
                            assert(e0.insns[s.insns.len() as int] == e0.insns.take(
                                inner.0.insns.len() as int,
                            )[s.insns.len() as int]);
                            assert(inner.0.insns[s.insns.len() as int] == inner.0.insns.take(
                                s2.insns.len() as int,
                            )[s.insns.len() as int]);
                        },
                        None => {},
                    }
                }
            }
        },
        _ => {},
    }
}

} // verus!
