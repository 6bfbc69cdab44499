//! Bytecode emission for compound SELECT statements (`UNION`, `UNION ALL`).
use crate::ast::{CompoundOperator, SortOrder};
use crate::builder::{
    after_epilogue, emitted, next_label, resolved, with_cursor, with_label, with_registers,
    BranchOffset, CursorType, CursorTypeView, Insn, InsnView, LimitCtx, ProgramBuilder,
    ProgramState, TransactionMode,
};
use crate::error::LimboError;
use crate::plan::{
    left_views, DestinationView, Plan, QueryDestination, ResultSetColumn, SelectPlan,
    SelectPlanView, TableReference,
};
use crate::schema::{Index, IndexColumn, IndexColumnView, IndexView};
use vstd::prelude::*;

verus! {

/// Why the emission of a compound SELECT fails.
pub enum CompoundFailure {
    /// The plan is not a compound SELECT.
    NotCompound,
    /// A UNION needs an index to deduplicate on, and none may be created.
    UnionWithoutIndexes,
    /// The operator is neither UNION nor UNION ALL.
    UnsupportedOperator(CompoundOperator),
}

/// The message that comes with each failure.
pub open spec fn failure_message(f: CompoundFailure) -> Seq<char> {
    match f {
        CompoundFailure::NotCompound => "expected compound select plan"@,
        CompoundFailure::UnionWithoutIndexes => "UNION not supported without indexes"@,
        CompoundFailure::UnsupportedOperator(CompoundOperator::Except) =>
            "unimplemented compound select operator: Except"@,
        CompoundFailure::UnsupportedOperator(CompoundOperator::Intersect) =>
            "unimplemented compound select operator: Intersect"@,
        CompoundFailure::UnsupportedOperator(CompoundOperator::Union) =>
            "unimplemented compound select operator: Union"@,
        CompoundFailure::UnsupportedOperator(CompoundOperator::UnionAll) =>
            "unimplemented compound select operator: UnionAll"@,
    }
}

/// `e` is the error that reports failure `f`.
pub open spec fn reports(e: LimboError, f: CompoundFailure) -> bool {
    match e {
        LimboError::ParseError(m) => m@ == failure_message(f),
    }
}

/// The program once one simple SELECT has been handed to the query emitter.
pub open spec fn select_emitted(
    s: ProgramState,
    plan: SelectPlanView,
    limit_ctx: Option<LimitCtx>,
    reg_result_cols_start: Option<usize>,
) -> ProgramState {
    emitted(s, InsnView::Select { plan, limit_ctx, reg_result_cols_start })
}

/// `p` with its destination replaced.
pub open spec fn with_destination(p: SelectPlanView, d: DestinationView) -> SelectPlanView {
    SelectPlanView { query_destination: d, ..p }
}

/// `p` with its limit replaced.
pub open spec fn with_limit(p: SelectPlanView, limit: Option<isize>) -> SelectPlanView {
    SelectPlanView { limit, ..p }
}

/// The ephemeral index that deduplicates the rows of a UNION: one ascending
/// column per result column of `first` (named after it, or unnamed), unique,
/// without rowid. No column is given a collating sequence: the collations
/// of the SELECT's columns are not carried over to the index (yet).
pub open spec fn union_dedupe_index(first: SelectPlanView) -> IndexView {
    IndexView {
        name: "union_dedupe"@,
        table_name: Seq::empty(),
        root_page: 0,
        columns: first.result_columns.map_values(
            |c: Option<Seq<char>>|
                IndexColumnView {
                    name: match c {
                        Some(n) => n,
                        None => Seq::empty(),
                    },
                    order: SortOrder::Asc,
                    pos_in_table: 0,
                    collation: None,
                },
        ),
        unique: true,
        ephemeral: true,
        has_rowid: false,
    }
}

/// The `ncols` column reads of the deduplication loop, into the registers
/// from `base` on.
pub open spec fn column_reads(cursor: usize, ncols: nat, base: int) -> Seq<InsnView> {
    Seq::new(
        ncols,
        |k: int| InsnView::Column { cursor_id: cursor, column: k as usize, dest: (base + k) as usize },
    )
}

/// The program once the loop that reads the deduplicated rows out of the
/// index on `cursor` has been emitted: rewind, read every column, hand the
/// row on (to the coroutine, or as a result row), count the limit down (to
/// `label_limit_reached` when it runs out), go to the next entry, close.
pub open spec fn dedupe_read(
    s: ProgramState,
    cursor: usize,
    ncols: nat,
    limit_ctx: Option<LimitCtx>,
    label_limit_reached: BranchOffset,
    yield_reg: Option<usize>,
) -> ProgramState {
    let label_next = next_label(s);
    let s1 = with_label(s);
    let label_loop_start = next_label(s1);
    let s2 = with_label(s1);
    let cols_start = s2.next_free_register;
    let s3 = with_registers(s2, ncols as int);
    let s4 = emitted(s3, InsnView::Rewind { cursor_id: cursor, pc_if_empty: label_next });
    let s5 = resolved(s4, label_loop_start);
    let base = match yield_reg {
        Some(y) => y + 1,
        None => cols_start,
    };
    let s6 = ProgramState { insns: s5.insns + column_reads(cursor, ncols, base), ..s5 };
    let s7 = match yield_reg {
        Some(y) => emitted(
            s6,
            InsnView::Yield { yield_reg: y, end_offset: BranchOffset::Offset(0) },
        ),
        None => emitted(
            s6,
            InsnView::ResultRow { start_reg: cols_start as usize, count: ncols as usize },
        ),
    };
    let s8 = match limit_ctx {
        Some(c) => emitted(
            s7,
            InsnView::DecrJumpZero { reg: c.reg_limit, target_pc: label_limit_reached },
        ),
        None => s7,
    };
    let s9 = resolved(s8, label_next);
    let s10 = emitted(s9, InsnView::Next { cursor_id: cursor, pc_if_next: label_loop_start });
    emitted(s10, InsnView::Close { cursor_id: cursor })
}

/// The register numbers that the deduplication loop computes fit in a `usize`.
pub open spec fn dedupe_read_fits(s: ProgramState, ncols: nat, yield_reg: Option<usize>) -> bool {
    &&& s.next_free_register + ncols <= usize::MAX
    &&& match yield_reg {
        Some(y) => ncols > 0 ==> y + ncols <= usize::MAX,
        None => true,
    }
}

/// Under `UNION ALL`, the SELECT left of the operator: it shares the
/// destination of the right-hand side when that is an ephemeral index.
pub open spec fn union_all_left(p: SelectPlanView, right_most: SelectPlanView) -> SelectPlanView {
    match right_most.query_destination {
        DestinationView::EphemeralIndex { .. } => with_destination(p, right_most.query_destination),
        _ => p,
    }
}

/// The right-hand SELECT of a `UNION ALL`, once everything on its left is
/// emitted into `t`: with a limit, it is skipped once the counter has run out.
pub open spec fn union_all_rest(
    t: ProgramState,
    right_most: SelectPlanView,
    limit: Option<isize>,
    limit_ctx: Option<LimitCtx>,
    reg_result_cols_start: Option<usize>,
) -> ProgramState {
    let label = next_label(t);
    let s2 = with_label(t);
    let s3 = match limit_ctx {
        Some(c) => emitted(
            s2,
            InsnView::IfNot { reg: c.reg_limit, target_pc: label, jump_if_null: true },
        ),
        None => s2,
    };
    let r = match limit_ctx {
        Some(_) => with_limit(right_most, limit),
        None => right_most,
    };
    resolved(select_emitted(s3, r, limit_ctx, reg_result_cols_start), label)
}

/// Under `UNION`, the cursor and index to deduplicate on, and the program
/// once they are there: those of the right-hand side's destination when it
/// is an ephemeral index, else a new index, opened on a new cursor.
pub open spec fn union_index_setup(s: ProgramState, right_most: SelectPlanView) -> (
    usize,
    IndexView,
    ProgramState,
) {
    match right_most.query_destination {
        DestinationView::EphemeralIndex { cursor_id, index } => (cursor_id, index, s),
        _ => {
            let idx = union_dedupe_index(right_most);
            let c = s.cursors.len() as usize;
            (
                c,
                idx,
                emitted(
                    with_cursor(s, CursorTypeView::BTreeIndex(idx)),
                    InsnView::OpenEphemeral { cursor_id: c, is_table: false },
                ),
            )
        },
    }
}

/// The right-hand SELECT of a `UNION`, once everything on its left is
/// emitted into `t`: it writes into the deduplication index too, and, when
/// that index was created here (`read_back`), the deduplicated rows are
/// then read out of it.
pub open spec fn union_rest(
    t: ProgramState,
    right_most: SelectPlanView,
    cursor: usize,
    index: IndexView,
    read_back: bool,
    limit_ctx: Option<LimitCtx>,
    yield_reg: Option<usize>,
    reg_result_cols_start: Option<usize>,
) -> ProgramState {
    let dest = DestinationView::EphemeralIndex { cursor_id: cursor, index };
    let s4 = select_emitted(t, with_destination(right_most, dest), None, reg_result_cols_start);
    if read_back {
        let label = next_label(s4);
        let s5 = with_label(s4);
        resolved(dedupe_read(s5, cursor, index.columns.len(), limit_ctx, label, yield_reg), label)
    } else {
        s4
    }
}

/// The emission of `left[0] op ... left[n-1] op right_most`: the program it
/// leaves, whether it succeeds, and whether the register numbers it computes
/// fit in a `usize`.
///
/// The right-most SELECT is emitted last, after everything on its left.
/// Under `UNION ALL` the SELECTs on the left keep their destination, except
/// that they share an ephemeral-index destination of the right-most one; when
/// there is a limit, the right-most SELECT is skipped once the limit counter
/// is exhausted. Under `UNION` every SELECT writes into one deduplication
/// index: that of the right-most SELECT's destination if it is one, else a
/// new one (when indexes may be created), which is then read back out to the
/// original destination, counting down the limit; the SELECTs on the left do
/// not count down the limit.
pub open spec fn compound_emission(
    s: ProgramState,
    left: Seq<(SelectPlanView, CompoundOperator)>,
    right_most: SelectPlanView,
    limit: Option<isize>,
    limit_ctx: Option<LimitCtx>,
    yield_reg: Option<usize>,
    reg_result_cols_start: Option<usize>,
    index_experimental: bool,
) -> (ProgramState, Result<(), CompoundFailure>, bool)
    decreases left.len(),
{
    if left.len() == 0 {
        let r = match limit_ctx {
            Some(_) => with_limit(right_most, limit),
            None => right_most,
        };
        (select_emitted(s, r, limit_ctx, reg_result_cols_start), Ok(()), true)
    } else {
        let p = left.last().0;
        let op = left.last().1;
        let rest = left.drop_last();
        match op {
            CompoundOperator::UnionAll => {
                let inner = compound_emission(
                    s,
                    rest,
                    union_all_left(p, right_most),
                    limit,
                    limit_ctx,
                    yield_reg,
                    reg_result_cols_start,
                    index_experimental,
                );
                if inner.1 is Err {
                    inner
                } else {
                    (
                        union_all_rest(inner.0, right_most, limit, limit_ctx, reg_result_cols_start),
                        Ok(()),
                        inner.2,
                    )
                }
            },
            CompoundOperator::Union => {
                let existing = right_most.query_destination is EphemeralIndex;
                if !existing && !index_experimental {
                    (s, Err(CompoundFailure::UnionWithoutIndexes), true)
                } else {
                    let (cursor, index, s1) = union_index_setup(s, right_most);
                    let dest = DestinationView::EphemeralIndex { cursor_id: cursor, index };
                    let inner = compound_emission(
                        s1,
                        rest,
                        with_destination(p, dest),
                        limit,
                        None,
                        yield_reg,
                        reg_result_cols_start,
                        index_experimental,
                    );
                    if inner.1 is Err {
                        inner
                    } else {
                        (
                            union_rest(
                                inner.0,
                                right_most,
                                cursor,
                                index,
                                !existing,
                                limit_ctx,
                                yield_reg,
                                reg_result_cols_start,
                            ),
                            Ok(()),
                            inner.2 && (existing || dedupe_read_fits(
                                inner.0,
                                index.columns.len(),
                                yield_reg,
                            )),
                        )
                    }
                }
            },
            _ => (s, Err(CompoundFailure::UnsupportedOperator(op)), true),
        }
    }
}

/// The emission of a whole compound SELECT plan: the program it leaves,
/// whether it succeeds, and whether the register numbers it computes fit in
/// a `usize`. With `LIMIT 0` nothing but the epilogue is emitted. Otherwise
/// the limit goes into a fresh register first; rows headed for a coroutine
/// get fresh result registers; the SELECTs follow; the epilogue closes the
/// program.
pub open spec fn compound_program(s: ProgramState, plan: Plan, index_experimental: bool) -> (
    ProgramState,
    Result<(), CompoundFailure>,
    bool,
) {
    match plan {
        Plan::CompoundSelect { left, right_most, limit, .. } => {
            if limit == Some(0isize) {
                (after_epilogue(s, TransactionMode::Read), Ok(()), true)
            } else {
                let reg = s.next_free_register;
                let s1 = match limit {
                    Some(l) => emitted(
                        with_registers(s, 1),
                        InsnView::Integer { value: l as i64, dest: reg as usize },
                    ),
                    None => s,
                };
                let limit_ctx = match limit {
                    Some(_) => Some(LimitCtx { reg_limit: reg as usize, initialize_counter: false }),
                    None => None,
                };
                let (s2, yield_reg, start) = match right_most@.query_destination {
                    DestinationView::CoroutineYield { yield_reg, .. } => (
                        with_registers(s1, right_most@.result_columns.len() as int),
                        Some(yield_reg),
                        Some(s1.next_free_register as usize),
                    ),
                    _ => (s1, None, None),
                };
                let inner = compound_emission(
                    s2,
                    left_views(left@),
                    right_most@,
                    limit,
                    limit_ctx,
                    yield_reg,
                    start,
                    index_experimental,
                );
                if inner.1 is Err {
                    inner
                } else {
                    (after_epilogue(inner.0, TransactionMode::Read), Ok(()), inner.2)
                }
            }
        },
        _ => (s, Err(CompoundFailure::NotCompound), true),
    }
}

/// The emission of a compound SELECT only ever allocates registers.
proof fn lemma_compound_emission_grows(
    s: ProgramState,
    left: Seq<(SelectPlanView, CompoundOperator)>,
    right_most: SelectPlanView,
    limit: Option<isize>,
    limit_ctx: Option<LimitCtx>,
    yield_reg: Option<usize>,
    reg_result_cols_start: Option<usize>,
    index_experimental: bool,
)
    ensures
        compound_emission(
            s,
            left,
            right_most,
            limit,
            limit_ctx,
            yield_reg,
            reg_result_cols_start,
            index_experimental,
        ).0.next_free_register >= s.next_free_register,
    decreases left.len(),
{
    if left.len() > 0 {
        let p = left.last().0;
        let rest = left.drop_last();
        match left.last().1 {
            CompoundOperator::UnionAll => {
                lemma_compound_emission_grows(
                    s,
                    rest,
                    union_all_left(p, right_most),
                    limit,
                    limit_ctx,
                    yield_reg,
                    reg_result_cols_start,
                    index_experimental,
                );
            },
            CompoundOperator::Union => {
                let (cursor, index, s1) = union_index_setup(s, right_most);
                let dest = DestinationView::EphemeralIndex { cursor_id: cursor, index };
                lemma_compound_emission_grows(
                    s1,
                    rest,
                    with_destination(p, dest),
                    limit,
                    None,
                    yield_reg,
                    reg_result_cols_start,
                    index_experimental,
                );
            },
            _ => {},
        }
    }
}

/// The emission of a whole compound SELECT allocates the limit register and
/// the coroutine's result registers before anything else.
proof fn lemma_compound_program_grows(s: ProgramState, plan: Plan, index_experimental: bool)
    ensures
        match plan {
            Plan::CompoundSelect { left, right_most, limit, .. } => limit != Some(0isize) ==> {
                let e = compound_program(s, plan, index_experimental);
                let reg_limit: int = if limit is Some { 1 } else { 0 };
                let reg_yield: int = if right_most@.query_destination is CoroutineYield {
                    right_most@.result_columns.len() as int
                } else {
                    0
                };
                e.0.next_free_register >= s.next_free_register + reg_limit + reg_yield
            },
            _ => true,
        },
{
    match plan {
        Plan::CompoundSelect { left, right_most, limit, .. } => {
            if limit != Some(0isize) {
                let reg = s.next_free_register;
                let s1 = match limit {
                    Some(l) => emitted(
                        with_registers(s, 1),
                        InsnView::Integer { value: l as i64, dest: reg as usize },
                    ),
                    None => s,
                };
                let limit_ctx = match limit {
                    Some(_) => Some(LimitCtx { reg_limit: reg as usize, initialize_counter: false }),
                    None => None,
                };
                let (s2, yield_reg, start) = match right_most@.query_destination {
                    DestinationView::CoroutineYield { yield_reg, .. } => (
                        with_registers(s1, right_most@.result_columns.len() as int),
                        Some(yield_reg),
                        Some(s1.next_free_register as usize),
                    ),
                    _ => (s1, None, None),
                };
                lemma_compound_emission_grows(
                    s2,
                    left_views(left@),
                    right_most@,
                    limit,
                    limit_ctx,
                    yield_reg,
                    start,
                    index_experimental,
                );
            }
        },
        _ => {},
    }
}

/// The number of result columns of the SELECTs in `left`.
pub open spec fn left_columns(left: Seq<(SelectPlanView, CompoundOperator)>) -> nat
    decreases left.len(),
{
    if left.len() == 0 {
        0
    } else {
        left_columns(left.drop_last()) + left.last().0.result_columns.len()
    }
}

/// The emission of `left op ... right_most` allocates at most one register
/// per result column of its SELECTs, and computes no register number past
/// `usize::MAX` when those registers, and the coroutine's, fit.
proof fn lemma_compound_emission_bounded(
    s: ProgramState,
    left: Seq<(SelectPlanView, CompoundOperator)>,
    right_most: SelectPlanView,
    limit: Option<isize>,
    limit_ctx: Option<LimitCtx>,
    yield_reg: Option<usize>,
    reg_result_cols_start: Option<usize>,
    index_experimental: bool,
)
    requires
        s.next_free_register + left_columns(left) + right_most.result_columns.len() <= usize::MAX,
        yield_reg matches Some(y) ==> y + left_columns(left) + right_most.result_columns.len()
            <= usize::MAX,
    ensures
        ({
            let e = compound_emission(
                s,
                left,
                right_most,
                limit,
                limit_ctx,
                yield_reg,
                reg_result_cols_start,
                index_experimental,
            );
            &&& e.0.next_free_register <= s.next_free_register + left_columns(left)
                + right_most.result_columns.len()
            &&& e.2
        }),
    decreases left.len(),
{
    if left.len() > 0 {
        let p = left.last().0;
        let rest = left.drop_last();
        match left.last().1 {
            CompoundOperator::UnionAll => {
                lemma_compound_emission_bounded(
                    s,
                    rest,
                    union_all_left(p, right_most),
                    limit,
                    limit_ctx,
                    yield_reg,
                    reg_result_cols_start,
                    index_experimental,
                );
            },
            CompoundOperator::Union => {
                let (cursor, index, s1) = union_index_setup(s, right_most);
                let dest = DestinationView::EphemeralIndex { cursor_id: cursor, index };
                lemma_compound_emission_bounded(
                    s1,
                    rest,
                    with_destination(p, dest),
                    limit,
                    None,
                    yield_reg,
                    reg_result_cols_start,
                    index_experimental,
                );
                if !(right_most.query_destination is EphemeralIndex) {
                    assert(index.columns.len() == right_most.result_columns.len());
                }
            },
            _ => {},
        }
    }
}

/// What the registers of a compound SELECT's emission need to fit in a
/// `usize`: room for the limit counter, the coroutine's result registers
/// and one register per result column of every SELECT, and room after the
/// coroutine's yield register for as many columns.
pub open spec fn registers_fit(s: ProgramState, plan: Plan) -> bool {
    match plan {
        Plan::CompoundSelect { left, right_most, .. } => {
            let cols = left_columns(left_views(left@)) + right_most@.result_columns.len();
            &&& s.next_free_register + 1 + right_most@.result_columns.len() + cols <= usize::MAX
            &&& match right_most@.query_destination {
                DestinationView::CoroutineYield { yield_reg, .. } => yield_reg + cols <= usize::MAX,
                _ => true,
            }
        },
        _ => s.next_free_register <= usize::MAX,
    }
}

/// When the registers fit (`registers_fit`), `emit_program_for_compound_select`
/// may be called.
pub proof fn lemma_registers_fit(s: ProgramState, plan: Plan, index_experimental: bool)
    requires
        registers_fit(s, plan),
    ensures
        ({
            let e = compound_program(s, plan, index_experimental);
            e.0.next_free_register <= usize::MAX && e.2
        }),
{
    match plan {
        Plan::CompoundSelect { left, right_most, limit, .. } => {
            if limit != Some(0isize) {
                let reg = s.next_free_register;
                let s1 = match limit {
                    Some(l) => emitted(
                        with_registers(s, 1),
                        InsnView::Integer { value: l as i64, dest: reg as usize },
                    ),
                    None => s,
                };
                let limit_ctx = match limit {
                    Some(_) => Some(LimitCtx { reg_limit: reg as usize, initialize_counter: false }),
                    None => None,
                };
                let (s2, yield_reg, start) = match right_most@.query_destination {
                    DestinationView::CoroutineYield { yield_reg, .. } => (
                        with_registers(s1, right_most@.result_columns.len() as int),
                        Some(yield_reg),
                        Some(s1.next_free_register as usize),
                    ),
                    _ => (s1, None, None),
                };
                lemma_compound_emission_bounded(
                    s2,
                    left_views(left@),
                    right_most@,
                    limit,
                    limit_ctx,
                    yield_reg,
                    start,
                    index_experimental,
                );
            }
        },
        _ => {},
    }
}

/// Whether rows go into an ephemeral index.
fn is_ephemeral_index(d: &QueryDestination) -> (r: bool)
    ensures
        r == (d@ is EphemeralIndex),
{
    match d {
        QueryDestination::EphemeralIndex { .. } => true,
        _ => false,
    }
}

/// Hands one simple SELECT to the query emitter, with the limit counter it
/// shares and the registers its result columns go to.
fn emit_query(
    program: &mut ProgramBuilder,
    plan: SelectPlan,
    limit_ctx: Option<LimitCtx>,
    reg_result_cols_start: Option<usize>,
)
    ensures
        final(program).state() == select_emitted(
            old(program).state(),
            plan@,
            limit_ctx,
            reg_result_cols_start,
        ),
        final(program).result_columns == old(program).result_columns,
        final(program).table_references == old(program).table_references,
        final(program).index_experimental == old(program).index_experimental,
{
    program.emit_insn(Insn::Select { plan, limit_ctx, reg_result_cols_start });
}

/// Creates the ephemeral index that deduplicates the results of the
/// SELECTs that come before the last UNION, opens it on a new cursor, and
/// returns the cursor and the index.
fn create_union_dedupe_index(
    program: &mut ProgramBuilder,
    first_select_in_compound: &SelectPlan,
) -> (r: (usize, Index))
    ensures
        r.1@ == union_dedupe_index(first_select_in_compound@),
        r.0 == old(program).state().cursors.len(),
        final(program).state() == emitted(
            with_cursor(old(program).state(), CursorTypeView::BTreeIndex(r.1@)),
            InsnView::OpenEphemeral { cursor_id: r.0, is_table: false },
        ),
        final(program).result_columns == old(program).result_columns,
        final(program).table_references == old(program).table_references,
        final(program).index_experimental == old(program).index_experimental,
{
    let ghost target = union_dedupe_index(first_select_in_compound@);
    let n = first_select_in_compound.result_columns.len();
    let mut columns: Vec<IndexColumn> = Vec::new();
    for i in 0..n
        invariant
            n == first_select_in_compound.result_columns@.len(),
            target == union_dedupe_index(first_select_in_compound@),
            columns@.len() == i,
            forall|j: int| 0 <= j < i ==> #[trigger] columns@[j]@ == target.columns[j],
    {
        let c = &first_select_in_compound.result_columns[i];
        let name = match c.name() {
            Some(s) => s.clone(),
            None => String::new(),
        };
        columns.push(IndexColumn { name, order: SortOrder::Asc, pos_in_table: 0, collation: None });
    }
    let dedupe_index = Index {
        name: "union_dedupe".to_owned(),
        table_name: String::new(),
        root_page: 0,
        columns,
        unique: true,
        ephemeral: true,
        has_rowid: false,
    };
    assert(dedupe_index@.columns =~= target.columns);
    assert(dedupe_index@.table_name =~= target.table_name);
    let cursor_id = program.alloc_cursor_id(CursorType::BTreeIndex(dedupe_index.clone()));
    program.emit_insn(Insn::OpenEphemeral { cursor_id, is_table: false });
    (cursor_id, dedupe_index)
}

/// Emits the loop that reads the deduplicated rows out of the ephemeral
/// index that a UNION wrote into, and hands each on: to the coroutine
/// through the registers after `yield_reg` when there is one, else as a
/// result row; with a limit, the loop stops at `label_limit_reached` once
/// the counter runs out.
pub fn read_deduplicated_union_rows(
    program: &mut ProgramBuilder,
    dedupe_cursor_id: usize,
    dedupe_index: &Index,
    limit_ctx: Option<LimitCtx>,
    label_limit_reached: BranchOffset,
    yield_reg: Option<usize>,
)
    requires
        dedupe_read_fits(old(program).state(), dedupe_index.columns@.len(), yield_reg),
    ensures
        final(program).state() == dedupe_read(
            old(program).state(),
            dedupe_cursor_id,
            dedupe_index.columns@.len(),
            limit_ctx,
            label_limit_reached,
            yield_reg,
        ),
        final(program).result_columns == old(program).result_columns,
        final(program).table_references == old(program).table_references,
        final(program).index_experimental == old(program).index_experimental,
{
    let ghost s = program.state();
    let label_dedupe_next = program.allocate_label();
    let label_dedupe_loop_start = program.allocate_label();
    let ncols = dedupe_index.columns.len();
    let dedupe_cols_start_reg = program.alloc_registers(ncols);
    program.emit_insn(
        Insn::Rewind { cursor_id: dedupe_cursor_id, pc_if_empty: label_dedupe_next },
    );
    program.preassign_label_to_next_insn(label_dedupe_loop_start);
    let ghost s5 = program.state();
    let ghost base: int = match yield_reg {
        Some(y) => y + 1,
        None => dedupe_cols_start_reg as int,
    };
    for col_idx in 0..ncols
        invariant
            ncols == dedupe_index.columns@.len(),
            dedupe_read_fits(s, ncols as nat, yield_reg),
            base == match yield_reg {
                Some(y) => y + 1,
                None => dedupe_cols_start_reg as int,
            },
            dedupe_cols_start_reg + ncols <= usize::MAX,
            program.state() == (ProgramState {
                insns: s5.insns + column_reads(dedupe_cursor_id, col_idx as nat, base),
                ..s5
            }),
            program.result_columns == old(program).result_columns,
            program.table_references == old(program).table_references,
            program.index_experimental == old(program).index_experimental,
    {
        let start_reg = if let Some(yield_reg) = yield_reg {
            yield_reg + 1
        } else {
            dedupe_cols_start_reg
        };
        program.emit_insn(
            Insn::Column { cursor_id: dedupe_cursor_id, column: col_idx, dest: start_reg + col_idx },
        );
        assert(s5.insns + column_reads(dedupe_cursor_id, (col_idx + 1) as nat, base) =~= (s5.insns
            + column_reads(dedupe_cursor_id, col_idx as nat, base)).push(
            InsnView::Column {
                cursor_id: dedupe_cursor_id,
                column: col_idx,
                dest: (start_reg + col_idx) as usize,
            },
        ));
    }
    if let Some(yield_reg) = yield_reg {
        program.emit_insn(Insn::Yield { yield_reg, end_offset: BranchOffset::Offset(0) });
    } else {
        program.emit_insn(Insn::ResultRow { start_reg: dedupe_cols_start_reg, count: ncols });
    }
    if let Some(limit_ctx) = limit_ctx {
        program.emit_insn(
            Insn::DecrJumpZero { reg: limit_ctx.reg_limit, target_pc: label_limit_reached },
        );
    }
    program.preassign_label_to_next_insn(label_dedupe_next);
    program.emit_insn(
        Insn::Next { cursor_id: dedupe_cursor_id, pc_if_next: label_dedupe_loop_start },
    );
    program.emit_insn(Insn::Close { cursor_id: dedupe_cursor_id });
}

/// The error that reports an operator other than UNION and UNION ALL.
fn unsupported_operator(operator: CompoundOperator) -> (e: LimboError)
    ensures
        reports(e, CompoundFailure::UnsupportedOperator(operator)),
{
    let m = match operator {
        CompoundOperator::Except => "unimplemented compound select operator: Except",
        CompoundOperator::Intersect => "unimplemented compound select operator: Intersect",
        CompoundOperator::Union => "unimplemented compound select operator: Union",
        CompoundOperator::UnionAll => "unimplemented compound select operator: UnionAll",
    };
    LimboError::ParseError(m.to_owned())
}

/// Emits `left[0] op ... left[n-1] op right_most`: everything on the left
/// first (recursively, from the last operator), then the right-most SELECT,
/// as `compound_emission` describes.
fn emit_compound_select(
    program: &mut ProgramBuilder,
    left: Vec<(SelectPlan, CompoundOperator)>,
    right_most: SelectPlan,
    limit: Option<isize>,
    offset: Option<isize>,
    order_by: Option<Vec<(usize, SortOrder)>>,
    limit_ctx: Option<LimitCtx>,
    yield_reg: Option<usize>,
    reg_result_cols_start: Option<usize>,
) -> (r: Result<(), LimboError>)
    requires
        ({
            let e = compound_emission(
                old(program).state(),
                left_views(left@),
                right_most@,
                limit,
                limit_ctx,
                yield_reg,
                reg_result_cols_start,
                old(program).index_experimental,
            );
            e.0.next_free_register <= usize::MAX && e.2
        }),
    ensures
        ({
            let e = compound_emission(
                old(program).state(),
                left_views(left@),
                right_most@,
                limit,
                limit_ctx,
                yield_reg,
                reg_result_cols_start,
                old(program).index_experimental,
            );
            &&& final(program).state() == e.0
            &&& (r is Ok <==> e.1 is Ok)
            &&& (r matches Err(err) ==> reports(err, e.1->Err_0))
        }),
        final(program).result_columns == old(program).result_columns,
        final(program).table_references == old(program).table_references,
        final(program).index_experimental == old(program).index_experimental,
    decreases left@.len(),
{
    let mut left = left;
    let mut right_most = right_most;
    let ghost lv = left_views(left@);
    let ghost rv = right_most@;
    match left.pop() {
        None => {
            if limit_ctx.is_some() {
                right_most.limit = limit;
            }
            emit_query(program, right_most, limit_ctx, reg_result_cols_start);
            Ok(())
        },
        Some((mut plan, operator)) => {
            assert(left_views(left@) =~= lv.drop_last());
            assert(lv.last() == (plan@, operator));
            match operator {
                CompoundOperator::UnionAll => {
                    if is_ephemeral_index(&right_most.query_destination) {
                        plan.query_destination = right_most.query_destination.clone();
                    }
                    match emit_compound_select(
                        program,
                        left,
                        plan,
                        limit,
                        offset,
                        order_by,
                        limit_ctx,
                        yield_reg,
                        reg_result_cols_start,
                    ) {
                        Err(e) => {
                            return Err(e);
                        },
                        Ok(()) => {},
                    }
                    let label_next_select = program.allocate_label();
                    if let Some(limit_ctx) = limit_ctx {
                        program.emit_insn(
                            Insn::IfNot {
                                reg: limit_ctx.reg_limit,
                                target_pc: label_next_select,
                                jump_if_null: true,
                            },
                        );
                        right_most.limit = limit;
                    }
                    emit_query(program, right_most, limit_ctx, reg_result_cols_start);
                    program.preassign_label_to_next_insn(label_next_select);
                    Ok(())
                },
                CompoundOperator::Union => {
                    let mut new_dedupe_index = false;
                    let (cursor_id, index) = match &right_most.query_destination {
                        QueryDestination::EphemeralIndex { cursor_id, index } => (
                            *cursor_id,
                            index.clone(),
                        ),
                        _ => {
                            if !program.index_experimental {
                                return Err(
                                    LimboError::ParseError(
                                        "UNION not supported without indexes".to_owned(),
                                    ),
                                );
                            }
                            new_dedupe_index = true;
                            create_union_dedupe_index(program, &right_most)
                        },
                    };
                    plan.query_destination = QueryDestination::EphemeralIndex {
                        cursor_id,
                        index: index.clone(),
                    };
                    match emit_compound_select(
                        program,
                        left,
                        plan,
                        limit,
                        offset,
                        order_by,
                        None,
                        yield_reg,
                        reg_result_cols_start,
                    ) {
                        Err(e) => {
                            return Err(e);
                        },
                        Ok(()) => {},
                    }
                    right_most.query_destination = QueryDestination::EphemeralIndex {
                        cursor_id,
                        index: index.clone(),
                    };
                    emit_query(program, right_most, None, reg_result_cols_start);
                    if new_dedupe_index {
                        let label_jump_over_dedupe = program.allocate_label();
                        read_deduplicated_union_rows(
                            program,
                            cursor_id,
                            &index,
                            limit_ctx,
                            label_jump_over_dedupe,
                            yield_reg,
                        );
                        program.preassign_label_to_next_insn(label_jump_over_dedupe);
                    }
                    Ok(())
                },
                _ => Err(unsupported_operator(operator)),
            }
        },
    }
}

/// Emits the program of a compound SELECT: the SELECTs as
/// `compound_program` describes, then the epilogue; the program's result
/// columns become those of the right-most SELECT and its tables are added to
/// the program's. Fails on a plan that is not a compound SELECT, on an
/// operator other than UNION and UNION ALL, and on a UNION that needs an
/// index to deduplicate on when none may be created.
pub fn emit_program_for_compound_select(
    program: &mut ProgramBuilder,
    plan: Plan,
) -> (r: Result<(), LimboError>)
    requires
        ({
            let e = compound_program(old(program).state(), plan, old(program).index_experimental);
            e.0.next_free_register <= usize::MAX && e.2
        }),
    ensures
        ({
            let e = compound_program(old(program).state(), plan, old(program).index_experimental);
            &&& final(program).state() == e.0
            &&& (r is Ok <==> e.1 is Ok)
            &&& (r matches Err(err) ==> reports(err, e.1->Err_0))
        }),
        r is Ok ==> (match plan {
            Plan::CompoundSelect { right_most, .. } => {
                &&& final(program).result_columns@.map_values(|c: ResultSetColumn| c@)
                    == right_most@.result_columns
                &&& final(program).table_references@.map_values(|t: TableReference| t@)
                    == old(program).table_references@.map_values(|t: TableReference| t@)
                    + right_most@.table_references
            },
            _ => false,
        }),
        r is Err ==> final(program).result_columns == old(program).result_columns
            && final(program).table_references == old(program).table_references,
        final(program).index_experimental == old(program).index_experimental,
{
    match plan {
        Plan::Select(_) => Err(LimboError::ParseError("expected compound select plan".to_owned())),
        Plan::CompoundSelect { left, right_most, limit, offset, order_by } => {
            proof {
                lemma_compound_program_grows(program.state(), plan, program.index_experimental);
            }
            let ghost rv = right_most@;
            let right_result_columns = right_most.result_columns.clone();
            let mut right_table_references = right_most.table_references.clone();
            assert(right_result_columns@.map_values(|c: ResultSetColumn| c@) =~= rv.result_columns);
            assert(right_table_references@.map_values(|t: TableReference| t@)
                =~= rv.table_references);
            // Trivial exit on LIMIT 0
            if let Some(l) = limit {
                if l == 0 {
                    program.epilogue(TransactionMode::Read);
                    let ghost old_tables = program.table_references@;
                    program.result_columns = right_result_columns;
                    program.table_references.append(&mut right_table_references);
                    assert(program.table_references@.map_values(|t: TableReference| t@) =~= old_tables.map_values(
                        |t: TableReference| t@,
                    ) + rv.table_references);
                    return Ok(());
                }
            }
            // All the SELECTs share one limit counter: the LIMIT applies to
            // the whole compound SELECT.
            let limit_ctx = match limit {
                Some(l) => {
                    let reg = program.alloc_register();
                    program.emit_insn(Insn::Integer { value: l as i64, dest: reg });
                    Some(LimitCtx::new_shared(reg))
                },
                None => None,
            };
            // Rows headed for a coroutine go through one set of registers,
            // shared by every SELECT.
            let (yield_reg, reg_result_cols_start) = match &right_most.query_destination {
                QueryDestination::CoroutineYield { yield_reg, .. } => {
                    let start_reg = program.alloc_registers(right_most.result_columns.len());
                    (Some(*yield_reg), Some(start_reg))
                },
                _ => (None, None),
            };
            match emit_compound_select(
                program,
                left,
                right_most,
                limit,
                offset,
                order_by,
                limit_ctx,
                yield_reg,
                reg_result_cols_start,
            ) {
                Err(e) => {
                    return Err(e);
                },
                Ok(()) => {},
            }
            program.epilogue(TransactionMode::Read);
            let ghost old_tables = program.table_references@;
            program.result_columns = right_result_columns;
            program.table_references.append(&mut right_table_references);
            assert(program.table_references@.map_values(|t: TableReference| t@) =~= old_tables.map_values(
                |t: TableReference| t@,
            ) + rv.table_references);
            Ok(())
        },
    }
}

} // verus!
