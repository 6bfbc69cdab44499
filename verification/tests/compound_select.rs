use limbo_core::ast::{CompoundOperator, SortOrder};
use limbo_core::builder::{BranchOffset, CursorType, Insn, LimitCtx, ProgramBuilder};
use limbo_core::compound_select::{emit_program_for_compound_select, read_deduplicated_union_rows};
use limbo_core::error::LimboError;
use limbo_core::plan::{Plan, QueryDestination, ResultSetColumn, SelectPlan, TableReference};
use limbo_core::schema::{Index, IndexColumn};

fn select(cols: &[&str], table: &str, dest: QueryDestination) -> SelectPlan {
    SelectPlan {
        result_columns: cols.iter().map(|c| ResultSetColumn { name: Some(c.to_string()) }).collect(),
        table_references: vec![TableReference { identifier: table.to_string() }],
        query_destination: dest,
        limit: None,
        offset: None,
    }
}

fn with_limit(mut p: SelectPlan, limit: Option<isize>) -> SelectPlan {
    p.limit = limit;
    p
}

fn compound(left: Vec<(SelectPlan, CompoundOperator)>, right_most: SelectPlan, limit: Option<isize>) -> Plan {
    Plan::CompoundSelect { left, right_most, limit, offset: None, order_by: None }
}

fn dedupe_index(cols: &[&str]) -> Index {
    Index {
        name: "union_dedupe".to_string(),
        table_name: String::new(),
        root_page: 0,
        columns: cols
            .iter()
            .map(|c| IndexColumn { name: c.to_string(), order: SortOrder::Asc, pos_in_table: 0, collation: None })
            .collect(),
        unique: true,
        ephemeral: true,
        has_rowid: false,
    }
}

fn parse_error(m: &str) -> LimboError {
    LimboError::ParseError(m.to_string())
}

#[test]
fn union_all_with_limit_shares_one_counter() {
    let s1 = select(&["a"], "t1", QueryDestination::ResultRows);
    let s2 = select(&["b"], "t2", QueryDestination::ResultRows);
    let mut program = ProgramBuilder::new(false);
    let r = emit_program_for_compound_select(
        &mut program,
        compound(vec![(s1, CompoundOperator::UnionAll)], s2, Some(10)),
    );
    assert_eq!(r, Ok(()));
    let ctx = Some(LimitCtx { reg_limit: 1, initialize_counter: false });
    assert_eq!(
        program.insns,
        vec![
            Insn::Integer { value: 10, dest: 1 },
            Insn::Select {
                plan: with_limit(select(&["a"], "t1", QueryDestination::ResultRows), Some(10)),
                limit_ctx: ctx,
                reg_result_cols_start: None,
            },
            Insn::IfNot { reg: 1, target_pc: BranchOffset::Label(0), jump_if_null: true },
            Insn::Select {
                plan: with_limit(select(&["b"], "t2", QueryDestination::ResultRows), Some(10)),
                limit_ctx: ctx,
                reg_result_cols_start: None,
            },
            Insn::Halt { err_code: 0 },
            Insn::Transaction { write: false },
        ]
    );
    assert_eq!(program.label_to_resolved_offset, vec![Some(4)]);
    assert_eq!(program.next_free_register, 2);
    assert_eq!(program.result_columns, vec![ResultSetColumn { name: Some("b".to_string()) }]);
    assert_eq!(program.table_references, vec![TableReference { identifier: "t2".to_string() }]);
}

#[test]
fn limit_zero_emits_only_the_epilogue() {
    let s1 = select(&["a"], "t1", QueryDestination::ResultRows);
    let s2 = select(&["b"], "t2", QueryDestination::ResultRows);
    let mut program = ProgramBuilder::new(false);
    program.table_references.push(TableReference { identifier: "outer".to_string() });
    let r = emit_program_for_compound_select(
        &mut program,
        compound(vec![(s1, CompoundOperator::UnionAll)], s2, Some(0)),
    );
    assert_eq!(r, Ok(()));
    assert_eq!(program.insns, vec![Insn::Halt { err_code: 0 }, Insn::Transaction { write: false }]);
    assert_eq!(program.next_free_register, 1);
    assert!(program.label_to_resolved_offset.is_empty());
    assert_eq!(program.result_columns, vec![ResultSetColumn { name: Some("b".to_string()) }]);
    assert_eq!(
        program.table_references,
        vec![
            TableReference { identifier: "outer".to_string() },
            TableReference { identifier: "t2".to_string() }
        ]
    );
}

#[test]
fn union_all_without_limit_emits_selects_in_order() {
    let s1 = select(&["a"], "t1", QueryDestination::ResultRows);
    let s2 = select(&["b"], "t2", QueryDestination::ResultRows);
    let s3 = select(&["c"], "t3", QueryDestination::ResultRows);
    let mut program = ProgramBuilder::new(false);
    let r = emit_program_for_compound_select(
        &mut program,
        compound(vec![(s1, CompoundOperator::UnionAll), (s2, CompoundOperator::UnionAll)], s3, None),
    );
    assert_eq!(r, Ok(()));
    let body = |cols: &[&str], t: &str| Insn::Select {
        plan: select(cols, t, QueryDestination::ResultRows),
        limit_ctx: None,
        reg_result_cols_start: None,
    };
    assert_eq!(
        program.insns,
        vec![
            body(&["a"], "t1"),
            body(&["b"], "t2"),
            body(&["c"], "t3"),
            Insn::Halt { err_code: 0 },
            Insn::Transaction { write: false },
        ]
    );
    assert_eq!(program.label_to_resolved_offset, vec![Some(2), Some(3)]);
    assert_eq!(program.next_free_register, 1);
}

#[test]
fn union_without_indexes_is_refused() {
    let s1 = select(&["a"], "t1", QueryDestination::ResultRows);
    let s2 = select(&["b"], "t2", QueryDestination::ResultRows);
    let mut program = ProgramBuilder::new(false);
    let r = emit_program_for_compound_select(&mut program, compound(vec![(s1, CompoundOperator::Union)], s2, None));
    assert_eq!(r, Err(parse_error("UNION not supported without indexes")));
    assert!(program.insns.is_empty());
    assert!(program.result_columns.is_empty());
}

#[test]
fn intersect_is_refused() {
    let s1 = select(&["a"], "t1", QueryDestination::ResultRows);
    let s2 = select(&["b"], "t2", QueryDestination::ResultRows);
    let mut program = ProgramBuilder::new(true);
    let r = emit_program_for_compound_select(&mut program, compound(vec![(s1, CompoundOperator::Intersect)], s2, None));
    assert_eq!(r, Err(parse_error("unimplemented compound select operator: Intersect")));
    let s1 = select(&["a"], "t1", QueryDestination::ResultRows);
    let s2 = select(&["b"], "t2", QueryDestination::ResultRows);
    let r = emit_program_for_compound_select(&mut program, compound(vec![(s1, CompoundOperator::Except)], s2, None));
    assert_eq!(r, Err(parse_error("unimplemented compound select operator: Except")));
    assert!(program.insns.is_empty());
}

#[test]
fn simple_select_is_refused() {
    let mut program = ProgramBuilder::new(true);
    let r = emit_program_for_compound_select(
        &mut program,
        Plan::Select(select(&["a"], "t1", QueryDestination::ResultRows)),
    );
    assert_eq!(r, Err(parse_error("expected compound select plan")));
    assert!(program.insns.is_empty());
}

#[test]
fn union_deduplicates_through_a_new_index() {
    let s1 = select(&["a", "b"], "t1", QueryDestination::ResultRows);
    let s2 = select(&["x", "y"], "t2", QueryDestination::ResultRows);
    let mut program = ProgramBuilder::new(true);
    let r = emit_program_for_compound_select(&mut program, compound(vec![(s1, CompoundOperator::Union)], s2, None));
    assert_eq!(r, Ok(()));
    let eph = || QueryDestination::EphemeralIndex { cursor_id: 0, index: dedupe_index(&["x", "y"]) };
    assert_eq!(program.cursor_ref, vec![CursorType::BTreeIndex(dedupe_index(&["x", "y"]))]);
    assert_eq!(
        program.insns,
        vec![
            Insn::OpenEphemeral { cursor_id: 0, is_table: false },
            Insn::Select { plan: select(&["a", "b"], "t1", eph()), limit_ctx: None, reg_result_cols_start: None },
            Insn::Select { plan: select(&["x", "y"], "t2", eph()), limit_ctx: None, reg_result_cols_start: None },
            Insn::Rewind { cursor_id: 0, pc_if_empty: BranchOffset::Label(1) },
            Insn::Column { cursor_id: 0, column: 0, dest: 1 },
            Insn::Column { cursor_id: 0, column: 1, dest: 2 },
            Insn::ResultRow { start_reg: 1, count: 2 },
            Insn::Next { cursor_id: 0, pc_if_next: BranchOffset::Label(2) },
            Insn::Close { cursor_id: 0 },
            Insn::Halt { err_code: 0 },
            Insn::Transaction { write: false },
        ]
    );
    assert_eq!(program.label_to_resolved_offset, vec![Some(9), Some(7), Some(4)]);
    assert_eq!(program.next_free_register, 3);
}

#[test]
fn union_into_coroutine_with_limit() {
    let dest = QueryDestination::CoroutineYield { yield_reg: 5, coroutine_implementation_start: BranchOffset::Offset(0) };
    let s1 = select(&["a", "b"], "t1", QueryDestination::ResultRows);
    let s2 = select(&["x", "y"], "t2", dest);
    let mut program = ProgramBuilder::new(true);
    let r = emit_program_for_compound_select(&mut program, compound(vec![(s1, CompoundOperator::Union)], s2, Some(3)));
    assert_eq!(r, Ok(()));
    let eph = || QueryDestination::EphemeralIndex { cursor_id: 0, index: dedupe_index(&["x", "y"]) };
    assert_eq!(
        program.insns,
        vec![
            Insn::Integer { value: 3, dest: 1 },
            Insn::OpenEphemeral { cursor_id: 0, is_table: false },
            Insn::Select { plan: select(&["a", "b"], "t1", eph()), limit_ctx: None, reg_result_cols_start: Some(2) },
            Insn::Select { plan: select(&["x", "y"], "t2", eph()), limit_ctx: None, reg_result_cols_start: Some(2) },
            Insn::Rewind { cursor_id: 0, pc_if_empty: BranchOffset::Label(1) },
            Insn::Column { cursor_id: 0, column: 0, dest: 6 },
            Insn::Column { cursor_id: 0, column: 1, dest: 7 },
            Insn::Yield { yield_reg: 5, end_offset: BranchOffset::Offset(0) },
            Insn::DecrJumpZero { reg: 1, target_pc: BranchOffset::Label(0) },
            Insn::Next { cursor_id: 0, pc_if_next: BranchOffset::Label(2) },
            Insn::Close { cursor_id: 0 },
            Insn::Halt { err_code: 0 },
            Insn::Transaction { write: false },
        ]
    );
    assert_eq!(program.label_to_resolved_offset, vec![Some(11), Some(9), Some(5)]);
    assert_eq!(program.next_free_register, 6);
}

#[test]
fn union_into_existing_index_reads_nothing_back() {
    let idx = dedupe_index(&["k"]);
    let dest = || QueryDestination::EphemeralIndex { cursor_id: 7, index: dedupe_index(&["k"]) };
    let s1 = select(&["a"], "t1", QueryDestination::ResultRows);
    let s2 = select(&["b"], "t2", QueryDestination::ResultRows);
    let s3 = select(&["c"], "t3", QueryDestination::EphemeralIndex { cursor_id: 7, index: idx });
    let mut program = ProgramBuilder::new(false);
    let r = emit_program_for_compound_select(
        &mut program,
        compound(vec![(s1, CompoundOperator::UnionAll), (s2, CompoundOperator::Union)], s3, None),
    );
    assert_eq!(r, Ok(()));
    assert_eq!(
        program.insns,
        vec![
            Insn::Select { plan: select(&["a"], "t1", dest()), limit_ctx: None, reg_result_cols_start: None },
            Insn::Select { plan: select(&["b"], "t2", dest()), limit_ctx: None, reg_result_cols_start: None },
            Insn::Select { plan: select(&["c"], "t3", dest()), limit_ctx: None, reg_result_cols_start: None },
            Insn::Halt { err_code: 0 },
            Insn::Transaction { write: false },
        ]
    );
    assert_eq!(program.label_to_resolved_offset, vec![Some(2)]);
    assert!(program.cursor_ref.is_empty());
}

#[test]
fn union_all_after_union_keeps_its_own_destination_and_limit() {
    let s1 = select(&["a"], "t1", QueryDestination::ResultRows);
    let s2 = select(&["b"], "t2", QueryDestination::ResultRows);
    let s3 = select(&["c"], "t3", QueryDestination::ResultRows);
    let mut program = ProgramBuilder::new(true);
    let r = emit_program_for_compound_select(
        &mut program,
        compound(vec![(s1, CompoundOperator::Union), (s2, CompoundOperator::UnionAll)], s3, Some(4)),
    );
    assert_eq!(r, Ok(()));
    let ctx = Some(LimitCtx { reg_limit: 1, initialize_counter: false });
    let eph = || QueryDestination::EphemeralIndex { cursor_id: 0, index: dedupe_index(&["b"]) };
    assert_eq!(
        program.insns,
        vec![
            Insn::Integer { value: 4, dest: 1 },
            Insn::OpenEphemeral { cursor_id: 0, is_table: false },
            Insn::Select { plan: select(&["a"], "t1", eph()), limit_ctx: None, reg_result_cols_start: None },
            Insn::Select { plan: select(&["b"], "t2", eph()), limit_ctx: None, reg_result_cols_start: None },
            Insn::Rewind { cursor_id: 0, pc_if_empty: BranchOffset::Label(1) },
            Insn::Column { cursor_id: 0, column: 0, dest: 2 },
            Insn::ResultRow { start_reg: 2, count: 1 },
            Insn::DecrJumpZero { reg: 1, target_pc: BranchOffset::Label(0) },
            Insn::Next { cursor_id: 0, pc_if_next: BranchOffset::Label(2) },
            Insn::Close { cursor_id: 0 },
            Insn::IfNot { reg: 1, target_pc: BranchOffset::Label(3), jump_if_null: true },
            Insn::Select {
                plan: with_limit(select(&["c"], "t3", QueryDestination::ResultRows), Some(4)),
                limit_ctx: ctx,
                reg_result_cols_start: None,
            },
            Insn::Halt { err_code: 0 },
            Insn::Transaction { write: false },
        ]
    );
    assert_eq!(program.label_to_resolved_offset, vec![Some(10), Some(8), Some(5), Some(12)]);
}

#[test]
fn read_deduplicated_rows_of_an_empty_index() {
    let mut program = ProgramBuilder::new(true);
    program.next_free_register = 4;
    program.allocate_label();
    read_deduplicated_union_rows(&mut program, 3, &dedupe_index(&[]), None, BranchOffset::Label(0), None);
    assert_eq!(
        program.insns,
        vec![
            Insn::Rewind { cursor_id: 3, pc_if_empty: BranchOffset::Label(1) },
            Insn::ResultRow { start_reg: 4, count: 0 },
            Insn::Next { cursor_id: 3, pc_if_next: BranchOffset::Label(2) },
            Insn::Close { cursor_id: 3 },
        ]
    );
    assert_eq!(program.label_to_resolved_offset, vec![None, Some(2), Some(1)]);
    assert_eq!(program.next_free_register, 4);
}
