//! The program builder: instructions, registers, cursors and jump labels.
use crate::plan::{SelectPlan, SelectPlanView};
use crate::schema::{Index, IndexView};
use vstd::prelude::*;

verus! {

/// A jump target: a label to be resolved, or an instruction offset.
#[derive(Clone, Copy, Debug, PartialEq, Eq, Structural)]
pub enum BranchOffset {
    Label(usize),
    Offset(usize),
    Placeholder,
}

/// What a cursor reads.
#[derive(Debug, PartialEq, Eq)]
pub enum CursorType {
    BTreeIndex(Index),
    Sorter,
}

/// What a cursor type is.
pub enum CursorTypeView {
    BTreeIndex(IndexView),
    Sorter,
}

impl View for CursorType {
    type V = CursorTypeView;

    open spec fn view(&self) -> CursorTypeView {
        match self {
            CursorType::BTreeIndex(i) => CursorTypeView::BTreeIndex(i@),
            CursorType::Sorter => CursorTypeView::Sorter,
        }
    }
}

/// The transaction a program opens.
#[derive(Clone, Copy, Debug, PartialEq, Eq, Structural)]
pub enum TransactionMode {
    Read,
    Write,
}

/// The register that counts down a LIMIT.
#[derive(Clone, Copy, Debug, PartialEq, Eq, Structural)]
pub struct LimitCtx {
    pub reg_limit: usize,
    pub initialize_counter: bool,
}

impl LimitCtx {
    /// A limit whose counter register is set up by the caller and shared by
    /// several SELECTs.
    pub fn new_shared(reg_limit: usize) -> (r: Self)
        ensures
            r == (LimitCtx { reg_limit, initialize_counter: false }),
    {
        LimitCtx { reg_limit, initialize_counter: false }
    }
}

/// An instruction of the virtual machine.
#[derive(Debug, PartialEq, Eq)]
pub enum Insn {
    /// `dest := value`.
    Integer { value: i64, dest: usize },
    /// Jump to `target_pc` when `reg` is zero (or NULL, with `jump_if_null`).
    IfNot { reg: usize, target_pc: BranchOffset, jump_if_null: bool },
    /// Open an ephemeral table or index on `cursor_id`.
    OpenEphemeral { cursor_id: usize, is_table: bool },
    /// Move the cursor to its first entry; jump to `pc_if_empty` when there is none.
    Rewind { cursor_id: usize, pc_if_empty: BranchOffset },
    /// `dest := column` of the cursor's current entry.
    Column { cursor_id: usize, column: usize, dest: usize },
    /// Yield to the coroutine whose return address is in `yield_reg`.
    Yield { yield_reg: usize, end_offset: BranchOffset },
    /// Emit the `count` registers from `start_reg` as a result row.
    ResultRow { start_reg: usize, count: usize },
    /// Decrement `reg`; jump to `target_pc` when it reaches zero.
    DecrJumpZero { reg: usize, target_pc: BranchOffset },
    /// Move the cursor on; jump to `pc_if_next` when there is an entry.
    Next { cursor_id: usize, pc_if_next: BranchOffset },
    /// Close the cursor.
    Close { cursor_id: usize },
    /// Stop the program.
    Halt { err_code: usize },
    /// Begin a transaction.
    Transaction { write: bool },
    /// The code of one simple SELECT, as the query emitter produces it from
    /// this plan, this limit counter and these result registers.
    Select { plan: SelectPlan, limit_ctx: Option<LimitCtx>, reg_result_cols_start: Option<usize> },
}

/// What an instruction is.
pub enum InsnView {
    Integer { value: i64, dest: usize },
    IfNot { reg: usize, target_pc: BranchOffset, jump_if_null: bool },
    OpenEphemeral { cursor_id: usize, is_table: bool },
    Rewind { cursor_id: usize, pc_if_empty: BranchOffset },
    Column { cursor_id: usize, column: usize, dest: usize },
    Yield { yield_reg: usize, end_offset: BranchOffset },
    ResultRow { start_reg: usize, count: usize },
    DecrJumpZero { reg: usize, target_pc: BranchOffset },
    Next { cursor_id: usize, pc_if_next: BranchOffset },
    Close { cursor_id: usize },
    Halt { err_code: usize },
    Transaction { write: bool },
    Select { plan: SelectPlanView, limit_ctx: Option<LimitCtx>, reg_result_cols_start: Option<usize> },
}

impl View for Insn {
    type V = InsnView;

    open spec fn view(&self) -> InsnView {
        match self {
            Insn::Integer { value, dest } => InsnView::Integer { value: *value, dest: *dest },
            Insn::IfNot { reg, target_pc, jump_if_null } => InsnView::IfNot {
                reg: *reg,
                target_pc: *target_pc,
                jump_if_null: *jump_if_null,
            },
            Insn::OpenEphemeral { cursor_id, is_table } => InsnView::OpenEphemeral {
                cursor_id: *cursor_id,
                is_table: *is_table,
            },
            Insn::Rewind { cursor_id, pc_if_empty } => InsnView::Rewind {
                cursor_id: *cursor_id,
                pc_if_empty: *pc_if_empty,
            },
            Insn::Column { cursor_id, column, dest } => InsnView::Column {
                cursor_id: *cursor_id,
                column: *column,
                dest: *dest,
            },
            Insn::Yield { yield_reg, end_offset } => InsnView::Yield {
                yield_reg: *yield_reg,
                end_offset: *end_offset,
            },
            Insn::ResultRow { start_reg, count } => InsnView::ResultRow {
                start_reg: *start_reg,
                count: *count,
            },
            Insn::DecrJumpZero { reg, target_pc } => InsnView::DecrJumpZero {
                reg: *reg,
                target_pc: *target_pc,
            },
            Insn::Next { cursor_id, pc_if_next } => InsnView::Next {
                cursor_id: *cursor_id,
                pc_if_next: *pc_if_next,
            },
            Insn::Close { cursor_id } => InsnView::Close { cursor_id: *cursor_id },
            Insn::Halt { err_code } => InsnView::Halt { err_code: *err_code },
            Insn::Transaction { write } => InsnView::Transaction { write: *write },
            Insn::Select { plan, limit_ctx, reg_result_cols_start } => InsnView::Select {
                plan: plan@,
                limit_ctx: *limit_ctx,
                reg_result_cols_start: *reg_result_cols_start,
            },
        }
    }
}

/// What a program under construction is: its instructions, the first free
/// register, its cursors (a cursor's id is its position), and its labels
/// (label `n` resolves to the offset at position `n`, once known).
pub struct ProgramState {
    pub insns: Seq<InsnView>,
    pub next_free_register: int,
    pub cursors: Seq<CursorTypeView>,
    pub labels: Seq<Option<usize>>,
}

/// The program with `i` appended.
pub open spec fn emitted(s: ProgramState, i: InsnView) -> ProgramState {
    ProgramState { insns: s.insns.push(i), ..s }
}

/// The label that `with_label(s)` allocates.
pub open spec fn next_label(s: ProgramState) -> BranchOffset {
    BranchOffset::Label(s.labels.len() as usize)
}

/// The program with one more, unresolved, label.
pub open spec fn with_label(s: ProgramState) -> ProgramState {
    ProgramState { labels: s.labels.push(None), ..s }
}

/// The program with `label` resolved to the offset of the next instruction.
pub open spec fn resolved(s: ProgramState, label: BranchOffset) -> ProgramState {
    match label {
        BranchOffset::Label(n) => ProgramState {
            labels: s.labels.update(n as int, Some(s.insns.len() as usize)),
            ..s
        },
        _ => s,
    }
}

/// The program with `n` more registers allocated.
pub open spec fn with_registers(s: ProgramState, n: int) -> ProgramState {
    ProgramState { next_free_register: s.next_free_register + n, ..s }
}

/// The program with one more cursor, of type `c`.
pub open spec fn with_cursor(s: ProgramState, c: CursorTypeView) -> ProgramState {
    ProgramState { cursors: s.cursors.push(c), ..s }
}

/// The program closed: it halts, and its entry opens the transaction.
pub open spec fn after_epilogue(s: ProgramState, mode: TransactionMode) -> ProgramState {
    let h = emitted(s, InsnView::Halt { err_code: 0 });
    match mode {
        TransactionMode::Read => emitted(h, InsnView::Transaction { write: false }),
        TransactionMode::Write => emitted(h, InsnView::Transaction { write: true }),
    }
}

/// A program under construction.
#[derive(Debug)]
pub struct ProgramBuilder {
    pub insns: Vec<Insn>,
    pub next_free_register: usize,
    pub cursor_ref: Vec<CursorType>,
    pub label_to_resolved_offset: Vec<Option<usize>>,
    pub result_columns: Vec<crate::plan::ResultSetColumn>,
    pub table_references: Vec<crate::plan::TableReference>,
    /// Whether indexes may be created on the fly (for UNION deduplication).
    pub index_experimental: bool,
}

impl ProgramBuilder {
    /// What the program is.
    pub open spec fn state(&self) -> ProgramState {
        ProgramState {
            insns: self.insns@.map_values(|i: Insn| i@),
            next_free_register: self.next_free_register as int,
            cursors: self.cursor_ref@.map_values(|c: CursorType| c@),
            labels: self.label_to_resolved_offset@,
        }
    }

    /// An empty program; register 0 is reserved, so allocation starts at 1.
    pub fn new(index_experimental: bool) -> (p: Self)
        ensures
            p.state().insns.len() == 0,
            p.state().next_free_register == 1,
            p.state().cursors.len() == 0,
            p.state().labels.len() == 0,
            p.result_columns@.len() == 0,
            p.table_references@.len() == 0,
            p.index_experimental == index_experimental,
    {
        let p = ProgramBuilder {
            insns: Vec::new(),
            next_free_register: 1,
            cursor_ref: Vec::new(),
            label_to_resolved_offset: Vec::new(),
            result_columns: Vec::new(),
            table_references: Vec::new(),
            index_experimental,
        };
        assert(p.state().insns =~= Seq::<InsnView>::empty());
        assert(p.state().cursors =~= Seq::<CursorTypeView>::empty());
        p
    }

    /// Appends an instruction.
    pub fn emit_insn(&mut self, insn: Insn)
        ensures
            final(self).state() == emitted(old(self).state(), insn@),
            final(self).result_columns == old(self).result_columns,
            final(self).table_references == old(self).table_references,
            final(self).index_experimental == old(self).index_experimental,
    {
        let ghost i = insn@;
        self.insns.push(insn);
        assert(self.state().insns =~= old(self).state().insns.push(i));
    }

    /// Allocates one register.
    pub fn alloc_register(&mut self) -> (reg: usize)
        requires
            old(self).next_free_register < usize::MAX,
        ensures
            reg == old(self).next_free_register,
            final(self).state() == with_registers(old(self).state(), 1),
            final(self).result_columns == old(self).result_columns,
            final(self).table_references == old(self).table_references,
            final(self).index_experimental == old(self).index_experimental,
    {
        let reg = self.next_free_register;
        self.next_free_register = self.next_free_register + 1;
        reg
    }

    /// Allocates `amount` consecutive registers and returns the first.
    pub fn alloc_registers(&mut self, amount: usize) -> (reg: usize)
        requires
            old(self).next_free_register + amount <= usize::MAX,
        ensures
            reg == old(self).next_free_register,
            final(self).state() == with_registers(old(self).state(), amount as int),
            final(self).result_columns == old(self).result_columns,
            final(self).table_references == old(self).table_references,
            final(self).index_experimental == old(self).index_experimental,
    {
        let reg = self.next_free_register;
        self.next_free_register = self.next_free_register + amount;
        reg
    }

    /// Allocates a new, unresolved, label.
    pub fn allocate_label(&mut self) -> (label: BranchOffset)
        ensures
            label == next_label(old(self).state()),
            label matches BranchOffset::Label(n) && n == old(self).state().labels.len(),
            final(self).state() == with_label(old(self).state()),
            final(self).result_columns == old(self).result_columns,
            final(self).table_references == old(self).table_references,
            final(self).index_experimental == old(self).index_experimental,
    {
        let n = self.label_to_resolved_offset.len();
        self.label_to_resolved_offset.push(None);
        BranchOffset::Label(n)
    }

    /// Resolves `label` to the offset of the next instruction to be emitted.
    pub fn preassign_label_to_next_insn(&mut self, label: BranchOffset)
        requires
            label matches BranchOffset::Label(n) && n < old(self).state().labels.len(),
        ensures
            final(self).state() == resolved(old(self).state(), label),
            final(self).result_columns == old(self).result_columns,
            final(self).table_references == old(self).table_references,
            final(self).index_experimental == old(self).index_experimental,
    {
        if let BranchOffset::Label(n) = label {
            let offset = self.insns.len();
            self.label_to_resolved_offset.set(n, Some(offset));
        }
    }

    /// Allocates a cursor of type `cursor_type` and returns its id.
    pub fn alloc_cursor_id(&mut self, cursor_type: CursorType) -> (id: usize)
        ensures
            id == old(self).state().cursors.len(),
            final(self).state() == with_cursor(old(self).state(), cursor_type@),
            final(self).result_columns == old(self).result_columns,
            final(self).table_references == old(self).table_references,
            final(self).index_experimental == old(self).index_experimental,
    {
        let ghost c = cursor_type@;
        let id = self.cursor_ref.len();
        self.cursor_ref.push(cursor_type);
        assert(self.state().cursors =~= old(self).state().cursors.push(c));
        id
    }

    /// Closes the program: it halts after the body, and its entry point
    /// opens a transaction of the given mode.
    pub fn epilogue(&mut self, txn_mode: TransactionMode)
        ensures
            final(self).state() == after_epilogue(old(self).state(), txn_mode),
            final(self).result_columns == old(self).result_columns,
            final(self).table_references == old(self).table_references,
            final(self).index_experimental == old(self).index_experimental,
    {
        self.emit_insn(Insn::Halt { err_code: 0 });
        match txn_mode {
            TransactionMode::Read => self.emit_insn(Insn::Transaction { write: false }),
            TransactionMode::Write => self.emit_insn(Insn::Transaction { write: true }),
        }
    }
}

} // verus!
