//! LCIR → FLUX bytecode emitter.
//!
//! Translates the flat A-normal form into the 43-opcode FLUX stack VM.
//! Memory layout:
//!   0–31   : constants
//!   32–127 : state variables
//!   128–223: temporal history buffers
//!   224–255: scratch / locals
//!
//! A variable lives in the slot that the program's slot map gives it. The value
//! of a variable without a slot stays on the stack until it is stored or
//! asserted.

use crate::binary64;
use crate::binary64::Real;
use crate::cir::CirType;
use crate::cir::ConstValue;
use crate::cir::RealLiteral;
use crate::cir::TypeKind;
use crate::cir::VarId;
use crate::error;
use crate::error::GuardError;
use crate::error::GuardErrorView;
use crate::error::Result;
use crate::error::Span;
use crate::error::SpanView;
use crate::flux;
use crate::flux::Bytecode;
use crate::flux::Instruction;
use crate::flux::InstructionView;
use crate::flux::Metadata;
use crate::flux::Opcode;
use crate::lcir;
use crate::lcir::AtomicOp;
use crate::lcir::BasicBlock;
use crate::lcir::BlockId;
use crate::lcir::BlockView;
use crate::lcir::HaltReason;
use crate::lcir::HaltReasonView;
use crate::lcir::LcirProgram;
use crate::lcir::ProgramView;
use crate::lcir::Stmt;
use crate::lcir::StmtView;
use crate::lcir::Terminator;
use crate::lcir::TerminatorView;
use crate::table;
use crate::table::Table;
use crate::text;
use vstd::prelude::*;

verus! {

// ---------------------------------------------------------------------------
// The code of a program
// ---------------------------------------------------------------------------

/// An instruction without operands.
pub open spec fn plain(op: Opcode) -> InstructionView {
    flux::bare(op, Seq::empty())
}

/// An instruction on a memory slot.
pub open spec fn on_slot(op: Opcode, slot: u8) -> InstructionView {
    flux::bare(op, seq![binary64::real_of_int(slot as int)])
}

/// An instruction that pushes a number.
pub open spec fn push(value: Real) -> InstructionView {
    flux::bare(Opcode::Push, seq![value])
}

/// The slot that a variable is loaded from: the one that the slot map gives it,
/// or else the low eight bits of its number.
pub open spec fn slot_of(slots: Seq<(u32, u8)>, var: VarId) -> u8 {
    match table::lookup(slots, var.0) {
        Some(slot) => slot,
        None => (var.0 % 256) as u8,
    }
}

/// An instruction that loads a variable.
pub open spec fn load(slots: Seq<(u32, u8)>, var: VarId) -> InstructionView {
    on_slot(Opcode::Load, slot_of(slots, var))
}

/// What puts the value of a variable on the stack: a load from its slot. The
/// value of a variable without a slot is there already.
pub open spec fn fetch(slots: Seq<(u32, u8)>, var: VarId) -> Seq<InstructionView> {
    match table::lookup(slots, var.0) {
        Some(slot) => seq![on_slot(Opcode::Load, slot)],
        None => Seq::empty(),
    }
}

/// What keeps the value on the stack for a variable: a store to its slot. For a
/// variable without a slot it stays there.
pub open spec fn keep(slots: Seq<(u32, u8)>, var: VarId) -> Seq<InstructionView> {
    match table::lookup(slots, var.0) {
        Some(slot) => seq![on_slot(Opcode::Store, slot)],
        None => Seq::empty(),
    }
}

/// The number that stands for a constant.
pub open spec fn number(c: ConstValue) -> Real {
    match c {
        ConstValue::Real(v) => v.value,
        ConstValue::Integer(v) => binary64::real_of_int(v as int),
        ConstValue::Bool(b) => binary64::real_of_int(
            if b {
                1
            } else {
                0
            },
        ),
    }
}

/// Two loads and an operation.
pub open spec fn on_two(slots: Seq<(u32, u8)>, a: VarId, b: VarId, op: Opcode) -> Seq<
    InstructionView,
> {
    seq![load(slots, a), load(slots, b), plain(op)]
}

/// The slots that the operation reads exist.
pub open spec fn addressable(op: AtomicOp) -> bool {
    match op {
        AtomicOp::Old { buffer, depth } => buffer + depth % 256 <= 255,
        AtomicOp::RateOf { buffer, dt } => buffer < 255,
        AtomicOp::Delta { buffer } => buffer < 255,
        _ => true,
    }
}

/// The code of an operation.
pub open spec fn op_code(slots: Seq<(u32, u8)>, op: AtomicOp) -> Seq<InstructionView> {
    match op {
        AtomicOp::Const(c) => seq![push(number(c))],
        AtomicOp::Neg(a) => seq![
            load(slots, a),
            plain(Opcode::Push),
            push(binary64::real_of_int(-1)),
            plain(Opcode::Mul),
        ],
        AtomicOp::Abs(a) => seq![load(slots, a), plain(Opcode::Pabs)],
        AtomicOp::Not(a) => seq![load(slots, a), plain(Opcode::Not)],
        AtomicOp::Add(a, b) => on_two(slots, a, b, Opcode::Add),
        AtomicOp::Sub(a, b) => on_two(slots, a, b, Opcode::Sub),
        AtomicOp::Mul(a, b) => on_two(slots, a, b, Opcode::Mul),
        AtomicOp::Div(a, b) => on_two(slots, a, b, Opcode::Div),
        AtomicOp::Mod(a, b) => on_two(slots, a, b, Opcode::Mod),
        AtomicOp::Eq(a, b) => on_two(slots, a, b, Opcode::Eq),
        AtomicOp::Neq(a, b) => on_two(slots, a, b, Opcode::Neq),
        AtomicOp::Lt(a, b) => on_two(slots, a, b, Opcode::Lt),
        AtomicOp::Gt(a, b) => on_two(slots, a, b, Opcode::Gt),
        AtomicOp::Lte(a, b) => on_two(slots, a, b, Opcode::Lte),
        AtomicOp::Gte(a, b) => on_two(slots, a, b, Opcode::Gte),
        AtomicOp::And(a, b) => on_two(slots, a, b, Opcode::And),
        AtomicOp::Or(a, b) => on_two(slots, a, b, Opcode::Or),
        AtomicOp::Implies(a, b) => seq![
            load(slots, a),
            plain(Opcode::Not),
            load(slots, b),
            plain(Opcode::Or),
        ],
        AtomicOp::LoadSlot(slot) => seq![on_slot(Opcode::Load, slot)],
        AtomicOp::Old { buffer, depth } => seq![
            on_slot(Opcode::Load, (buffer + depth % 256) as u8),
        ],
        AtomicOp::RateOf { buffer, dt } => seq![
            on_slot(Opcode::Load, buffer),
            on_slot(Opcode::Load, (buffer + 1) as u8),
            plain(Opcode::Sub),
            push(dt),
            plain(Opcode::Div),
        ],
        AtomicOp::Delta { buffer } => seq![
            on_slot(Opcode::Load, buffer),
            on_slot(Opcode::Load, (buffer + 1) as u8),
            plain(Opcode::Sub),
        ],
    }
}

/// What puts the value of a state variable on the stack.
pub open spec fn state_code(slot: u8, kind: TypeKind) -> Seq<InstructionView> {
    if kind is Integer {
        seq![on_slot(Opcode::Load, slot), plain(Opcode::Cast)]
    } else {
        seq![on_slot(Opcode::Load, slot)]
    }
}

/// The code of a statement.
pub open spec fn stmt_code(slots: Seq<(u32, u8)>, stmt: StmtView) -> Seq<InstructionView> {
    match stmt {
        StmtView::Assign { dest, op, span } => op_code(slots, op) + keep(slots, dest),
        StmtView::LoadState { dest, slot, ty, span } => state_code(slot, ty.kind) + keep(
            slots,
            dest,
        ),
        StmtView::Store { src, slot, span } => fetch(slots, src) + seq![
            on_slot(Opcode::Store, slot),
        ],
        StmtView::PushConst { value, span } => seq![push(number(value))],
        StmtView::Pop { dest, ty, span } => match table::lookup(slots, dest.0) {
            Some(slot) => seq![on_slot(Opcode::Store, slot)],
            None => seq![plain(Opcode::Pop)],
        },
        StmtView::Assert { cond, invariant_name, span } => fetch(slots, cond) + seq![
            InstructionView {
                opcode: Opcode::Assert,
                operands: Seq::empty(),
                label: Some(invariant_name),
                source_location: Some(span.text()),
            },
        ],
        StmtView::Trace { label, span } => seq![
            InstructionView {
                opcode: Opcode::Trace,
                operands: Seq::empty(),
                label: Some(label),
                source_location: Some(span.text()),
            },
        ],
    }
}

/// The code of statements, one after the other.
pub open spec fn stmts_code(slots: Seq<(u32, u8)>, stmts: Seq<StmtView>) -> Seq<InstructionView>
    decreases stmts.len(),
{
    if stmts.len() == 0 {
        Seq::empty()
    } else {
        stmts_code(slots, stmts.drop_last()) + stmt_code(slots, stmts.last())
    }
}

/// The code of a terminator, given the operand for each target.
pub open spec fn terminator_code(
    slots: Seq<(u32, u8)>,
    terminator: TerminatorView,
    target: spec_fn(BlockId) -> Real,
) -> Seq<InstructionView> {
    match terminator {
        TerminatorView::Jump(t) => seq![flux::bare(Opcode::Jump, seq![target(t)])],
        TerminatorView::Branch { cond, then_target, else_target } => seq![
            load(slots, cond),
            flux::bare(Opcode::Branch, seq![target(else_target)]),
            flux::bare(Opcode::Jump, seq![target(then_target)]),
        ],
        TerminatorView::Halt { reason } => match reason {
            HaltReasonView::ConstraintViolation { invariant: name } => seq![
                InstructionView {
                    opcode: Opcode::Halt,
                    operands: Seq::empty(),
                    label: Some("violation:"@ + name),
                    source_location: None,
                },
            ],
            HaltReasonView::Normal => seq![plain(Opcode::Halt)],
        },
        TerminatorView::Return => seq![plain(Opcode::Return)],
    }
}

/// The code of a block.
pub open spec fn block_code(
    slots: Seq<(u32, u8)>,
    block: BlockView,
    target: spec_fn(BlockId) -> Real,
) -> Seq<InstructionView> {
    stmts_code(slots, block.stmts) + terminator_code(slots, block.terminator, target)
}

/// The code of the first `n` blocks.
pub open spec fn blocks_code(
    slots: Seq<(u32, u8)>,
    blocks: Seq<BlockView>,
    target: spec_fn(BlockId) -> Real,
    n: nat,
) -> Seq<InstructionView>
    decreases n,
{
    if n == 0 {
        Seq::empty()
    } else {
        blocks_code(slots, blocks, target, (n - 1) as nat) + block_code(
            slots,
            blocks[n - 1],
            target,
        )
    }
}

/// The operand that stands for a target until its block is placed.
pub open spec fn unplaced() -> spec_fn(BlockId) -> Real {
    |t: BlockId| binary64::real_of_int(0)
}

/// The number of instructions of the first `n` blocks.
pub open spec fn code_len(slots: Seq<(u32, u8)>, blocks: Seq<BlockView>, n: nat) -> nat {
    blocks_code(slots, blocks, unplaced(), n).len()
}

/// Where the first `n` blocks begin, by their numbers. Of blocks with the same
/// number the last one counts.
pub open spec fn starts(slots: Seq<(u32, u8)>, blocks: Seq<BlockView>, n: nat) -> Seq<(u32, usize)>
    decreases n,
{
    if n == 0 {
        Seq::empty()
    } else {
        table::put(
            starts(slots, blocks, (n - 1) as nat),
            blocks[n - 1].id.0,
            code_len(slots, blocks, (n - 1) as nat) as usize,
        )
    }
}

/// The operand for each target: where its block begins.
pub open spec fn placed(slots: Seq<(u32, u8)>, blocks: Seq<BlockView>) -> spec_fn(BlockId) -> Real {
    |t: BlockId|
        binary64::real_of_int(table::lookup(starts(slots, blocks, blocks.len()), t.0)->0 as int)
}

/// The targets of a terminator in the order of its code.
pub open spec fn terminator_targets(terminator: TerminatorView) -> Seq<BlockId> {
    match terminator {
        TerminatorView::Jump(t) => seq![t],
        TerminatorView::Branch { cond, then_target, else_target } => seq![
            else_target,
            then_target,
        ],
        _ => Seq::empty(),
    }
}

/// The targets of the first `n` blocks in the order of the code.
pub open spec fn targets(blocks: Seq<BlockView>, n: nat) -> Seq<BlockId>
    decreases n,
{
    if n == 0 {
        Seq::empty()
    } else {
        targets(blocks, (n - 1) as nat) + terminator_targets(blocks[n - 1].terminator)
    }
}

/// The first target from `from` on that is not in the table.
pub open spec fn first_unknown(
    known: Seq<(u32, usize)>,
    wanted: Seq<BlockId>,
    from: int,
) -> Option<BlockId>
    decreases wanted.len() - from,
{
    if from < 0 || from >= wanted.len() {
        None
    } else if table::lookup(known, wanted[from].0) is None {
        Some(wanted[from])
    } else {
        first_unknown(known, wanted, from + 1)
    }
}

/// The code, with a final `Halt` where it does not end in one.
pub open spec fn halting(code: Seq<InstructionView>) -> Seq<InstructionView> {
    if code.len() > 0 && code.last().opcode == Opcode::Halt {
        code
    } else {
        code.push(plain(Opcode::Halt))
    }
}

/// The code of a program before it is validated.
pub open spec fn program_code(p: ProgramView) -> Seq<InstructionView> {
    halting(blocks_code(p.slot_map, p.blocks, placed(p.slot_map, p.blocks), p.blocks.len()))
}

/// The target that makes code generation fail, if there is one.
pub open spec fn missing_block(p: ProgramView) -> Option<BlockId> {
    first_unknown(
        starts(p.slot_map, p.blocks, p.blocks.len()),
        targets(p.blocks, p.blocks.len()),
        0,
    )
}

/// Compiles a program: the validated code, or what is wrong with it.
pub open spec fn compiled(p: ProgramView) -> core::result::Result<
    Seq<InstructionView>,
    GuardErrorView,
> {
    match missing_block(p) {
        Some(t) => Err(
            GuardErrorView::Codegen("unknown block BlockId("@ + text::decimal(t.0 as nat) + ")"@),
        ),
        None => match flux::complaint(flux::words(program_code(p))) {
            Some(complaint) => Err(
                GuardErrorView::Validation(
                    "bytecode validation failed: "@ + ("validation error: "@ + complaint),
                ),
            ),
            None => Ok(program_code(p)),
        },
    }
}

/// Every slot that the program reads exists.
pub open spec fn all_addressable(p: ProgramView) -> bool {
    forall|i: int, j: int|
        0 <= i < p.blocks.len() && 0 <= j < p.blocks[i].stmts.len() ==> stmt_addressable(
            #[trigger] p.blocks[i].stmts[j],
        )
}

/// Every slot that the statement reads exists.
pub open spec fn stmt_addressable(stmt: StmtView) -> bool {
    stmt matches StmtView::Assign { dest, op, span } ==> addressable(op)
}

// ---------------------------------------------------------------------------
// Code generation
// ---------------------------------------------------------------------------

/// Code generation context.
pub struct CodegenCtx {
    pub bytecode: Bytecode,
    /// Map from the number of an LCIR block to an instruction offset.
    pub block_offsets: Table<usize>,
    /// Patch list for forward jumps: (instruction_index, target_block).
    pub jump_patches: Vec<(usize, BlockId)>,
    /// Current source span for metadata.
    pub current_span: Span,
}

impl CodegenCtx {
    /// The state before any code.
    pub fn new() -> (ctx: Self)
        ensures
            ctx.bytecode@ == Seq::<InstructionView>::empty(),
            ctx.block_offsets@ == Seq::<(u32, usize)>::empty(),
            ctx.jump_patches@ == Seq::<(usize, BlockId)>::empty(),
            ctx.current_span@ == error::point_span("<codegen>"@, 0, 0),
    {
        CodegenCtx {
            bytecode: Bytecode::new(),
            block_offsets: Table::new(),
            jump_patches: Vec::new(),
            current_span: Span::new("<codegen>", 0, 0),
        }
    }

    /// Only the code differs from the state before.
    pub open spec fn same_links(self, before: CodegenCtx) -> bool {
        &&& self.block_offsets == before.block_offsets
        &&& self.jump_patches == before.jump_patches
    }

    /// Appends an instruction.
    pub fn emit(&mut self, inst: Instruction)
        ensures
            final(self).bytecode@ == old(self).bytecode@.push(inst@),
            final(self).same_links(*old(self)),
            final(self).current_span == old(self).current_span,
    {
        self.bytecode.push(inst);
    }

    /// Appends an instruction without operands.
    pub fn emit_op(&mut self, op: Opcode)
        ensures
            final(self).bytecode@ == old(self).bytecode@.push(plain(op)),
            final(self).same_links(*old(self)),
            final(self).current_span == old(self).current_span,
    {
        self.bytecode.push(Instruction::new(op));
    }

    /// Appends an instruction on a memory slot.
    pub fn emit_op_slot(&mut self, op: Opcode, slot: u8)
        ensures
            final(self).bytecode@ == old(self).bytecode@.push(on_slot(op, slot)),
            final(self).same_links(*old(self)),
            final(self).current_span == old(self).current_span,
    {
        let operands = vec![Real::from_u64(slot as u64)];
        assert(operands@ =~= seq![binary64::real_of_int(slot as int)]);
        self.bytecode.push(Instruction::with_operands(op, operands));
    }

    /// Appends an instruction that pushes a number.
    pub fn emit_push(&mut self, value: Real)
        ensures
            final(self).bytecode@ == old(self).bytecode@.push(push(value)),
            final(self).same_links(*old(self)),
            final(self).current_span == old(self).current_span,
    {
        let operands = vec![value];
        assert(operands@ =~= seq![value]);
        self.bytecode.push(Instruction::with_operands(Opcode::Push, operands));
    }

    /// The number of instructions so far.
    pub fn here(&self) -> (n: usize)
        ensures
            n == self.bytecode@.len(),
    {
        self.bytecode.instructions.len()
    }

    /// Appends an instruction that loads a variable.
    fn emit_load(&mut self, slots: &Table<u8>, var: VarId)
        ensures
            final(self).bytecode@ == old(self).bytecode@.push(load(slots@, var)),
            final(self).same_links(*old(self)),
            final(self).current_span == old(self).current_span,
    {
        let slot: u8 = match slots.get(var.0) {
            Some(slot) => *slot,
            None => (var.0 % 256) as u8,
        };
        self.emit_op_slot(Opcode::Load, slot);
    }

    /// Appends what puts the value of a variable on the stack.
    fn emit_fetch(&mut self, slots: &Table<u8>, var: VarId)
        ensures
            final(self).bytecode@ == old(self).bytecode@ + fetch(slots@, var),
            final(self).same_links(*old(self)),
            final(self).current_span == old(self).current_span,
    {
        if let Some(slot) = slots.get(var.0) {
            self.emit_op_slot(Opcode::Load, *slot);
        }
        assert(self.bytecode@ =~= old(self).bytecode@ + fetch(slots@, var));
    }

    /// Appends what keeps the value on the stack for a variable.
    fn emit_keep(&mut self, slots: &Table<u8>, var: VarId)
        ensures
            final(self).bytecode@ == old(self).bytecode@ + keep(slots@, var),
            final(self).same_links(*old(self)),
            final(self).current_span == old(self).current_span,
    {
        if let Some(slot) = slots.get(var.0) {
            self.emit_op_slot(Opcode::Store, *slot);
        }
        assert(self.bytecode@ =~= old(self).bytecode@ + keep(slots@, var));
    }

    /// Appends two loads and an operation.
    fn emit_on_two(&mut self, slots: &Table<u8>, a: VarId, b: VarId, op: Opcode)
        ensures
            final(self).bytecode@ == old(self).bytecode@ + on_two(slots@, a, b, op),
            final(self).same_links(*old(self)),
            final(self).current_span == old(self).current_span,
    {
        self.emit_load(slots, a);
        self.emit_load(slots, b);
        self.emit_op(op);
        assert(self.bytecode@ =~= old(self).bytecode@ + on_two(slots@, a, b, op));
    }
}

/// The number that stands for a constant.
fn constant_number(c: &ConstValue) -> (r: Real)
    ensures
        r == number(*c),
{
    match c {
        ConstValue::Real(v) => v.value,
        ConstValue::Integer(v) => Real::from_i64(*v),
        ConstValue::Bool(b) => Real::from_i64(
            if *b {
                1
            } else {
                0
            },
        ),
    }
}

/// Appends the code of an operation.
fn gen_atomic_op(ctx: &mut CodegenCtx, slots: &Table<u8>, op: &AtomicOp)
    requires
        addressable(*op),
    ensures
        final(ctx).bytecode@ == old(ctx).bytecode@ + op_code(slots@, *op),
        final(ctx).same_links(*old(ctx)),
        final(ctx).current_span == old(ctx).current_span,
{
    let ghost before = ctx.bytecode@;
    match op {
        AtomicOp::Const(c) => {
            ctx.emit_push(constant_number(c));
            assert(ctx.bytecode@ =~= before + op_code(slots@, *op));
        },
        AtomicOp::Neg(a) => {
            ctx.emit_load(slots, *a);
            ctx.emit_op(Opcode::Push);
            ctx.emit_push(Real::from_i64(-1));
            ctx.emit_op(Opcode::Mul);
            assert(ctx.bytecode@ =~= before + op_code(slots@, *op));
        },
        AtomicOp::Abs(a) => {
            ctx.emit_load(slots, *a);
            ctx.emit_op(Opcode::Pabs);
            assert(ctx.bytecode@ =~= before + op_code(slots@, *op));
        },
        AtomicOp::Not(a) => {
            ctx.emit_load(slots, *a);
            ctx.emit_op(Opcode::Not);
            assert(ctx.bytecode@ =~= before + op_code(slots@, *op));
        },
        AtomicOp::Add(a, b) => ctx.emit_on_two(slots, *a, *b, Opcode::Add),
        AtomicOp::Sub(a, b) => ctx.emit_on_two(slots, *a, *b, Opcode::Sub),
        AtomicOp::Mul(a, b) => ctx.emit_on_two(slots, *a, *b, Opcode::Mul),
        AtomicOp::Div(a, b) => ctx.emit_on_two(slots, *a, *b, Opcode::Div),
        AtomicOp::Mod(a, b) => ctx.emit_on_two(slots, *a, *b, Opcode::Mod),
        AtomicOp::Eq(a, b) => ctx.emit_on_two(slots, *a, *b, Opcode::Eq),
        AtomicOp::Neq(a, b) => ctx.emit_on_two(slots, *a, *b, Opcode::Neq),
        AtomicOp::Lt(a, b) => ctx.emit_on_two(slots, *a, *b, Opcode::Lt),
        AtomicOp::Gt(a, b) => ctx.emit_on_two(slots, *a, *b, Opcode::Gt),
        AtomicOp::Lte(a, b) => ctx.emit_on_two(slots, *a, *b, Opcode::Lte),
        AtomicOp::Gte(a, b) => ctx.emit_on_two(slots, *a, *b, Opcode::Gte),
        AtomicOp::And(a, b) => ctx.emit_on_two(slots, *a, *b, Opcode::And),
        AtomicOp::Or(a, b) => ctx.emit_on_two(slots, *a, *b, Opcode::Or),
        AtomicOp::Implies(a, b) => {
            // a → b  ≡  ¬a ∨ b
            ctx.emit_load(slots, *a);
            ctx.emit_op(Opcode::Not);
            ctx.emit_load(slots, *b);
            ctx.emit_op(Opcode::Or);
            assert(ctx.bytecode@ =~= before + op_code(slots@, *op));
        },
        AtomicOp::LoadSlot(slot) => {
            ctx.emit_op_slot(Opcode::Load, *slot);
            assert(ctx.bytecode@ =~= before + op_code(slots@, *op));
        },
        AtomicOp::Old { buffer, depth } => {
            // Load from history buffer: buffer slot + depth offset
            let slot: u8 = *buffer + (*depth % 256) as u8;
            ctx.emit_op_slot(Opcode::Load, slot);
            assert(ctx.bytecode@ =~= before + op_code(slots@, *op));
        },
        AtomicOp::RateOf { buffer, dt } => {
            // (current - old) / dt
            ctx.emit_op_slot(Opcode::Load, *buffer);
            ctx.emit_op_slot(Opcode::Load, *buffer + 1);
            ctx.emit_op(Opcode::Sub);
            ctx.emit_push(*dt);
            ctx.emit_op(Opcode::Div);
            assert(ctx.bytecode@ =~= before + op_code(slots@, *op));
        },
        AtomicOp::Delta { buffer } => {
            ctx.emit_op_slot(Opcode::Load, *buffer);
            ctx.emit_op_slot(Opcode::Load, *buffer + 1);
            ctx.emit_op(Opcode::Sub);
            assert(ctx.bytecode@ =~= before + op_code(slots@, *op));
        },
    }
}

/// The span of a statement.
pub open spec fn span_of(stmt: StmtView) -> SpanView {
    match stmt {
        StmtView::Assign { dest, op, span } => span,
        StmtView::LoadState { dest, slot, ty, span } => span,
        StmtView::Store { src, slot, span } => span,
        StmtView::PushConst { value, span } => span,
        StmtView::Pop { dest, ty, span } => span,
        StmtView::Assert { cond, invariant_name, span } => span,
        StmtView::Trace { label, span } => span,
    }
}

/// Appends the code of a statement.
fn gen_stmt(ctx: &mut CodegenCtx, slots: &Table<u8>, stmt: &Stmt)
    requires
        stmt_addressable(stmt@),
    ensures
        final(ctx).bytecode@ == old(ctx).bytecode@ + stmt_code(slots@, stmt@),
        final(ctx).same_links(*old(ctx)),
        final(ctx).current_span@ == span_of(stmt@),
{
    let ghost before = ctx.bytecode@;
    match stmt {
        Stmt::Assign { dest, op, span } => {
            ctx.current_span = span.clone();
            gen_atomic_op(ctx, slots, op);
            ctx.emit_keep(slots, *dest);
        },
        Stmt::LoadState { dest, slot, ty, span } => {
            ctx.current_span = span.clone();
            // Load state from its slot, optionally converting type.
            ctx.emit_op_slot(Opcode::Load, *slot);
            let integer = match ty.kind {
                TypeKind::Integer => true,
                _ => false,
            };
            if integer {
                // Cast real (on stack) to integer representation
                ctx.emit_op(Opcode::Cast);
            }
            ctx.emit_keep(slots, *dest);
        },
        Stmt::Store { src, slot, span } => {
            ctx.current_span = span.clone();
            ctx.emit_fetch(slots, *src);
            ctx.emit_op_slot(Opcode::Store, *slot);
        },
        Stmt::PushConst { value, span } => {
            ctx.current_span = span.clone();
            ctx.emit_push(constant_number(value));
        },
        Stmt::Pop { dest, ty: _, span } => {
            ctx.current_span = span.clone();
            // Pop top of stack into the variable's slot, if it has one.
            match slots.get(dest.0) {
                Some(slot) => ctx.emit_op_slot(Opcode::Store, *slot),
                None => ctx.emit_op(Opcode::Pop),
            }
        },
        Stmt::Assert { cond, invariant_name, span } => {
            ctx.current_span = span.clone();
            // Assert consumes the boolean result.
            ctx.emit_fetch(slots, *cond);
            gen_marker(ctx, Opcode::Assert, invariant_name, span);
        },
        Stmt::Trace { label, span } => {
            ctx.current_span = span.clone();
            gen_marker(ctx, Opcode::Trace, label, span);
        },
    }
    assert(ctx.bytecode@ =~= before + stmt_code(slots@, stmt@));
}

/// Appends an instruction with a label and a source location.
fn gen_marker(ctx: &mut CodegenCtx, op: Opcode, label: &String, span: &Span)
    ensures
        final(ctx).bytecode@ == old(ctx).bytecode@.push(
            (InstructionView {
                opcode: op,
                operands: Seq::empty(),
                label: Some(label@),
                source_location: Some(span@.text()),
            }),
        ),
        final(ctx).same_links(*old(ctx)),
        final(ctx).current_span == old(ctx).current_span,
{
    let metadata = Metadata {
        label: Some(label.clone()),
        source_location: Some(span.text()),
    };
    let operands: Vec<Real> = Vec::new();
    ctx.emit(Instruction::with_metadata(op, operands, metadata));
}

// ---------------------------------------------------------------------------
// Patches
// ---------------------------------------------------------------------------

/// The jumps of a terminator whose code begins at `at`: where each is, and where
/// it leads.
pub open spec fn terminator_patches(terminator: TerminatorView, at: int) -> Seq<(int, BlockId)> {
    match terminator {
        TerminatorView::Jump(t) => seq![(at, t)],
        TerminatorView::Branch { cond, then_target, else_target } => seq![
            (at + 1, else_target),
            (at + 2, then_target),
        ],
        _ => Seq::empty(),
    }
}

/// The jumps of the first `n` blocks.
pub open spec fn patches(slots: Seq<(u32, u8)>, blocks: Seq<BlockView>, n: nat) -> Seq<
    (int, BlockId),
>
    decreases n,
{
    if n == 0 {
        Seq::empty()
    } else {
        patches(slots, blocks, (n - 1) as nat) + terminator_patches(
            blocks[n - 1].terminator,
            (code_len(slots, blocks, (n - 1) as nat) + stmts_code(
                slots,
                blocks[n - 1].stmts,
            ).len()) as int,
        )
    }
}

/// The patch list of the code generator, with its offsets as integers.
pub open spec fn patch_view(list: Seq<(usize, BlockId)>) -> Seq<(int, BlockId)> {
    list.map_values(|p: (usize, BlockId)| (p.0 as int, p.1))
}

/// The operand of an instruction was replaced.
pub open spec fn patched(inst: InstructionView, operand: Real) -> InstructionView {
    InstructionView { operands: seq![operand], ..inst }
}

/// Code for two ways to resolve targets differs only in the operands of the
/// jumps, which come in order, one for each target.
pub proof fn lemma_patches(
    slots: Seq<(u32, u8)>,
    blocks: Seq<BlockView>,
    f: spec_fn(BlockId) -> Real,
    g: spec_fn(BlockId) -> Real,
    n: nat,
)
    ensures
        ({
            let (c, d) = (blocks_code(slots, blocks, f, n), blocks_code(slots, blocks, g, n));
            let list = patches(slots, blocks, n);
            &&& c.len() == d.len() == code_len(slots, blocks, n)
            &&& list.len() == targets(blocks, n).len()
            &&& forall|j: int|
                0 <= j < list.len() ==> {
                    let (at, t) = #[trigger] list[j];
                    &&& t == targets(blocks, n)[j]
                    &&& 0 <= at < c.len()
                    &&& c[at].operands == seq![f(t)]
                    &&& d[at] == patched(c[at], g(t))
                }
            &&& forall|i: int, j: int|
                0 <= i < j < list.len() ==> (#[trigger] list[i]).0 < (#[trigger] list[j]).0
            &&& forall|i: int|
                0 <= i < c.len() && (forall|j: int|
                    0 <= j < list.len() ==> (#[trigger] list[j]).0 != i) ==> #[trigger] d[i]
                    == c[i]
        }),
    decreases n,
{
    if n > 0 {
        let m = (n - 1) as nat;
        lemma_patches(slots, blocks, f, g, m);
        lemma_patches(slots, blocks, f, unplaced(), m);
        let block = blocks[n - 1];
        let (c, d) = (blocks_code(slots, blocks, f, n), blocks_code(slots, blocks, g, n));
        let (c0, d0) = (blocks_code(slots, blocks, f, m), blocks_code(slots, blocks, g, m));
        let (list, list0) = (patches(slots, blocks, n), patches(slots, blocks, m));
        let body = stmts_code(slots, block.stmts);
        let at = (code_len(slots, blocks, m) + body.len()) as int;
        let added = terminator_patches(block.terminator, at);
        assert(list =~= list0 + added);
        assert forall|j: int| 0 <= j < list.len() implies ({
            let (at, t) = #[trigger] list[j];
            &&& t == targets(blocks, n)[j]
            &&& 0 <= at < c.len()
            &&& c[at].operands == seq![f(t)]
            &&& d[at] == patched(c[at], g(t))
        }) by {
            if j < list0.len() {
                assert(list[j] == list0[j]);
                let at0 = list0[j].0;
                assert(c[at0] == c0[at0] && d[at0] == d0[at0]);
            } else {
                assert(list[j] == added[j - list0.len()]);
            }
        }
        assert forall|i: int, j: int| 0 <= i < j < list.len() implies (#[trigger] list[i]).0 < (
        #[trigger] list[j]).0 by {
            if i < list0.len() {
                assert(list[i] == list0[i]);
            } else {
                assert(list[i] == added[i - list0.len()]);
            }
            if j < list0.len() {
                assert(list[j] == list0[j]);
            } else {
                assert(list[j] == added[j - list0.len()]);
            }
        }
        assert forall|i: int|
            0 <= i < c.len() && (forall|j: int|
                0 <= j < list.len() ==> (#[trigger] list[j]).0 != i) implies #[trigger] d[i]
            == c[i] by {
            if i < c0.len() {
                assert forall|j: int| 0 <= j < list0.len() implies (#[trigger] list0[j]).0
                    != i by {
                    assert(list[j] == list0[j]);
                }
                assert(d0[i] == c0[i]);
            } else if i >= at {
                assert forall|j: int| 0 <= j < added.len() implies (#[trigger] added[j]).0
                    != i by {
                    assert(list[j + list0.len()] == added[j]);
                }
                match block.terminator {
                    TerminatorView::Jump(t) => {
                        assert(added[0].0 == at);
                    },
                    TerminatorView::Branch { cond, then_target, else_target } => {
                        assert(added[0].0 == at + 1 && added[1].0 == at + 2);
                    },
                    _ => {},
                }
            }
        }
    }
}

/// Between one jump and the next, the operands of jumps make no difference.
proof fn lemma_between(
    slots: Seq<(u32, u8)>,
    blocks: Seq<BlockView>,
    f: spec_fn(BlockId) -> Real,
    g: spec_fn(BlockId) -> Real,
    j: int,
    i: int,
)
    requires
        ({
            let list = patches(slots, blocks, blocks.len());
            &&& 0 <= j <= list.len()
            &&& 0 <= i < code_len(slots, blocks, blocks.len())
            &&& j > 0 ==> list[j - 1].0 < i
            &&& j < list.len() ==> i < list[j].0
        }),
    ensures
        blocks_code(slots, blocks, g, blocks.len())[i] == blocks_code(
            slots,
            blocks,
            f,
            blocks.len(),
        )[i],
{
    let list = patches(slots, blocks, blocks.len());
    lemma_patches(slots, blocks, f, g, blocks.len());
    assert forall|k: int| 0 <= k < list.len() implies (#[trigger] list[k]).0 != i by {
        if k < j {
            assert(list[k].0 <= list[j - 1].0);
        } else {
            assert(list[j].0 <= list[k].0);
        }
    }
}

/// Appends a jump instruction whose target is filled in later.
fn gen_jump(ctx: &mut CodegenCtx, op: Opcode, target: BlockId)
    ensures
        final(ctx).bytecode@ == old(ctx).bytecode@.push(
            flux::bare(op, seq![binary64::real_of_int(0)]),
        ),
        patch_view(final(ctx).jump_patches@) == patch_view(old(ctx).jump_patches@).push(
            (old(ctx).bytecode@.len() as int, target),
        ),
        final(ctx).block_offsets == old(ctx).block_offsets,
        final(ctx).current_span == old(ctx).current_span,
{
    let here: usize = ctx.here();
    ctx.jump_patches.push((here, target));
    let operands = vec![Real::from_i64(0)];  // patched later
    assert(operands@ =~= seq![binary64::real_of_int(0)]);
    ctx.emit(Instruction::with_operands(op, operands));
    assert(patch_view(ctx.jump_patches@) =~= patch_view(old(ctx).jump_patches@).push(
        (here as int, target),
    ));
}

/// Appends the code of a terminator, and notes its jumps.
fn gen_terminator(ctx: &mut CodegenCtx, slots: &Table<u8>, term: &Terminator)
    ensures
        final(ctx).bytecode@ == old(ctx).bytecode@ + terminator_code(slots@, term@, unplaced()),
        patch_view(final(ctx).jump_patches@) == patch_view(old(ctx).jump_patches@)
            + terminator_patches(term@, old(ctx).bytecode@.len() as int),
        final(ctx).block_offsets == old(ctx).block_offsets,
        final(ctx).current_span == old(ctx).current_span,
{
    let ghost before = *ctx;
    match term {
        Terminator::Jump(target) => {
            gen_jump(ctx, Opcode::Jump, *target);
        },
        Terminator::Branch { cond, then_target, else_target } => {
            // Load condition, branch if false (0) to else_target.
            ctx.emit_load(slots, *cond);
            gen_jump(ctx, Opcode::Branch, *else_target);
            // Fall through to then_target.
            gen_jump(ctx, Opcode::Jump, *then_target);
        },
        Terminator::Halt { reason } => match reason {
            HaltReason::ConstraintViolation { invariant: name } => {
                let mut label: String = "violation:".to_owned();
                label.push_str(name.as_str());
                let metadata = Metadata { label: Some(label), source_location: None };
                let operands: Vec<Real> = Vec::new();
                ctx.emit(Instruction::with_metadata(Opcode::Halt, operands, metadata));
            },
            HaltReason::Normal => {
                ctx.emit_op(Opcode::Halt);
            },
        },
        Terminator::Return => {
            ctx.emit_op(Opcode::Return);
        },
    }
    proof {
        assert(ctx.bytecode@ =~= before.bytecode@ + terminator_code(slots@, term@, unplaced()));
        assert(patch_view(ctx.jump_patches@) =~= patch_view(before.jump_patches@)
            + terminator_patches(term@, before.bytecode@.len() as int));
    }
}

/// Appends the code of a block.
fn gen_block(ctx: &mut CodegenCtx, slots: &Table<u8>, block: &BasicBlock)
    requires
        forall|j: int|
            0 <= j < block@.stmts.len() ==> stmt_addressable(#[trigger] block@.stmts[j]),
    ensures
        final(ctx).bytecode@ == old(ctx).bytecode@ + block_code(slots@, block@, unplaced()),
        patch_view(final(ctx).jump_patches@) == patch_view(old(ctx).jump_patches@)
            + terminator_patches(
            block@.terminator,
            (old(ctx).bytecode@.len() + stmts_code(slots@, block@.stmts).len()) as int,
        ),
        final(ctx).block_offsets == old(ctx).block_offsets,
{
    let ghost before = *ctx;
    let ghost stmts = block@.stmts;
    let count: usize = block.stmts.len();
    let mut i: usize = 0;
    assert(stmts.take(0) =~= Seq::empty());
    assert(before.bytecode@ + stmts_code(slots@, stmts.take(0)) =~= before.bytecode@);
    while i < count
        invariant
            i <= count == block.stmts@.len(),
            stmts == block@.stmts,
            forall|j: int|
                0 <= j < block@.stmts.len() ==> stmt_addressable(#[trigger] block@.stmts[j]),
            ctx.bytecode@ == before.bytecode@ + stmts_code(slots@, stmts.take(i as int)),
            ctx.same_links(before),
        decreases count - i,
    {
        let ghost so_far = stmts_code(slots@, stmts.take(i as int));
        assert(stmts[i as int] == block.stmts@[i as int]@);
        gen_stmt(ctx, slots, &block.stmts[i]);
        proof {
            let longer = stmts.take(i + 1);
            assert(longer.drop_last() =~= stmts.take(i as int));
            assert(longer.last() == stmts[i as int]);
            assert(before.bytecode@ + so_far + stmt_code(slots@, stmts[i as int]) =~= before.bytecode@ + (
            so_far + stmt_code(slots@, stmts[i as int])));
        }
        i += 1;
    }
    assert(stmts.take(count as int) =~= stmts);
    gen_terminator(ctx, slots, &block.terminator);
    proof {
        let (a, b) = (
            stmts_code(slots@, stmts),
            terminator_code(slots@, block@.terminator, unplaced()),
        );
        assert(before.bytecode@ + a + b =~= before.bytecode@ + (a + b));
    }
}

/// First pass: generates the blocks and records where they begin.
fn gen_blocks(program: &LcirProgram) -> (ctx: CodegenCtx)
    requires
        all_addressable(program@),
    ensures
        ({
            let (slots, blocks) = (program@.slot_map, program@.blocks);
            &&& ctx.bytecode@ == blocks_code(slots, blocks, unplaced(), blocks.len())
            &&& ctx.block_offsets@ == starts(slots, blocks, blocks.len())
            &&& patch_view(ctx.jump_patches@) == patches(slots, blocks, blocks.len())
        }),
{
    let ghost (slots, blocks) = (program@.slot_map, program@.blocks);
    let mut ctx = CodegenCtx::new();
    let count: usize = program.blocks.len();
    let mut i: usize = 0;
    assert(patch_view(ctx.jump_patches@) =~= patches(slots, blocks, 0));
    while i < count
        invariant
            i <= count == program.blocks@.len(),
            blocks == program@.blocks,
            slots == program@.slot_map,
            all_addressable(program@),
            ctx.bytecode@ == blocks_code(slots, blocks, unplaced(), i as nat),
            ctx.block_offsets@ == starts(slots, blocks, i as nat),
            patch_view(ctx.jump_patches@) == patches(slots, blocks, i as nat),
        decreases count - i,
    {
        let block = &program.blocks[i];
        assert(blocks[i as int] == block@);
        let here: usize = ctx.here();
        ctx.block_offsets.insert(block.id.0, here);
        assert forall|j: int| 0 <= j < block@.stmts.len() implies stmt_addressable(
            #[trigger] block@.stmts[j],
        ) by {
            assert(stmt_addressable(blocks[i as int].stmts[j]));
        }
        gen_block(&mut ctx, &program.slot_map, block);
        i += 1;
    }
    ctx
}

/// The error for a target that is no block.
fn unknown_block(target: BlockId) -> (e: GuardError)
    ensures
        e@ == GuardErrorView::Codegen(
            "unknown block BlockId("@ + text::decimal(target.0 as nat) + ")"@,
        ),
{
    let mut s: String = "unknown block BlockId(".to_owned();
    text::push_decimal(&mut s, target.0 as u64);
    s.push_str(")");
    GuardError::Codegen(s)
}

/// Every instruction has at most one operand.
pub open spec fn small(code: Seq<InstructionView>) -> bool {
    forall|i: int| 0 <= i < code.len() ==> (#[trigger] code[i]).operands.len() <= 1
}

/// An operation compiles to instructions with at most one operand.
proof fn lemma_op_small(slots: Seq<(u32, u8)>, op: AtomicOp)
    ensures
        small(op_code(slots, op)),
{
}

/// Code after code with at most one operand each.
proof fn lemma_small_joined(a: Seq<InstructionView>, b: Seq<InstructionView>)
    requires
        small(a),
        small(b),
    ensures
        small(a + b),
{
    assert forall|i: int| 0 <= i < (a + b).len() implies (#[trigger] (a + b)[i]).operands.len()
        <= 1 by {
        if i < a.len() {
            assert((a + b)[i] == a[i]);
        } else {
            assert((a + b)[i] == b[i - a.len()]);
        }
    }
}

/// A statement compiles to instructions with at most one operand.
proof fn lemma_stmt_small(slots: Seq<(u32, u8)>, stmt: StmtView)
    ensures
        small(stmt_code(slots, stmt)),
{
    if let StmtView::Assign { dest, op, span } = stmt {
        lemma_op_small(slots, op);
        lemma_small_joined(op_code(slots, op), keep(slots, dest));
    }
}

/// Statements compile to instructions with at most one operand.
proof fn lemma_stmts_small(slots: Seq<(u32, u8)>, stmts: Seq<StmtView>)
    ensures
        small(stmts_code(slots, stmts)),
    decreases stmts.len(),
{
    if stmts.len() > 0 {
        lemma_stmts_small(slots, stmts.drop_last());
        lemma_stmt_small(slots, stmts.last());
        lemma_small_joined(stmts_code(slots, stmts.drop_last()), stmt_code(slots, stmts.last()));
    }
}

/// Blocks compile to instructions with at most one operand.
proof fn lemma_small(
    slots: Seq<(u32, u8)>,
    blocks: Seq<BlockView>,
    f: spec_fn(BlockId) -> Real,
    n: nat,
)
    ensures
        small(blocks_code(slots, blocks, f, n)),
    decreases n,
{
    if n > 0 {
        lemma_small(slots, blocks, f, (n - 1) as nat);
        lemma_stmts_small(slots, blocks[n - 1].stmts);
    }
}

/// Second pass: fills in the jump targets.
fn link(ctx: &mut CodegenCtx, program: &LcirProgram) -> (r: Result<()>)
    requires
        ({
            let (slots, blocks) = (program@.slot_map, program@.blocks);
            &&& old(ctx).bytecode@ == blocks_code(slots, blocks, unplaced(), blocks.len())
            &&& old(ctx).block_offsets@ == starts(slots, blocks, blocks.len())
            &&& patch_view(old(ctx).jump_patches@) == patches(slots, blocks, blocks.len())
        }),
    ensures
        match r {
            Ok(_) => {
                &&& missing_block(program@) is None
                &&& final(ctx).bytecode@ == blocks_code(
                    program@.slot_map,
                    program@.blocks,
                    placed(program@.slot_map, program@.blocks),
                    program@.blocks.len(),
                )
            },
            Err(e) => missing_block(program@) matches Some(t) && e@ == GuardErrorView::Codegen(
                "unknown block BlockId("@ + text::decimal(t.0 as nat) + ")"@,
            ),
        },
{
    let ghost (slots, blocks) = (program@.slot_map, program@.blocks);
    let ghost known = starts(slots, blocks, blocks.len());
    let ghost wanted = targets(blocks, blocks.len());
    let ghost list = patches(slots, blocks, blocks.len());
    let ghost c = blocks_code(slots, blocks, unplaced(), blocks.len());
    let ghost d = blocks_code(slots, blocks, placed(slots, blocks), blocks.len());
    let count: usize = ctx.jump_patches.len();
    proof {
        lemma_patches(slots, blocks, unplaced(), placed(slots, blocks), blocks.len());
        assert(list.len() == count);
        assert forall|i: int|
            0 <= i < c.len() && (count > 0 ==> i < list[0].0) implies #[trigger] c[i] == d[i] by {
            lemma_between(slots, blocks, unplaced(), placed(slots, blocks), 0, i);
        }
    }
    let mut j: usize = 0;
    while j < count
        invariant
            j <= count == ctx.jump_patches@.len(),
            blocks == program@.blocks,
            slots == program@.slot_map,
            list == patches(slots, blocks, blocks.len()),
            patch_view(ctx.jump_patches@) == list,
            known == starts(slots, blocks, blocks.len()),
            wanted == targets(blocks, blocks.len()),
            ctx.block_offsets@ == known,
            c == blocks_code(slots, blocks, unplaced(), blocks.len()),
            d == blocks_code(slots, blocks, placed(slots, blocks), blocks.len()),
            ctx.bytecode@.len() == c.len(),
            first_unknown(known, wanted, 0) == first_unknown(known, wanted, j as int),
            forall|i: int|
                0 <= i < c.len() ==> #[trigger] ctx.bytecode@[i] == (if j < count && i
                    >= list[j as int].0 {
                    c[i]
                } else {
                    d[i]
                }),
        decreases count - j,
    {
        let (inst_idx, target) = ctx.jump_patches[j];
        let ghost at = inst_idx as int;
        proof {
            lemma_patches(slots, blocks, unplaced(), placed(slots, blocks), blocks.len());
            assert(list[j as int] == (at, target));
            assert(ctx.bytecode@[at] == c[at]);
        }
        let target_offset: usize = match ctx.block_offsets.get(target.0) {
            Some(offset) => *offset,
            None => {
                return Err(unknown_block(target));
            },
        };
        let operand = Real::from_u64(target_offset as u64);
        let ghost before = ctx.bytecode@;
        let ghost insts = ctx.bytecode.instructions@;
        // The first operand is the jump target.
        let inst = &mut ctx.bytecode.instructions[inst_idx];
        if inst.operands.len() == 0 {
            inst.operands.push(operand);
        } else {
            inst.operands.set(0, operand);
        }
        proof {
            let now = ctx.bytecode@;
            assert(insts[at]@ == c[at]);
            assert(now[at].operands =~= seq![operand]);
            assert(now[at] == d[at]);
            assert forall|i: int| 0 <= i < c.len() && i != at implies #[trigger] now[i]
                == before[i] by {
                assert(ctx.bytecode.instructions@[i] == insts[i]);
            }
            assert forall|i: int|
                at < i < c.len() && (j + 1 < count ==> i < list[j + 1].0) implies #[trigger] c[i]
                == d[i] by {
                lemma_between(slots, blocks, unplaced(), placed(slots, blocks), j + 1, i);
            }
            if j + 1 < count {
                assert(list[j as int].0 < list[j + 1].0);
            }
        }
        j += 1;
    }
    assert(ctx.bytecode@ =~= d);
    Ok(())
}

/// The code or the error, as views.
pub open spec fn bytecode_outcome(r: Result<Bytecode>) -> core::result::Result<
    Seq<InstructionView>,
    GuardErrorView,
> {
    match r {
        Ok(bytecode) => Ok(bytecode@),
        Err(e) => Err(e@),
    }
}

/// Compile an LCIR program to FLUX bytecode.
pub fn codegen(program: &LcirProgram) -> (r: Result<Bytecode>)
    requires
        all_addressable(program@),
    ensures
        bytecode_outcome(r) == compiled(program@),
        r matches Ok(bytecode) ==> flux::encodable(flux::words(bytecode@)),
{
    // First pass: record block offsets.
    let mut ctx = gen_blocks(program);
    // Second pass: patch forward jumps.
    match link(&mut ctx, program) {
        Ok(()) => {},
        Err(e) => {
            return Err(e);
        },
    }
    // Ensure program ends with Halt.
    let ghost linked = ctx.bytecode@;
    let count: usize = ctx.bytecode.instructions.len();
    let halts = count > 0 && match ctx.bytecode.instructions[count - 1].opcode {
        Opcode::Halt => true,
        _ => false,
    };
    if !halts {
        ctx.emit_op(Opcode::Halt);
    }
    proof {
        assert(count > 0 ==> linked.last() == ctx.bytecode.instructions@[count - 1]@);
        assert(ctx.bytecode@ == program_code(program@));
        lemma_small(
            program@.slot_map,
            program@.blocks,
            placed(program@.slot_map, program@.blocks),
            program@.blocks.len(),
        );
        let p = flux::words(ctx.bytecode@);
        assert forall|i: int| 0 <= i < p.len() implies (#[trigger] p[i]).1.len() <= 255 by {
            assert(ctx.bytecode@[i].operands.len() <= 1);
        }
    }
    match ctx.bytecode.validate() {
        Ok(()) => Ok(ctx.bytecode),
        Err(message) => {
            let mut s: String = "bytecode validation failed: ".to_owned();
            s.push_str(message.as_str());
            Err(GuardError::Validation(s))
        },
    }
}

// ---------------------------------------------------------------------------
// Laws
// ---------------------------------------------------------------------------

/// Code never runs off its end: it ends in `Halt`.
pub proof fn law_code_ends_in_halt(p: ProgramView)
    ensures
        program_code(p).len() > 0,
        program_code(p).last().opcode == Opcode::Halt,
{
}

/// More blocks leave the code of those before as it is.
proof fn lemma_code_prefix(
    slots: Seq<(u32, u8)>,
    blocks: Seq<BlockView>,
    f: spec_fn(BlockId) -> Real,
    m: nat,
    n: nat,
)
    requires
        m <= n,
    ensures
        blocks_code(slots, blocks, f, m).is_prefix_of(blocks_code(slots, blocks, f, n)),
    decreases n,
{
    if m < n {
        lemma_code_prefix(slots, blocks, f, m, (n - 1) as nat);
        let (a, b, c) = (
            blocks_code(slots, blocks, f, m),
            blocks_code(slots, blocks, f, (n - 1) as nat),
            blocks_code(slots, blocks, f, n),
        );
        assert(a =~= c.take(a.len() as int)) by {
            assert(a =~= b.take(a.len() as int));
        }
    }
}

/// The code of a block stands where the block begins.
pub proof fn law_block_code_is_in_place(p: ProgramView, k: int)
    requires
        0 <= k < p.blocks.len(),
    ensures
        ({
            let here = code_len(p.slot_map, p.blocks, k as nat) as int;
            let next = code_len(p.slot_map, p.blocks, (k + 1) as nat) as int;
            &&& 0 <= here < next <= program_code(p).len()
            &&& program_code(p).subrange(here, next) == block_code(p.slot_map, p.blocks[k],
                placed(p.slot_map, p.blocks),
            )
        }),
{
    let f = placed(p.slot_map, p.blocks);
    let n = p.blocks.len();
    lemma_patches(p.slot_map, p.blocks, unplaced(), f, k as nat);
    lemma_patches(p.slot_map, p.blocks, unplaced(), f, (k + 1) as nat);
    lemma_patches(p.slot_map, p.blocks, unplaced(), f, n);
    lemma_code_prefix(p.slot_map, p.blocks, f, (k + 1) as nat, n);
    let (here, next) = (
        code_len(p.slot_map, p.blocks, k as nat) as int,
        code_len(p.slot_map, p.blocks, (k + 1) as nat) as int,
    );
    let all = blocks_code(p.slot_map, p.blocks, f, n);
    let some = blocks_code(p.slot_map, p.blocks, f, (k + 1) as nat);
    assert(some == blocks_code(p.slot_map, p.blocks, f, k as nat) + block_code(
        p.slot_map,
        p.blocks[k],
        f,
    ));
    assert(some =~= all.take(next));
    let (part, code) = (
        program_code(p).subrange(here, next),
        block_code(p.slot_map, p.blocks[k], f),
    );
    assert forall|i: int| 0 <= i < code.len() implies #[trigger] part[i] == code[i] by {
        assert(some[here + i] == all.take(next)[here + i]);
    }
    assert(part =~= code);
}

/// The blocks are numbered by their place.
pub open spec fn numbered(blocks: Seq<BlockView>) -> bool {
    forall|i: int| 0 <= i < blocks.len() ==> (#[trigger] blocks[i]).id.0 == i
}

/// Where blocks are numbered by their place, the table of starts has each.
proof fn lemma_starts(slots: Seq<(u32, u8)>, blocks: Seq<BlockView>, n: nat)
    requires
        numbered(blocks),
        n <= blocks.len(),
    ensures
        starts(slots, blocks, n).len() == n,
        table::keys_distinct(starts(slots, blocks, n)),
        forall|i: int|
            0 <= i < n ==> #[trigger] starts(slots, blocks, n)[i] == (
                i as u32,
                code_len(slots, blocks, i as nat) as usize,
            ),
    decreases n,
{
    if n > 0 {
        lemma_starts(slots, blocks, (n - 1) as nat);
        let before = starts(slots, blocks, (n - 1) as nat);
        let id = blocks[n - 1].id.0;
        table::lemma_place_of(before, id);
        table::law_lookup_after_put(
            before,
            id,
            code_len(slots, blocks, (n - 1) as nat) as usize,
            0,
        );
    }
}

/// Where blocks are numbered by their place, a target that exists is known, and
/// its operand is the place of its block's first instruction.
pub proof fn law_jumps_lead_to_blocks(p: ProgramView, t: BlockId)
    requires
        numbered(p.blocks),
        t.0 < p.blocks.len(),
        program_code(p).len() <= usize::MAX,
    ensures
        table::lookup(starts(p.slot_map, p.blocks, p.blocks.len()), t.0) is Some,
        placed(p.slot_map, p.blocks)(t) == binary64::real_of_int(
            code_len(p.slot_map, p.blocks, t.0 as nat) as int,
        ),
        code_len(p.slot_map, p.blocks, t.0 as nat) < program_code(p).len(),
{
    let n = p.blocks.len();
    lemma_starts(p.slot_map, p.blocks, n);
    table::lemma_place_of_distinct(starts(p.slot_map, p.blocks, n), t.0 as int);
    law_block_code_is_in_place(p, t.0 as int);
}

/// The targets of blocks whose targets exist are among the blocks.
proof fn lemma_targets(p: ProgramView, n: nat)
    requires
        p.intact(),
        n <= p.blocks.len(),
    ensures
        forall|j: int|
            0 <= j < targets(p.blocks, n).len() ==> (#[trigger] targets(p.blocks, n)[j]).0
                < p.blocks.len(),
    decreases n,
{
    if n > 0 {
        lemma_targets(p, (n - 1) as nat);
        assert(lcir::targets_exist(p.blocks[n - 1].terminator, p.blocks.len()));
        let (all, before) = (targets(p.blocks, n), targets(p.blocks, (n - 1) as nat));
        assert forall|j: int| 0 <= j < all.len() implies (#[trigger] all[j]).0
            < p.blocks.len() by {
            if j < before.len() {
                assert(all[j] == before[j]);
            }
        }
    }
}

/// Where every target is known, none is the first unknown one.
proof fn lemma_all_known(known: Seq<(u32, usize)>, wanted: Seq<BlockId>, from: int)
    requires
        forall|j: int|
            0 <= j < wanted.len() ==> table::lookup(known, (#[trigger] wanted[j]).0) is Some,
        0 <= from <= wanted.len(),
    ensures
        first_unknown(known, wanted, from) is None,
    decreases wanted.len() - from,
{
    if from < wanted.len() {
        lemma_all_known(known, wanted, from + 1);
    }
}

/// The instruction jumps.
pub open spec fn jumps(inst: InstructionView) -> bool {
    flux::jump_name(inst.opcode.byte()) is Some
}

/// An operation does not jump.
proof fn lemma_op_does_not_jump(slots: Seq<(u32, u8)>, op: AtomicOp, i: int)
    requires
        0 <= i < op_code(slots, op).len(),
    ensures
        !jumps(op_code(slots, op)[i]),
{
}

/// A statement does not jump.
proof fn lemma_stmt_does_not_jump(slots: Seq<(u32, u8)>, stmt: StmtView, i: int)
    requires
        0 <= i < stmt_code(slots, stmt).len(),
    ensures
        !jumps(stmt_code(slots, stmt)[i]),
{
    match stmt {
        StmtView::Assign { dest, op, span } => {
            if i < op_code(slots, op).len() {
                lemma_op_does_not_jump(slots, op, i);
            }
        },
        _ => {},
    }
}

/// Statements do not jump.
proof fn lemma_stmts_do_not_jump(slots: Seq<(u32, u8)>, stmts: Seq<StmtView>)
    ensures
        forall|i: int|
            0 <= i < stmts_code(slots, stmts).len() ==> !jumps(
                #[trigger] stmts_code(slots, stmts)[i],
            ),
    decreases stmts.len(),
{
    if stmts.len() > 0 {
        lemma_stmts_do_not_jump(slots, stmts.drop_last());
        let (all, before) = (stmts_code(slots, stmts), stmts_code(slots, stmts.drop_last()));
        assert forall|i: int| 0 <= i < all.len() implies !jumps(#[trigger] all[i]) by {
            if i < before.len() {
                assert(all[i] == before[i]);
            } else {
                lemma_stmt_does_not_jump(slots, stmts.last(), i - before.len());
            }
        }
    }
}

/// Every jump leads to a target that exists.
proof fn lemma_jump_operands(p: ProgramView, f: spec_fn(BlockId) -> Real, n: nat, i: int)
    requires
        p.intact(),
        n <= p.blocks.len(),
        0 <= i < blocks_code(p.slot_map, p.blocks, f, n).len(),
        jumps(blocks_code(p.slot_map, p.blocks, f, n)[i]),
    ensures
        exists|t: BlockId|
            t.0 < p.blocks.len() && blocks_code(p.slot_map, p.blocks, f, n)[i].operands == seq![
                #[trigger] f(t),
            ],
    decreases n,
{
    let m = (n - 1) as nat;
    let before = blocks_code(p.slot_map, p.blocks, f, m);
    let block = p.blocks[n - 1];
    let body = stmts_code(p.slot_map, block.stmts);
    assert(lcir::targets_exist(block.terminator, p.blocks.len()));
    if i < before.len() {
        lemma_jump_operands(p, f, m, i);
    } else if i < before.len() + body.len() {
        lemma_stmts_do_not_jump(p.slot_map, block.stmts);
        assert(blocks_code(p.slot_map, p.blocks, f, n)[i] == body[i - before.len()]);
    } else {
        match block.terminator {
            TerminatorView::Jump(t) => {
                assert(blocks_code(p.slot_map, p.blocks, f, n)[i].operands == seq![f(t)]);
            },
            TerminatorView::Branch { cond, then_target, else_target } => {
                let k = i - before.len() - body.len();
                if k == 1 {
                    assert(blocks_code(p.slot_map, p.blocks, f, n)[i].operands == seq![
                        f(else_target),
                    ]);
                } else if k == 2 {
                    assert(blocks_code(p.slot_map, p.blocks, f, n)[i].operands == seq![
                        f(then_target),
                    ]);
                }
            },
            _ => {},
        }
    }
}

/// Where no jump is bad, there is no first bad one.
proof fn lemma_no_bad_jump(w: Seq<flux::Word>, from: int)
    requires
        0 <= from <= w.len(),
        forall|i: int| 0 <= i < w.len() ==> #[trigger] flux::bad_jump(w, i) is None,
    ensures
        flux::first_bad_jump(w, from) is None,
    decreases w.len() - from,
{
    if from < w.len() {
        assert(flux::bad_jump(w, from) is None);
        lemma_no_bad_jump(w, from + 1);
    }
}

/// Of a program whose targets exist and whose blocks are numbered by their
/// place, and whose offsets are exact as numbers, only one thing can be wrong
/// with the code: that the stack runs short when the instructions are gone
/// through in order.
pub proof fn law_only_the_stack_can_run_short(p: ProgramView)
    requires
        p.intact(),
        numbered(p.blocks),
        program_code(p).len() <= usize::MAX,
        program_code(p).len() <= 2 * binary64::BINADE,
    ensures
        missing_block(p) is None,
        flux::first_bad_jump(flux::words(program_code(p)), 0) is None,
        ({
            let w = flux::words(program_code(p));
            let low = flux::lowest(w, w.len());
            &&& low >= 0 ==> compiled(p) == Ok::<Seq<InstructionView>, GuardErrorView>(
                program_code(p),
            )
            &&& low < 0 ==> compiled(p) == Err::<Seq<InstructionView>, GuardErrorView>(
                GuardErrorView::Validation(
                    "bytecode validation failed: "@ + ("validation error: "@ + (
                    "stack underflow detected (minimum stack depth: "@ + text::signed_decimal(low)
                        + ")"@)),
                ),
            )
        }),
{
    let n = p.blocks.len();
    let f = placed(p.slot_map, p.blocks);
    let code = program_code(p);
    let w = flux::words(code);
    let wanted = targets(p.blocks, n);
    let known = starts(p.slot_map, p.blocks, n);
    lemma_targets(p, n);
    assert forall|j: int| 0 <= j < wanted.len() implies table::lookup(
        known,
        (#[trigger] wanted[j]).0,
    ) is Some by {
        law_jumps_lead_to_blocks(p, wanted[j]);
    }
    lemma_all_known(known, wanted, 0);
    assert forall|i: int| 0 <= i < w.len() implies #[trigger] flux::bad_jump(w, i) is None by {
        if jumps(code[i]) {
            assert(code[i] == blocks_code(p.slot_map, p.blocks, f, n)[i]);
            lemma_jump_operands(p, f, n, i);
            let t = choose|t: BlockId|
                t.0 < n && blocks_code(p.slot_map, p.blocks, f, n)[i].operands == seq![#[trigger] f(t)];
            law_jumps_lead_to_blocks(p, t);
            let here = code_len(p.slot_map, p.blocks, t.0 as nat);
            binary64::law_small_integers_are_exact(here);
            assert(w[i].1[0] == f(t).0);
        }
    }
    lemma_no_bad_jump(w, 0);
    law_code_ends_in_halt(p);
    assert(w.last().0 == code.last().opcode.byte());
}

/// The instruction pushes the number and does nothing else.
pub open spec fn pushes(inst: InstructionView, r: Real) -> bool {
    &&& inst.opcode == Opcode::Push
    &&& inst.operands == seq![r]
    &&& inst.label is None
    &&& inst.source_location is None
}

/// The code of a constant is one push. A real constant is pushed bit for bit, with
/// its sign. An integer is pushed as the real number nearest to it, which has its
/// sign, and truth values as one and zero.
pub proof fn law_constants_are_pushed(
    slots: Seq<(u32, u8)>,
    v: RealLiteral,
    n: i64,
    b: bool,
    span: SpanView,
)
    ensures
        ({
            let code = |c: ConstValue| op_code(slots, AtomicOp::Const(c));
            &&& code(ConstValue::Real(v)).len() == 1
            &&& pushes(code(ConstValue::Real(v))[0], Real(v.value.0))
            &&& code(ConstValue::Integer(n)).len() == 1
            &&& pushes(code(ConstValue::Integer(n))[0], binary64::real_of_int(n as int))
            &&& code(ConstValue::Bool(b)).len() == 1
            &&& pushes(
                code(ConstValue::Bool(b))[0],
                binary64::real_of_int(
                    if b {
                        1
                    } else {
                        0
                    },
                ),
            )
        }),
        ({
            let code = |value: ConstValue| stmt_code(slots, StmtView::PushConst { value, span });
            &&& code(ConstValue::Real(v)).len() == 1
            &&& pushes(code(ConstValue::Real(v))[0], Real(v.value.0))
            &&& code(ConstValue::Integer(n)).len() == 1
            &&& pushes(code(ConstValue::Integer(n))[0], binary64::real_of_int(n as int))
            &&& code(ConstValue::Bool(b)).len() == 1
            &&& pushes(
                code(ConstValue::Bool(b))[0],
                binary64::real_of_int(
                    if b {
                        1
                    } else {
                        0
                    },
                ),
            )
        }),
{
}

/// The place in the source in words: file, line and column of the start, line and
/// column of the end.
pub open spec fn span_words(span: SpanView) -> Seq<char> {
    span.file + ":"@ + text::decimal(span.start_line as nat) + ":"@ + text::decimal(
        span.start_col as nat,
    ) + "-"@ + text::decimal(span.end_line as nat) + ":"@ + text::decimal(span.end_col as nat)
}

/// A check ends in one `Assert` that carries the name of its invariant and the place
/// in the source, and a trace is one instruction with its label and its place.
pub proof fn law_checks_carry_their_names(
    slots: Seq<(u32, u8)>,
    cond: VarId,
    name: Seq<char>,
    span: SpanView,
)
    ensures
        ({
            let code = stmt_code(slots, StmtView::Assert { cond, invariant_name: name, span });
            &&& code.len() >= 1
            &&& code.last() == (InstructionView {
                opcode: Opcode::Assert,
                operands: Seq::empty(),
                label: Some(name),
                source_location: Some(span_words(span)),
            })
            &&& forall|i: int|
                0 <= i < code.len() - 1 ==> (#[trigger] code[i]).opcode == Opcode::Load
        }),
        ({
            let code = stmt_code(slots, StmtView::Trace { label: name, span });
            &&& code.len() == 1
            &&& code[0] == (InstructionView {
                opcode: Opcode::Trace,
                operands: Seq::empty(),
                label: Some(name),
                source_location: Some(span_words(span)),
            })
        }),
{
}

/// A block that halts for a violation says so, with the name of the invariant; one
/// that halts as it should has a plain `Halt`, and one that returns a plain
/// `Return`.
pub proof fn law_ways_out(
    slots: Seq<(u32, u8)>,
    target: spec_fn(BlockId) -> Real,
    name: Seq<char>,
)
    ensures
        ({
            let code = |t: TerminatorView| terminator_code(slots, t, target);
            &&& code(
                TerminatorView::Halt {
                    reason: HaltReasonView::ConstraintViolation { invariant: name },
                },
            ) == seq![
                InstructionView {
                    opcode: Opcode::Halt,
                    operands: Seq::empty(),
                    label: Some("violation:"@ + name),
                    source_location: None,
                },
            ]
            &&& code(TerminatorView::Halt { reason: HaltReasonView::Normal }) == seq![
                InstructionView {
                    opcode: Opcode::Halt,
                    operands: Seq::empty(),
                    label: None,
                    source_location: None,
                },
            ]
            &&& code(TerminatorView::Return) == seq![
                InstructionView {
                    opcode: Opcode::Return,
                    operands: Seq::empty(),
                    label: None,
                    source_location: None,
                },
            ]
        }),
{
}

/// A variable is loaded from the slot that the slot map gives it, and one without a
/// slot from the low eight bits of its number.
pub proof fn law_where_variables_are_loaded_from(slots: Seq<(u32, u8)>, var: VarId, i: int)
    requires
        table::keys_distinct(slots),
    ensures
        0 <= i < slots.len() && slots[i].0 == var.0 ==> slot_of(slots, var) == slots[i].1,
        (forall|j: int| 0 <= j < slots.len() ==> (#[trigger] slots[j]).0 != var.0) ==> slot_of(
            slots,
            var,
        ) as int == var.0 as int % 256,
{
    table::lemma_place_of(slots, var.0);
    if 0 <= i < slots.len() && slots[i].0 == var.0 {
        table::lemma_place_of_distinct(slots, i);
    }
}

/// The code of a program is that of its blocks, one after the other, and at most one
/// instruction more.
pub proof fn law_code_is_that_of_the_blocks(p: ProgramView)
    requires
        p.blocks.len() > 0,
    ensures
        ({
            let all = code_len(p.slot_map, p.blocks, p.blocks.len());
            &&& all <= program_code(p).len() <= all + 1
            &&& p.blocks.last().terminator is Halt ==> program_code(p).len() == all
        }),
        code_len(p.slot_map, p.blocks, 0) == 0,
{
    let n = p.blocks.len();
    let f = placed(p.slot_map, p.blocks);
    lemma_patches(p.slot_map, p.blocks, unplaced(), f, n);
    let code = blocks_code(p.slot_map, p.blocks, f, n);
    assert(code == blocks_code(p.slot_map, p.blocks, f, (n - 1) as nat) + block_code(
        p.slot_map,
        p.blocks[n - 1],
        f,
    ));
    if p.blocks.last().terminator is Halt {
        let end = terminator_code(p.slot_map, p.blocks[n - 1].terminator, f);
        assert(end.len() == 1);
        assert(code.last() == end[0]);
    }
}

/// The terminator leads to the block.
pub open spec fn leads_to(terminator: TerminatorView, t: BlockId) -> bool {
    match terminator {
        TerminatorView::Jump(target) => t == target,
        TerminatorView::Branch { cond, then_target, else_target } => t == then_target || t
            == else_target,
        _ => false,
    }
}

/// A block of the program has the number.
pub open spec fn is_block(p: ProgramView, t: BlockId) -> bool {
    exists|i: int| 0 <= i < p.blocks.len() && (#[trigger] p.blocks[i]).id == t
}

/// The table of starts has the blocks that there are.
proof fn lemma_started(p: ProgramView, t: BlockId, n: nat)
    requires
        n <= p.blocks.len(),
    ensures
        table::keys_distinct(starts(p.slot_map, p.blocks, n)),
        table::lookup(starts(p.slot_map, p.blocks, n), t.0) is Some <==> exists|i: int|
            0 <= i < n && (#[trigger] p.blocks[i]).id == t,
    decreases n,
{
    if n > 0 {
        let before = starts(p.slot_map, p.blocks, (n - 1) as nat);
        lemma_started(p, t, (n - 1) as nat);
        table::law_lookup_after_put(
            before,
            p.blocks[n - 1].id.0,
            code_len(p.slot_map, p.blocks, (n - 1) as nat) as usize,
            t.0,
        );
        assert(p.blocks[n - 1].id.0 == t.0 <==> p.blocks[n - 1].id == t);
    }
}

/// The targets are those that the blocks lead to.
proof fn lemma_wanted(p: ProgramView, t: BlockId, n: nat)
    requires
        n <= p.blocks.len(),
    ensures
        targets(p.blocks, n).contains(t) <==> exists|i: int|
            0 <= i < n && leads_to((#[trigger] p.blocks[i]).terminator, t),
    decreases n,
{
    if n > 0 {
        let (before, last) = (
            targets(p.blocks, (n - 1) as nat),
            terminator_targets(p.blocks[n - 1].terminator),
        );
        lemma_wanted(p, t, (n - 1) as nat);
        let all = before + last;
        assert(all.contains(t) <==> before.contains(t) || last.contains(t)) by {
            if before.contains(t) {
                let i = choose|i: int| 0 <= i < before.len() && before[i] == t;
                assert(all[i] == t);
            }
            if last.contains(t) {
                let i = choose|i: int| 0 <= i < last.len() && last[i] == t;
                assert(all[before.len() + i] == t);
            }
        }
        assert(last.contains(t) <==> leads_to(p.blocks[n - 1].terminator, t)) by {
            match p.blocks[n - 1].terminator {
                TerminatorView::Jump(x) => {
                    assert(last[0] == x);
                },
                TerminatorView::Branch { cond, then_target, else_target } => {
                    assert(last[0] == else_target && last[1] == then_target);
                },
                _ => {},
            }
        }
    }
}

/// The first unknown target is one that is wanted and not known.
proof fn lemma_unknown(known: Seq<(u32, usize)>, wanted: Seq<BlockId>, from: int)
    requires
        0 <= from <= wanted.len(),
    ensures
        first_unknown(known, wanted, from) matches Some(t) ==> wanted.contains(t)
            && table::lookup(known, t.0) is None,
        first_unknown(known, wanted, from) is None ==> forall|i: int|
            from <= i < wanted.len() ==> table::lookup(known, (#[trigger] wanted[i]).0) is Some,
    decreases wanted.len() - from,
{
    if from < wanted.len() {
        lemma_unknown(known, wanted, from + 1);
        assert(wanted.contains(wanted[from]));
    }
}

/// Code generation fails for a target exactly where a block leads to one that does
/// not exist. The error names such a target.
pub proof fn law_unknown_targets_are_named(p: ProgramView)
    ensures
        compiled(p) matches Err(GuardErrorView::Codegen(message)) ==> exists|i: int, t: BlockId|
            0 <= i < p.blocks.len() && leads_to((#[trigger] p.blocks[i]).terminator, t)
                && !(#[trigger] is_block(p, t)) && message == "unknown block BlockId("@
                + text::decimal(t.0 as nat) + ")"@,
        (exists|i: int, t: BlockId|
            0 <= i < p.blocks.len() && leads_to((#[trigger] p.blocks[i]).terminator, t)
                && !(#[trigger] is_block(p, t))) ==> compiled(p) is Err
            && compiled(p)->Err_0 is Codegen,
{
    let n = p.blocks.len();
    let (known, wanted) = (starts(p.slot_map, p.blocks, n), targets(p.blocks, n));
    lemma_unknown(known, wanted, 0);
    if let Some(t) = missing_block(p) {
        lemma_wanted(p, t, n);
        lemma_started(p, t, n);
        let i = choose|i: int| 0 <= i < n && leads_to((#[trigger] p.blocks[i]).terminator, t);
        assert(leads_to(p.blocks[i].terminator, t) && !is_block(p, t));
    }
    if exists|i: int, t: BlockId|
        0 <= i < p.blocks.len() && leads_to((#[trigger] p.blocks[i]).terminator, t)
            && !(#[trigger] is_block(p, t)) {
        let (i, t) = choose|i: int, t: BlockId|
            0 <= i < p.blocks.len() && leads_to((#[trigger] p.blocks[i]).terminator, t)
                && !(#[trigger] is_block(p, t));
        lemma_wanted(p, t, n);
        lemma_started(p, t, n);
        let j = choose|j: int| 0 <= j < wanted.len() && wanted[j] == t;
        assert(table::lookup(known, wanted[j].0) is None);
    }
}

/// The instruction works on the slot.
pub open spec fn works_on(inst: InstructionView, opcode: Opcode, slot: int) -> bool {
    inst == InstructionView {
        opcode,
        operands: seq![binary64::real_of_int(slot)],
        label: None,
        source_location: None,
    }
}

/// The instruction has no operands.
pub open spec fn works_alone(inst: InstructionView, opcode: Opcode) -> bool {
    inst == InstructionView {
        opcode,
        operands: Seq::empty(),
        label: None,
        source_location: None,
    }
}

/// The code of an operation on two variables loads the first and then the second, and
/// applies the instruction for the operation. An implication denies the first before
/// it loads the second, and is their disjunction.
pub proof fn law_code_of_two_operands(slots: Seq<(u32, u8)>, a: VarId, b: VarId, op: AtomicOp)
    requires
        op == AtomicOp::Add(a, b) || op == AtomicOp::Sub(a, b) || op == AtomicOp::Mul(a, b) || op
            == AtomicOp::Div(a, b) || op == AtomicOp::Mod(a, b) || op == AtomicOp::Eq(a, b) || op
            == AtomicOp::Neq(a, b) || op == AtomicOp::Lt(a, b) || op == AtomicOp::Gt(a, b) || op
            == AtomicOp::Lte(a, b) || op == AtomicOp::Gte(a, b) || op == AtomicOp::And(a, b) || op
            == AtomicOp::Or(a, b) || op == AtomicOp::Implies(a, b),
    ensures
        ({
            let code = op_code(slots, op);
            let n = code.len();
            let last = match op {
                AtomicOp::Add(_, _) => Opcode::Add,
                AtomicOp::Sub(_, _) => Opcode::Sub,
                AtomicOp::Mul(_, _) => Opcode::Mul,
                AtomicOp::Div(_, _) => Opcode::Div,
                AtomicOp::Mod(_, _) => Opcode::Mod,
                AtomicOp::Eq(_, _) => Opcode::Eq,
                AtomicOp::Neq(_, _) => Opcode::Neq,
                AtomicOp::Lt(_, _) => Opcode::Lt,
                AtomicOp::Gt(_, _) => Opcode::Gt,
                AtomicOp::Lte(_, _) => Opcode::Lte,
                AtomicOp::Gte(_, _) => Opcode::Gte,
                AtomicOp::And(_, _) => Opcode::And,
                _ => Opcode::Or,
            };
            &&& works_on(code[0], Opcode::Load, slot_of(slots, a) as int)
            &&& works_on(code[n - 2], Opcode::Load, slot_of(slots, b) as int)
            &&& works_alone(code[n - 1], last)
            &&& op is Implies ==> n == 4 && works_alone(code[1], Opcode::Not)
            &&& op !is Implies ==> n == 3
        }),
{
}

/// The code of an operation on one variable, and of a look at memory. The samples of a
/// history are in the slots after its head, the newest first.
pub proof fn law_code_of_one_operand(
    slots: Seq<(u32, u8)>,
    a: VarId,
    slot: u8,
    back: usize,
    dt: Real,
)
    ensures
        ({
            let (load, code) = (slot_of(slots, a) as int, |op: AtomicOp| op_code(slots, op));
            let (neg, abs, not) = (
                code(AtomicOp::Neg(a)),
                code(AtomicOp::Abs(a)),
                code(AtomicOp::Not(a)),
            );
            let old = code(AtomicOp::Old { buffer: slot, depth: back });
            let (delta, rate) = (
                code(AtomicOp::Delta { buffer: slot }),
                code(AtomicOp::RateOf { buffer: slot, dt }),
            );
            &&& neg.len() == 4 && works_on(neg[0], Opcode::Load, load) && works_alone(
                neg[1],
                Opcode::Push,
            ) && works_on(neg[2], Opcode::Push, -1) && works_alone(neg[3], Opcode::Mul)
            &&& abs.len() == 2 && works_on(abs[0], Opcode::Load, load) && works_alone(
                abs[1],
                Opcode::Pabs,
            )
            &&& not.len() == 2 && works_on(not[0], Opcode::Load, load) && works_alone(
                not[1],
                Opcode::Not,
            )
            &&& code(AtomicOp::LoadSlot(slot)).len() == 1 && works_on(
                code(AtomicOp::LoadSlot(slot))[0],
                Opcode::Load,
                slot as int,
            )
            &&& slot + back <= 255 ==> old.len() == 1 && works_on(
                old[0],
                Opcode::Load,
                slot + back,
            )
            &&& slot < 255 ==> delta.len() == 3 && works_on(
                delta[0],
                Opcode::Load,
                slot as int,
            ) && works_on(delta[1], Opcode::Load, slot + 1) && works_alone(delta[2], Opcode::Sub)
            &&& slot < 255 ==> rate.len() == 5 && works_on(rate[0], Opcode::Load, slot as int)
                && works_on(rate[1], Opcode::Load, slot + 1) && works_alone(rate[2], Opcode::Sub)
                && pushes(rate[3], dt) && works_alone(rate[4], Opcode::Div)
        }),
{
}

/// The code of statements that move values: what is assigned, loaded or popped goes to
/// the slot of its variable, and what is stored or checked comes from there. A
/// variable without a slot has its value on the stack.
pub proof fn law_code_that_moves_values(
    slots: Seq<(u32, u8)>,
    v: VarId,
    op: AtomicOp,
    slot: u8,
    ty: CirType,
    span: SpanView,
    i: int,
)
    requires
        table::keys_distinct(slots),
    ensures
        ({
            let there = 0 <= i < slots.len() && slots[i].0 == v.0;
            let nowhere = forall|j: int| 0 <= j < slots.len() ==> (#[trigger] slots[j]).0 != v.0;
            let code = |stmt: StmtView| stmt_code(slots, stmt);
            let assign = code(StmtView::Assign { dest: v, op, span });
            let state = code(StmtView::LoadState { dest: v, slot, ty, span });
            let store = code(StmtView::Store { src: v, slot, span });
            let pop = code(StmtView::Pop { dest: v, ty, span });
            let front = if ty.kind is Integer {
                2int
            } else {
                1int
            };
            &&& there ==> assign.len() == op_code(slots, op).len() + 1 && assign.drop_last()
                == op_code(slots, op) && works_on(
                assign.last(),
                Opcode::Store,
                slots[i].1 as int,
            )
            &&& nowhere ==> assign == op_code(slots, op)
            &&& state.len() >= front && works_on(state[0], Opcode::Load, slot as int)
            &&& ty.kind is Integer ==> works_alone(state[1], Opcode::Cast)
            &&& there ==> state.len() == front + 1 && works_on(
                state.last(),
                Opcode::Store,
                slots[i].1 as int,
            )
            &&& nowhere ==> state.len() == front
            &&& works_on(store.last(), Opcode::Store, slot as int)
            &&& there ==> store.len() == 2 && works_on(store[0], Opcode::Load, slots[i].1 as int)
            &&& nowhere ==> store.len() == 1
            &&& pop.len() == 1
            &&& there ==> works_on(pop[0], Opcode::Store, slots[i].1 as int)
            &&& nowhere ==> works_alone(pop[0], Opcode::Pop)
        }),
{
    table::lemma_place_of(slots, v.0);
    if 0 <= i < slots.len() && slots[i].0 == v.0 {
        table::lemma_place_of_distinct(slots, i);
        let assign = stmt_code(slots, StmtView::Assign { dest: v, op, span });
        assert(assign.drop_last() =~= op_code(slots, op));
    } else {
        assert(stmt_code(slots, StmtView::Assign { dest: v, op, span }).len() >= 0);
    }
    if forall|j: int| 0 <= j < slots.len() ==> (#[trigger] slots[j]).0 != v.0 {
        assert(stmt_code(slots, StmtView::Assign { dest: v, op, span }) =~= op_code(slots, op));
    }
}

/// What compiles comes out whole: it is the code of the program, its targets exist, and
/// the validator has nothing to complain of. What the validator complains of is
/// reported.
pub proof fn law_what_comes_out(p: ProgramView)
    ensures
        compiled(p) matches Ok(code) ==> code == program_code(p) && flux::complaint(
            flux::words(code),
        ) is None,
        (forall|i: int, t: BlockId|
            0 <= i < p.blocks.len() && leads_to((#[trigger] p.blocks[i]).terminator, t)
                ==> #[trigger] is_block(p, t)) ==> {
            match flux::complaint(flux::words(program_code(p))) {
                None => compiled(p) is Ok,
                Some(complaint) => compiled(p) is Err && compiled(p)->Err_0
                    == GuardErrorView::Validation(
                    "bytecode validation failed: "@ + ("validation error: "@ + complaint),
                ),
            }
        },
{
    let n = p.blocks.len();
    let (known, wanted) = (starts(p.slot_map, p.blocks, n), targets(p.blocks, n));
    lemma_unknown(known, wanted, 0);
    if let Some(t) = missing_block(p) {
        lemma_wanted(p, t, n);
        lemma_started(p, t, n);
        let i = choose|i: int| 0 <= i < n && leads_to((#[trigger] p.blocks[i]).terminator, t);
        assert(leads_to(p.blocks[i].terminator, t) && !is_block(p, t));
    }
}

/// The code of a block is that of its statements, one after the other, and after it
/// that of its way out.
pub proof fn law_code_of_a_block(
    slots: Seq<(u32, u8)>,
    a: Seq<StmtView>,
    b: Seq<StmtView>,
    block: BlockView,
    stmt: StmtView,
    f: spec_fn(BlockId) -> Real,
)
    ensures
        block_code(slots, block, f) == stmts_code(slots, block.stmts) + terminator_code(
            slots,
            block.terminator,
            f,
        ),
        stmts_code(slots, Seq::empty()) == Seq::<InstructionView>::empty(),
        stmts_code(slots, seq![stmt]) == stmt_code(slots, stmt),
        stmts_code(slots, a + b) == stmts_code(slots, a) + stmts_code(slots, b),
    decreases b.len(),
{
    reveal_with_fuel(stmts_code, 2);
    assert(seq![stmt].drop_last() =~= Seq::empty());
    assert(stmts_code(slots, seq![stmt]) =~= stmt_code(slots, stmt));
    if b.len() == 0 {
        assert(a + b =~= a);
        assert(stmts_code(slots, a) + stmts_code(slots, b) =~= stmts_code(slots, a));
    } else {
        law_code_of_a_block(slots, a, b.drop_last(), block, stmt, f);
        assert((a + b).drop_last() =~= a + b.drop_last());
        assert(stmts_code(slots, a + b) =~= stmts_code(slots, a) + stmts_code(slots, b));
    }
}

/// A block that jumps has one jump to its target. One that branches loads the
/// condition, branches to the second target where it does not hold, and else jumps to
/// the first.
pub proof fn law_jumps_and_branches(
    slots: Seq<(u32, u8)>,
    target: spec_fn(BlockId) -> Real,
    t: BlockId,
    e: BlockId,
    cond: VarId,
)
    ensures
        ({
            let jump = terminator_code(slots, TerminatorView::Jump(t), target);
            let branch = terminator_code(
                slots,
                TerminatorView::Branch { cond, then_target: t, else_target: e },
                target,
            );
            let to = |opcode: Opcode, b: BlockId|
                InstructionView {
                    opcode,
                    operands: seq![target(b)],
                    label: None,
                    source_location: None,
                };
            &&& jump == seq![to(Opcode::Jump, t)]
            &&& branch.len() == 3
            &&& works_on(branch[0], Opcode::Load, slot_of(slots, cond) as int)
            &&& branch[1] == to(Opcode::Branch, e)
            &&& branch[2] == to(Opcode::Jump, t)
        }),
{
}

/// The targets of the blocks before come before those of a block.
proof fn lemma_targets_in_order(blocks: Seq<BlockView>, i: int, n: nat)
    requires
        0 <= i < n,
    ensures
        ({
            let (before, own, all) = (
                targets(blocks, i as nat),
                terminator_targets(blocks[i].terminator),
                targets(blocks, n),
            );
            &&& before.len() + own.len() <= all.len()
            &&& forall|j: int| 0 <= j < before.len() ==> #[trigger] all[j] == before[j]
            &&& forall|j: int| 0 <= j < own.len() ==> all[before.len() + j] == #[trigger] own[j]
        }),
    decreases n,
{
    if i < n - 1 {
        lemma_targets_in_order(blocks, i, (n - 1) as nat);
        let (front, before, own) = (
            targets(blocks, (n - 1) as nat),
            targets(blocks, i as nat),
            terminator_targets(blocks[i].terminator),
        );
        assert forall|j: int| 0 <= j < own.len() implies targets(blocks, n)[before.len() + j]
            == #[trigger] own[j] by {
            assert(front[before.len() + j] == own[j]);
        }
        assert forall|j: int| 0 <= j < before.len() implies #[trigger] targets(blocks, n)[j]
            == before[j] by {
            assert(front[j] == before[j]);
        }
    }
}

/// The first unknown target.
proof fn lemma_first_unknown(
    known: Seq<(u32, usize)>,
    wanted: Seq<BlockId>,
    from: int,
    at: int,
)
    requires
        0 <= from <= at < wanted.len(),
        forall|j: int| from <= j < at ==> table::lookup(known, (#[trigger] wanted[j]).0) is Some,
        table::lookup(known, wanted[at].0) is None,
    ensures
        first_unknown(known, wanted, from) == Some(wanted[at]),
    decreases at - from,
{
    if from < at {
        lemma_first_unknown(known, wanted, from + 1, at);
    }
}

/// The error names the missing target of the first block that has one; of a branch, the
/// second target before the first, as in its code.
pub proof fn law_first_missing_target_is_named(p: ProgramView, i: int)
    requires
        0 <= i < p.blocks.len(),
        forall|j: int, t: BlockId|
            0 <= j < i && leads_to((#[trigger] p.blocks[j]).terminator, t) ==> #[trigger] is_block(
                p,
                t,
            ),
    ensures
        ({
            let unknown = |t: BlockId|
                compiled(p) == Err::<Seq<InstructionView>, GuardErrorView>(
                    GuardErrorView::Codegen(
                        "unknown block BlockId("@ + text::decimal(t.0 as nat) + ")"@,
                    ),
                );
            match p.blocks[i].terminator {
                TerminatorView::Jump(t) => !is_block(p, t) ==> unknown(t),
                TerminatorView::Branch { cond, then_target, else_target } => {
                    &&& !is_block(p, else_target) ==> unknown(else_target)
                    &&& is_block(p, else_target) && !is_block(p, then_target) ==> unknown(
                        then_target,
                    )
                },
                _ => true,
            }
        }),
{
    let n = p.blocks.len();
    let (known, wanted) = (starts(p.slot_map, p.blocks, n), targets(p.blocks, n));
    let (before, own) = (
        targets(p.blocks, i as nat),
        terminator_targets(p.blocks[i].terminator),
    );
    lemma_targets_in_order(p.blocks, i, n);
    assert forall|j: int| 0 <= j < before.len() implies table::lookup(
        known,
        (#[trigger] wanted[j]).0,
    ) is Some by {
        let t = before[j];
        lemma_wanted(p, t, i as nat);
        assert(before.contains(t));
        let k = choose|k: int| 0 <= k < i && leads_to((#[trigger] p.blocks[k]).terminator, t);
        assert(leads_to(p.blocks[k].terminator, t));
        assert(is_block(p, t));
        lemma_started(p, t, n);
    }
    match p.blocks[i].terminator {
        TerminatorView::Jump(t) => {
            lemma_started(p, t, n);
            assert(own[0] == t);
            if !is_block(p, t) {
                lemma_first_unknown(known, wanted, 0, before.len() as int);
            }
        },
        TerminatorView::Branch { cond, then_target, else_target } => {
            lemma_started(p, else_target, n);
            lemma_started(p, then_target, n);
            assert(own[0] == else_target && own[1] == then_target);
            assert(wanted[before.len() as int] == else_target);
            assert(wanted[before.len() as int + 1] == then_target);
            if !is_block(p, else_target) {
                lemma_first_unknown(known, wanted, 0, before.len() as int);
            } else if !is_block(p, then_target) {
                lemma_first_unknown(known, wanted, 0, before.len() as int + 1);
            }
        },
        _ => {},
    }
}

} // verus!
