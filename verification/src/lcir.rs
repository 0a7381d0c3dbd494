//! Lowered CIR (LCIR) — a flat, A-normal form IR with no quantifiers or
//! temporal operators.
//!
//! LCIR is the input to code generation.  Every sub-expression is bound to a
//! named variable, and control flow is explicit (basic blocks with
//! conditional branches).

use crate::binary64::Real;
use crate::cir::CirType;
use crate::cir::ConstValue;
use crate::cir::Priority;
use crate::cir::VarId;
use crate::cir::VarKind;
use crate::cir::ViolationAction;
use crate::error::GuardError;
use crate::error::GuardErrorView;
use crate::error::Result;
use crate::error::Span;
use crate::error::SpanView;
use crate::table;
use crate::table::Table;
use crate::text;
use vstd::prelude::*;

verus! {

// ---------------------------------------------------------------------------
// LCIR Program
// ---------------------------------------------------------------------------

/// An LCIR program is a collection of basic blocks with a single entry point.
#[derive(Debug, Clone, PartialEq)]
pub struct LcirProgram {
    pub name: String,
    pub version: String,
    pub blocks: Vec<BasicBlock>,
    pub entry: BlockId,
    /// Memory slot allocation map: variable number → FLUX memory slot (0–255)
    pub slot_map: Table<u8>,
    /// Total number of slots used.
    pub slot_count: u8,
    /// Per-invariant metadata for bytecode emission.
    pub invariant_metadata: Vec<InvariantMeta>,
}

#[derive(Debug, Clone, PartialEq)]
pub struct InvariantMeta {
    pub name: String,
    pub priority: Priority,
    pub on_violation: ViolationAction,
    pub assert_slot: u8,  // slot holding the boolean result
    pub source_span: Span,
}

// ---------------------------------------------------------------------------
// Basic Blocks
// ---------------------------------------------------------------------------

/// A basic block identifier.
#[derive(Debug, Clone, Copy, PartialEq, Eq, Hash)]
pub struct BlockId(pub u32);

/// A basic block: a sequence of atomic statements ending in a terminator.
#[derive(Debug, Clone, PartialEq)]
pub struct BasicBlock {
    pub id: BlockId,
    pub label: String,
    pub stmts: Vec<Stmt>,
    pub terminator: Terminator,
}

// ---------------------------------------------------------------------------
// Statements (A-normal form)
// ---------------------------------------------------------------------------

/// An atomic statement with a clear evaluation order.
#[derive(Debug, Clone, PartialEq)]
pub enum Stmt {
    /// Assign the result of an atomic expression to a variable.
    Assign { dest: VarId, op: AtomicOp, span: Span },
    /// Load a state variable from its memory slot.
    LoadState { dest: VarId, slot: u8, ty: CirType, span: Span },
    /// Store a local variable to a memory slot.
    Store { src: VarId, slot: u8, span: Span },
    /// Push a constant onto the evaluation stack.
    PushConst { value: ConstValue, span: Span },
    /// Pop the top of stack into a variable.
    Pop { dest: VarId, ty: CirType, span: Span },
    /// Assert that a boolean variable is true.
    Assert { cond: VarId, invariant_name: String, span: Span },
    /// Trace / mark a source location.
    Trace { label: String, span: Span },
}

/// Atomic operations that can appear on the right-hand side of `Assign`.
/// Every operand is either a variable or a constant — no nested expressions.
#[derive(Debug, Clone, PartialEq)]
pub enum AtomicOp {
    // Nullary
    Const(ConstValue),
    // Unary
    Neg(VarId),
    Abs(VarId),
    Not(VarId),
    // Binary arithmetic
    Add(VarId, VarId),
    Sub(VarId, VarId),
    Mul(VarId, VarId),
    Div(VarId, VarId),
    Mod(VarId, VarId),
    // Comparison
    Eq(VarId, VarId),
    Neq(VarId, VarId),
    Lt(VarId, VarId),
    Gt(VarId, VarId),
    Lte(VarId, VarId),
    Gte(VarId, VarId),
    // Logic
    And(VarId, VarId),
    Or(VarId, VarId),
    Implies(VarId, VarId),
    // Memory
    LoadSlot(u8),
    // History buffer access (temporal lowering)
    Old { buffer: u8, depth: usize },
    RateOf { buffer: u8, dt: Real },
    Delta { buffer: u8 },
}

// ---------------------------------------------------------------------------
// Terminators
// ---------------------------------------------------------------------------

/// Control-flow terminator for a basic block.
#[derive(Debug, Clone, PartialEq)]
pub enum Terminator {
    /// Unconditional jump to another block.
    Jump(BlockId),
    /// Conditional branch.
    Branch { cond: VarId, then_target: BlockId, else_target: BlockId },
    /// Halt the VM.
    Halt { reason: HaltReason },
    /// Return from a subroutine (used for loop bodies).
    Return,
}

#[derive(Debug, Clone, PartialEq, Eq, Hash)]
pub enum HaltReason {
    ConstraintViolation { invariant: String },
    Normal,
}

// ---------------------------------------------------------------------------
// Views
// ---------------------------------------------------------------------------

/// A statement with its texts as character sequences.
#[verifier::ext_equal]
pub enum StmtView {
    Assign { dest: VarId, op: AtomicOp, span: SpanView },
    LoadState { dest: VarId, slot: u8, ty: CirType, span: SpanView },
    Store { src: VarId, slot: u8, span: SpanView },
    PushConst { value: ConstValue, span: SpanView },
    Pop { dest: VarId, ty: CirType, span: SpanView },
    Assert { cond: VarId, invariant_name: Seq<char>, span: SpanView },
    Trace { label: Seq<char>, span: SpanView },
}

impl View for Stmt {
    type V = StmtView;

    open spec fn view(&self) -> StmtView {
        match *self {
            Stmt::Assign { dest, op, span } => StmtView::Assign { dest, op, span: span@ },
            Stmt::LoadState { dest, slot, ty, span } => StmtView::LoadState {
                dest,
                slot,
                ty,
                span: span@,
            },
            Stmt::Store { src, slot, span } => StmtView::Store { src, slot, span: span@ },
            Stmt::PushConst { value, span } => StmtView::PushConst { value, span: span@ },
            Stmt::Pop { dest, ty, span } => StmtView::Pop { dest, ty, span: span@ },
            Stmt::Assert { cond, invariant_name, span } => StmtView::Assert {
                cond,
                invariant_name: invariant_name@,
                span: span@,
            },
            Stmt::Trace { label, span } => StmtView::Trace { label: label@, span: span@ },
        }
    }
}

/// A terminator with its texts as character sequences.
#[verifier::ext_equal]
pub enum TerminatorView {
    Jump(BlockId),
    Branch { cond: VarId, then_target: BlockId, else_target: BlockId },
    Halt { reason: HaltReasonView },
    Return,
}

#[verifier::ext_equal]
pub enum HaltReasonView {
    ConstraintViolation { invariant: Seq<char> },
    Normal,
}

impl View for HaltReason {
    type V = HaltReasonView;

    open spec fn view(&self) -> HaltReasonView {
        match *self {
            HaltReason::ConstraintViolation { invariant } => HaltReasonView::ConstraintViolation {
                invariant: invariant@,
            },
            HaltReason::Normal => HaltReasonView::Normal,
        }
    }
}

impl View for Terminator {
    type V = TerminatorView;

    open spec fn view(&self) -> TerminatorView {
        match *self {
            Terminator::Jump(target) => TerminatorView::Jump(target),
            Terminator::Branch { cond, then_target, else_target } => TerminatorView::Branch {
                cond,
                then_target,
                else_target,
            },
            Terminator::Halt { reason } => TerminatorView::Halt { reason: reason@ },
            Terminator::Return => TerminatorView::Return,
        }
    }
}

/// A basic block with its texts as character sequences.
#[verifier::ext_equal]
pub struct BlockView {
    pub id: BlockId,
    pub label: Seq<char>,
    pub stmts: Seq<StmtView>,
    pub terminator: TerminatorView,
}

/// The views of statements.
pub open spec fn stmt_views(stmts: Seq<Stmt>) -> Seq<StmtView> {
    stmts.map_values(|s: Stmt| s@)
}

impl View for BasicBlock {
    type V = BlockView;

    open spec fn view(&self) -> BlockView {
        BlockView {
            id: self.id,
            label: self.label@,
            stmts: stmt_views(self.stmts@),
            terminator: self.terminator@,
        }
    }
}

/// The views of blocks.
pub open spec fn block_views(blocks: Seq<BasicBlock>) -> Seq<BlockView> {
    blocks.map_values(|b: BasicBlock| b@)
}

/// A program with its texts as character sequences and its slots in the order
/// in which they were allocated.
#[verifier::ext_equal]
pub struct ProgramView {
    pub name: Seq<char>,
    pub version: Seq<char>,
    pub blocks: Seq<BlockView>,
    pub entry: BlockId,
    pub slot_map: Seq<(u32, u8)>,
    pub slot_count: int,
    pub invariant_metadata: Seq<InvariantMeta>,
}

impl View for LcirProgram {
    type V = ProgramView;

    open spec fn view(&self) -> ProgramView {
        ProgramView {
            name: self.name@,
            version: self.version@,
            blocks: block_views(self.blocks@),
            entry: self.entry,
            slot_map: self.slot_map@,
            slot_count: self.slot_count as int,
            invariant_metadata: self.invariant_metadata@,
        }
    }
}

// ---------------------------------------------------------------------------
// Builder helpers
// ---------------------------------------------------------------------------

/// A builder for constructing LCIR programs incrementally.
pub struct LcirBuilder {
    pub program: LcirProgram,
    pub current_block: BlockId,
    pub next_var: u32,
    pub next_block: u32,
}

/// The number of memory slots that can be allocated one after the other.
pub const USER_SLOTS: u8 = 224;

/// A builder with its counters as integers.
#[verifier::ext_equal]
pub struct BuilderView {
    pub program: ProgramView,
    pub current_block: BlockId,
    pub next_var: int,
    pub next_block: int,
}

impl View for LcirBuilder {
    type V = BuilderView;

    open spec fn view(&self) -> BuilderView {
        BuilderView {
            program: self.program@,
            current_block: self.current_block,
            next_var: self.next_var as int,
            next_block: self.next_block as int,
        }
    }
}

/// A block without statements that halts.
pub open spec fn empty_block(id: BlockId, label: Seq<char>) -> BlockView {
    BlockView {
        id,
        label,
        stmts: Seq::empty(),
        terminator: TerminatorView::Halt { reason: HaltReasonView::Normal },
    }
}

impl BuilderView {
    /// A builder with an empty entry block. Variables are numbered from 1000
    /// on; the numbers below are those of CIR variables.
    pub open spec fn new(name: Seq<char>, version: Seq<char>) -> BuilderView {
        BuilderView {
            program: ProgramView {
                name,
                version,
                blocks: seq![empty_block(BlockId(0), "entry"@)],
                entry: BlockId(0),
                slot_map: Seq::empty(),
                slot_count: 0,
                invariant_metadata: Seq::empty(),
            },
            current_block: BlockId(0),
            next_var: 1000,
            next_block: 1,
        }
    }

    /// Blocks are numbered by their place, the current block and the entry are
    /// among them, and every variable has at most one slot.
    pub open spec fn well_formed(self) -> bool {
        let p = self.program;
        &&& self.next_block == p.blocks.len()
        &&& forall|i: int| 0 <= i < p.blocks.len() ==> (#[trigger] p.blocks[i]).id.0 == i
        &&& self.current_block.0 < p.blocks.len()
        &&& p.entry.0 < p.blocks.len()
        &&& table::keys_distinct(p.slot_map)
        &&& 0 <= p.slot_count
    }

    /// The slots are numbered in the order of their allocation.
    pub open spec fn sequential(self) -> bool {
        let p = self.program;
        &&& p.slot_count == p.slot_map.len()
        &&& p.slot_count <= USER_SLOTS
        &&& forall|i: int| 0 <= i < p.slot_map.len() ==> (#[trigger] p.slot_map[i]).1 == i
    }

    /// The block that statements go to.
    pub open spec fn current(self) -> BlockView {
        self.program.blocks[self.current_block.0 as int]
    }

    /// The builder with another current block content.
    pub open spec fn with_current(self, block: BlockView) -> BuilderView {
        BuilderView {
            program: ProgramView {
                blocks: self.program.blocks.update(self.current_block.0 as int, block),
                ..self.program
            },
            ..self
        }
    }

    /// After one more statement in the current block.
    pub open spec fn emit(self, stmt: StmtView) -> BuilderView {
        self.with_current(
            BlockView { stmts: self.current().stmts.push(stmt), ..self.current() },
        )
    }

    /// After the current block got another terminator.
    pub open spec fn terminate(self, terminator: TerminatorView) -> BuilderView {
        self.with_current(BlockView { terminator, ..self.current() })
    }

    /// After another block became the current one.
    pub open spec fn switch(self, id: BlockId) -> BuilderView {
        BuilderView { current_block: id, ..self }
    }

    /// The number of the next variable.
    pub open spec fn new_var(self) -> VarId {
        VarId(self.next_var as u32)
    }

    /// After a variable number was given out.
    pub open spec fn after_var(self) -> BuilderView {
        BuilderView { next_var: self.next_var + 1, ..self }
    }

    /// The number of the next block.
    pub open spec fn new_block(self) -> BlockId {
        BlockId(self.next_block as u32)
    }

    /// After an empty block was added.
    pub open spec fn after_block(self, label: Seq<char>) -> BuilderView {
        BuilderView {
            program: ProgramView {
                blocks: self.program.blocks.push(empty_block(self.new_block(), label)),
                ..self.program
            },
            next_block: self.next_block + 1,
            ..self
        }
    }

    /// The slot of a variable: the one that it has, or the next one.
    pub open spec fn slot(self, var: VarId) -> u8 {
        match table::lookup(self.program.slot_map, var.0) {
            Some(slot) => slot,
            None => self.program.slot_count as u8,
        }
    }

    /// After the variable has a slot.
    pub open spec fn after_slot(self, var: VarId) -> BuilderView {
        match table::lookup(self.program.slot_map, var.0) {
            Some(slot) => self,
            None => BuilderView {
                program: ProgramView {
                    slot_map: table::put(
                        self.program.slot_map,
                        var.0,
                        self.program.slot_count as u8,
                    ),
                    slot_count: self.program.slot_count + 1,
                    ..self.program
                },
                ..self
            },
        }
    }
}

/// A variable has the slot.
pub open spec fn taken(slot_map: Seq<(u32, u8)>, slot: u8) -> bool {
    exists|i: int| 0 <= i < slot_map.len() && (#[trigger] slot_map[i]).1 == slot
}

/// The number of different slots that variables have.
pub open spec fn slots_used(slot_map: Seq<(u32, u8)>) -> int
    decreases slot_map.len(),
{
    if slot_map.len() == 0 {
        0
    } else {
        let front = slot_map.drop_last();
        slots_used(front) + if taken(front, slot_map.last().1) {
            0int
        } else {
            1int
        }
    }
}

impl BuilderView {
    /// After the variable has a slot: the one that it had, or the given one. A
    /// slot that several variables share counts once.
    pub open spec fn after_settle(self, var: VarId, slot: u8) -> BuilderView {
        match table::lookup(self.program.slot_map, var.0) {
            Some(_) => self,
            None => BuilderView {
                program: ProgramView {
                    slot_map: table::put(self.program.slot_map, var.0, slot),
                    slot_count: self.program.slot_count + if taken(self.program.slot_map, slot) {
                        0int
                    } else {
                        1int
                    },
                    ..self.program
                },
                ..self
            },
        }
    }

    /// After what is to be known of an invariant was noted.
    pub open spec fn after_meta(self, meta: InvariantMeta) -> BuilderView {
        BuilderView {
            program: ProgramView {
                invariant_metadata: self.program.invariant_metadata.push(meta),
                ..self.program
            },
            ..self
        }
    }
}

impl LcirProgram {
    /// Whether a variable has the slot.
    pub fn is_taken(&self, slot: u8) -> (b: bool)
        ensures
            b == taken(self.slot_map@, slot),
    {
        let count: usize = self.slot_map.len();
        let mut i: usize = 0;
        while i < count
            invariant
                i <= count == self.slot_map@.len(),
                forall|j: int| 0 <= j < i ==> (#[trigger] self.slot_map@[j]).1 != slot,
            decreases count - i,
        {
            if *self.slot_map.row_at(i) == slot {
                assert(self.slot_map@[i as int].1 == slot);
                return true;
            }
            i += 1;
        }
        false
    }
}

impl LcirBuilder {
    /// Gives a variable the slot, unless it has one.
    pub fn settle(&mut self, var: VarId, slot: u8)
        requires
            old(self)@.after_settle(var, slot).program.slot_count <= u8::MAX,
        ensures
            final(self)@ == old(self)@.after_settle(var, slot),
            old(self)@.well_formed() ==> final(self)@.well_formed(),
    {
        if self.program.slot_map.get(var.0).is_some() {
            return;
        }
        let shared = self.program.is_taken(slot);
        proof {
            table::lemma_place_of(self.program.slot_map@, var.0);
        }
        self.program.slot_map.insert(var.0, slot);
        if !shared {
            self.program.slot_count = self.program.slot_count + 1;
        }
    }

    /// Notes what is to be known of an invariant.
    pub fn note_invariant(&mut self, meta: InvariantMeta)
        ensures
            final(self)@ == old(self)@.after_meta(meta),
            old(self)@.well_formed() ==> final(self)@.well_formed(),
    {
        self.program.invariant_metadata.push(meta);
    }
}

impl LcirBuilder {
    /// A builder for a program of the given name and version.
    pub fn new(name: &str, version: &str) -> (builder: Self)
        ensures
            builder@ == BuilderView::new(name@, version@),
            builder@.well_formed(),
            builder@.sequential(),
    {
        let entry = BlockId(0);
        let mut blocks: Vec<BasicBlock> = Vec::new();
        blocks.push(
            BasicBlock {
                id: entry,
                label: "entry".to_owned(),
                stmts: Vec::new(),
                terminator: Terminator::Halt { reason: HaltReason::Normal },
            },
        );
        let builder = LcirBuilder {
            program: LcirProgram {
                name: name.to_owned(),
                version: version.to_owned(),
                blocks,
                entry,
                slot_map: Table::new(),
                slot_count: 0,
                invariant_metadata: Vec::new(),
            },
            current_block: entry,
            next_var: 1000,  // Reserve 0–999 for CIR vars
            next_block: 1,
        };
        proof {
            assert(stmt_views(Seq::empty()) =~= Seq::empty());
            assert(builder@.program.blocks =~= BuilderView::new(name@, version@).program.blocks);
        }
        builder
    }

    /// A variable number that was not given out before.
    pub fn fresh_var(&mut self, ty: CirType, kind: VarKind, _name_hint: &str) -> (id: VarId)
        requires
            old(self).next_var < u32::MAX,
        ensures
            id == old(self)@.new_var(),
            final(self)@ == old(self)@.after_var(),
    {
        let id = VarId(self.next_var);
        self.next_var = self.next_var + 1;
        id
    }

    /// A new empty block that halts.
    pub fn fresh_block(&mut self, label: &str) -> (id: BlockId)
        requires
            old(self).next_block < u32::MAX,
        ensures
            id == old(self)@.new_block(),
            final(self)@ == old(self)@.after_block(label@),
            old(self)@.well_formed() ==> final(self)@.well_formed(),
    {
        let id = BlockId(self.next_block);
        self.next_block = self.next_block + 1;
        self.program.blocks.push(
            BasicBlock {
                id,
                label: label.to_owned(),
                stmts: Vec::new(),
                terminator: Terminator::Halt { reason: HaltReason::Normal },
            },
        );
        proof {
            assert(stmt_views(Seq::empty()) =~= Seq::empty());
            assert(self@.program.blocks =~= old(self)@.after_block(label@).program.blocks);
        }
        id
    }

    /// Makes another block the current one.
    pub fn switch_block(&mut self, id: BlockId)
        ensures
            final(self)@ == old(self)@.switch(id),
            old(self)@.well_formed() && id.0 < old(self)@.program.blocks.len()
                ==> final(self)@.well_formed(),
    {
        self.current_block = id;
    }

    /// The current block.
    pub fn current(&mut self) -> (block: &mut BasicBlock)
        requires
            old(self).current_block.0 < old(self).program.blocks@.len(),
        ensures
            *block == old(self).program.blocks@[old(self).current_block.0 as int],
            final(self).program.blocks@ == old(self).program.blocks@.update(
                old(self).current_block.0 as int,
                *final(block),
            ),
            final(self)@ == old(self)@.with_current(final(block)@),
    {
        let idx: usize = self.current_block.0 as usize;
        &mut self.program.blocks[idx]
    }

    /// Appends a statement to the current block.
    pub fn emit(&mut self, stmt: Stmt)
        requires
            old(self).current_block.0 < old(self).program.blocks@.len(),
        ensures
            final(self)@ == old(self)@.emit(stmt@),
            old(self)@.well_formed() ==> final(self)@.well_formed(),
    {
        proof {
            let stmts = old(self).program.blocks@[old(self).current_block.0 as int].stmts@;
            assert(stmt_views(stmts.push(stmt)) =~= stmt_views(stmts).push(stmt@));
        }
        let block = self.current();
        block.stmts.push(stmt);
    }

    /// Replaces the terminator of the current block.
    pub fn set_terminator(&mut self, terminator: Terminator)
        requires
            old(self).current_block.0 < old(self).program.blocks@.len(),
        ensures
            final(self)@ == old(self)@.terminate(terminator@),
            old(self)@.well_formed() ==> final(self)@.well_formed(),
    {
        let block = self.current();
        block.terminator = terminator;
    }

    /// The memory slot of a variable, allocated on its first use.
    pub fn allocate_slot(&mut self, var: VarId) -> (slot: u8)
        requires
            table::lookup(old(self).program.slot_map@, var.0) is Some || old(
                self,
            ).program.slot_count < USER_SLOTS,
        ensures
            slot == old(self)@.slot(var),
            final(self)@ == old(self)@.after_slot(var),
            old(self)@.well_formed() ==> final(self)@.well_formed(),
            old(self)@.well_formed() && old(self)@.sequential() ==> final(self)@.sequential(),
    {
        match self.program.slot_map.get(var.0) {
            Some(slot) => *slot,
            None => {
                let slot: u8 = self.program.slot_count;
                proof {
                    table::lemma_place_of(self.program.slot_map@, var.0);
                }
                self.program.slot_map.insert(var.0, slot);
                self.program.slot_count = self.program.slot_count + 1;
                slot
            },
        }
    }

    /// The program that was built.
    pub fn build(self) -> (program: LcirProgram)
        ensures
            program == self.program,
    {
        self.program
    }
}

// ---------------------------------------------------------------------------
// Validation
// ---------------------------------------------------------------------------

/// The targets of a terminator are among `count` blocks.
pub open spec fn targets_exist(terminator: TerminatorView, count: nat) -> bool {
    match terminator {
        TerminatorView::Jump(target) => target.0 < count,
        TerminatorView::Branch { cond, then_target, else_target } => then_target.0 < count
            && else_target.0 < count,
        _ => true,
    }
}

/// What is wrong with the targets of a block, if anything.
pub open spec fn block_defect(block: BlockView, count: nat) -> Option<Seq<char>> {
    match block.terminator {
        TerminatorView::Jump(target) => if target.0 < count {
            None
        } else {
            Some(missing_target(block.id, " jumps to non-existent block "@, target))
        },
        TerminatorView::Branch { cond, then_target, else_target } => if then_target.0 >= count {
            Some(missing_target(block.id, " jumps to non-existent block "@, then_target))
        } else if else_target.0 >= count {
            Some(missing_target(block.id, " branches to non-existent block "@, else_target))
        } else {
            None
        },
        _ => None,
    }
}

/// That a block leads to one that does not exist, in words.
pub open spec fn missing_target(id: BlockId, verb: Seq<char>, target: BlockId) -> Seq<char> {
    "block "@ + text::decimal(id.0 as nat) + verb + text::decimal(target.0 as nat)
}

/// What is wrong with the first defective block from `from` on, if any is.
pub open spec fn first_defect(blocks: Seq<BlockView>, from: int) -> Option<Seq<char>>
    decreases blocks.len() - from,
{
    if from < 0 || from >= blocks.len() {
        None
    } else {
        match block_defect(blocks[from], blocks.len()) {
            Some(defect) => Some(defect),
            None => first_defect(blocks, from + 1),
        }
    }
}

impl ProgramView {
    /// Every target of every block exists, and so does the entry.
    pub open spec fn intact(self) -> bool {
        &&& self.entry.0 < self.blocks.len()
        &&& forall|i: int|
            0 <= i < self.blocks.len() ==> targets_exist(
                (#[trigger] self.blocks[i]).terminator,
                self.blocks.len(),
            )
    }

    /// What is wrong with the program, if anything: the first missing target,
    /// or else a missing entry.
    pub open spec fn defect(self) -> Option<Seq<char>> {
        match first_defect(self.blocks, 0) {
            Some(defect) => Some(defect),
            None => if self.entry.0 < self.blocks.len() {
                None
            } else {
                Some("entry block "@ + text::decimal(self.entry.0 as nat) + " does not exist"@)
            },
        }
    }
}

/// The words of [`missing_target`].
fn missing_target_text(id: BlockId, verb: &str, target: BlockId) -> (s: String)
    ensures
        s@ == missing_target(id, verb@, target),
{
    let mut s: String = "block ".to_owned();
    text::push_decimal(&mut s, id.0 as u64);
    s.push_str(verb);
    text::push_decimal(&mut s, target.0 as u64);
    s
}

impl LcirProgram {
    /// Validate basic block integrity: all targets exist, entry is valid.
    pub fn validate(&self) -> (checked: Result<()>)
        ensures
            checked is Ok <==> self@.intact(),
            checked is Err <==> self@.defect() is Some,
            checked matches Err(e) ==> e@ == GuardErrorView::Validation(self@.defect()->0),
    {
        let count: usize = self.blocks.len();
        let mut i: usize = 0;
        while i < count
            invariant
                count == self.blocks@.len(),
                i <= count,
                first_defect(self@.blocks, 0) == first_defect(self@.blocks, i as int),
                forall|k: int|
                    0 <= k < i ==> targets_exist(
                        (#[trigger] self@.blocks[k]).terminator,
                        count as nat,
                    ),
            decreases count - i,
        {
            let block = &self.blocks[i];
            assert(self@.blocks[i as int] == block@);
            match &block.terminator {
                Terminator::Jump(target) => {
                    if target.0 as usize >= count {
                        return Err(
                            GuardError::Validation(
                                missing_target_text(
                                    block.id,
                                    " jumps to non-existent block ",
                                    *target,
                                ),
                            ),
                        );
                    }
                },
                Terminator::Branch { then_target, else_target, .. } => {
                    if then_target.0 as usize >= count {
                        return Err(
                            GuardError::Validation(
                                missing_target_text(
                                    block.id,
                                    " jumps to non-existent block ",
                                    *then_target,
                                ),
                            ),
                        );
                    }
                    if else_target.0 as usize >= count {
                        return Err(
                            GuardError::Validation(
                                missing_target_text(
                                    block.id,
                                    " branches to non-existent block ",
                                    *else_target,
                                ),
                            ),
                        );
                    }
                },
                _ => {},
            }
            i += 1;
        }
        if self.entry.0 as usize >= count {
            let mut s: String = "entry block ".to_owned();
            text::push_decimal(&mut s, self.entry.0 as u64);
            s.push_str(" does not exist");
            return Err(GuardError::Validation(s));
        }
        Ok(())
    }
}

// ---------------------------------------------------------------------------
// Laws
// ---------------------------------------------------------------------------

/// Allocated slots are private: no two variables share one, and all are in the
/// range that a program may use.
pub proof fn law_slots_are_private(b: BuilderView, x: u32, y: u32)
    requires
        b.well_formed(),
        b.sequential(),
        table::lookup(b.program.slot_map, x) is Some,
        table::lookup(b.program.slot_map, y) is Some,
    ensures
        table::lookup(b.program.slot_map, x) == table::lookup(b.program.slot_map, y) ==> x == y,
        table::lookup(b.program.slot_map, x)->0 < b.program.slot_count <= USER_SLOTS,
{
    table::lemma_place_of(b.program.slot_map, x);
    table::lemma_place_of(b.program.slot_map, y);
}

/// A slot is kept: asking for it again gives the same one and changes nothing,
/// and no other variable's slot changes.
pub proof fn law_slot_is_kept(b: BuilderView, var: VarId, other: VarId)
    requires
        b.well_formed(),
        b.sequential(),
        b.program.slot_count < USER_SLOTS,
    ensures
        b.after_slot(var).well_formed(),
        b.after_slot(var).sequential(),
        b.after_slot(var).slot(var) == b.slot(var),
        b.after_slot(var).after_slot(var) == b.after_slot(var),
        other != var && table::lookup(b.program.slot_map, other.0) is Some ==> b.after_slot(
            var,
        ).slot(other) == b.slot(other),
{
    table::lemma_place_of(b.program.slot_map, var.0);
    table::law_lookup_after_put(
        b.program.slot_map,
        var.0,
        b.program.slot_count as u8,
        other.0,
    );
}

/// New numbers are new: the next variable and the next block differ from those
/// before, and a new block is empty and leaves the others as they are.
pub proof fn law_new_numbers_are_new(b: BuilderView, label: Seq<char>, i: int)
    requires
        b.well_formed(),
        0 <= b.next_var < u32::MAX,
        b.next_block < u32::MAX,
        0 <= i < b.program.blocks.len(),
    ensures
        b.after_var().new_var() != b.new_var(),
        b.after_block(label).new_block() != b.new_block(),
        b.after_block(label).well_formed(),
        b.program.blocks[i].id != b.new_block(),
        b.after_block(label).program.blocks[i] == b.program.blocks[i],
        b.after_block(label).program.blocks[b.new_block().0 as int] == empty_block(
            b.new_block(),
            label,
        ),
{
}

/// A new builder has one empty block, which is the entry and the current one. It knows
/// no slots and no invariants, and its variables are numbered from 1000 on.
pub proof fn law_new_builder(name: Seq<char>, version: Seq<char>)
    ensures
        ({
            let b = BuilderView::new(name, version);
            &&& b.program.name == name
            &&& b.program.version == version
            &&& b.program.blocks.len() == 1
            &&& b.program.blocks[0].id == BlockId(0)
            &&& b.program.blocks[0].label == "entry"@
            &&& b.program.blocks[0].stmts.len() == 0
            &&& b.program.blocks[0].terminator == TerminatorView::Halt {
                reason: HaltReasonView::Normal,
            }
            &&& b.program.entry == BlockId(0)
            &&& b.current_block == BlockId(0)
            &&& b.program.slot_map.len() == 0
            &&& b.program.slot_count == 0
            &&& b.program.invariant_metadata.len() == 0
            &&& b.next_var == 1000
            &&& b.next_block == 1
        }),
{
}

/// The programs are the same but for their blocks.
pub open spec fn same_frame(p: ProgramView, q: ProgramView) -> bool {
    &&& q.name == p.name
    &&& q.version == p.version
    &&& q.entry == p.entry
    &&& q.slot_map == p.slot_map
    &&& q.slot_count == p.slot_count
    &&& q.invariant_metadata == p.invariant_metadata
    &&& q.blocks.len() == p.blocks.len()
}

/// A statement goes to the end of the current block, a terminator takes the place of
/// the one that the current block had, and nothing else changes. Another block can
/// become the current one.
pub proof fn law_code_goes_to_the_current_block(
    b: BuilderView,
    stmt: StmtView,
    terminator: TerminatorView,
    next: BlockId,
    i: int,
)
    requires
        b.current_block.0 < b.program.blocks.len(),
        0 <= i < b.program.blocks.len(),
    ensures
        ({
            let at = b.current_block.0 as int;
            let before = b.program.blocks[i];
            let (c, d) = (b.emit(stmt), b.terminate(terminator));
            let (x, y) = (c.program.blocks[i], d.program.blocks[i]);
            &&& same_frame(b.program, c.program) && same_frame(b.program, d.program)
            &&& c.current_block == b.current_block && d.current_block == b.current_block
            &&& c.next_var == b.next_var && d.next_var == b.next_var
            &&& c.next_block == b.next_block && d.next_block == b.next_block
            &&& i != at ==> x == before && y == before
            &&& i == at ==> {
                &&& x.stmts == before.stmts.push(stmt) && y.stmts == before.stmts
                &&& x.terminator == before.terminator && y.terminator == terminator
                &&& x.id == before.id && y.id == before.id
                &&& x.label == before.label && y.label == before.label
            }
        }),
        b.switch(next).current_block == next,
        b.switch(next).program == b.program,
        b.switch(next).next_var == b.next_var && b.switch(next).next_block == b.next_block,
{
}

/// A new block has the next number, its label and nothing in it, and halts. It comes
/// after the others, which stay as they are.
pub proof fn law_new_block_comes_last(b: BuilderView, label: Seq<char>)
    requires
        0 <= b.next_block <= u32::MAX,
    ensures
        ({
            let c = b.after_block(label);
            let block = c.program.blocks.last();
            &&& c.program.blocks.drop_last() == b.program.blocks
            &&& block.id.0 == b.next_block && b.new_block() == block.id
            &&& block.label == label
            &&& block.stmts.len() == 0
            &&& block.terminator == TerminatorView::Halt { reason: HaltReasonView::Normal }
            &&& c.next_block == b.next_block + 1
            &&& c.next_var == b.next_var
            &&& c.current_block == b.current_block
            &&& c.program.slot_map == b.program.slot_map
        }),
{
    assert(b.after_block(label).program.blocks.drop_last() =~= b.program.blocks);
}

/// A variable that has no slot gets the next one, and one that has a slot keeps it.
/// So many slots are counted as were given out.
pub proof fn law_slots_are_given_out_in_order(b: BuilderView, var: VarId, i: int)
    requires
        b.well_formed(),
        b.sequential(),
        b.program.slot_count < USER_SLOTS,
    ensures
        ({
            let map = b.program.slot_map;
            let fresh = forall|j: int| 0 <= j < map.len() ==> (#[trigger] map[j]).0 != var.0;
            &&& fresh ==> b.slot(var) == map.len()
            &&& fresh ==> b.after_slot(var).program.slot_map == map.push(
                (var.0, map.len() as u8),
            )
            &&& fresh ==> b.after_slot(var).program.slot_count == map.len() + 1
            &&& 0 <= i < map.len() && map[i].0 == var.0 ==> b.slot(var) == map[i].1
                && b.after_slot(var) == b
        }),
{
    let map = b.program.slot_map;
    table::lemma_place_of(map, var.0);
    if 0 <= i < map.len() && map[i].0 == var.0 {
        table::lemma_place_of_distinct(map, i);
    }
}

/// The slots that variables have.
pub open spec fn slots_of(slot_map: Seq<(u32, u8)>) -> Set<u8> {
    slot_map.map_values(|entry: (u32, u8)| entry.1).to_set()
}

/// A slot that several variables share is counted once.
pub proof fn law_shared_slots_are_counted_once(slot_map: Seq<(u32, u8)>)
    ensures
        slots_of(slot_map).finite(),
        slots_used(slot_map) == slots_of(slot_map).len(),
    decreases slot_map.len(),
{
    let values = slot_map.map_values(|entry: (u32, u8)| entry.1);
    vstd::seq_lib::seq_to_set_is_finite(values);
    if slot_map.len() == 0 {
        assert(slots_of(slot_map) =~= Set::empty());
    } else {
        let front = slot_map.drop_last();
        let slot = slot_map.last().1;
        law_shared_slots_are_counted_once(front);
        let others = front.map_values(|entry: (u32, u8)| entry.1);
        assert(slots_of(slot_map) =~= slots_of(front).insert(slot)) by {
            assert forall|x: u8| #[trigger] slots_of(slot_map).contains(x) <==> slots_of(
                front,
            ).insert(slot).contains(x) by {
                if values.contains(x) {
                    let i = choose|i: int| 0 <= i < values.len() && values[i] == x;
                    if i < front.len() {
                        assert(others[i] == x);
                    }
                }
                if others.contains(x) {
                    let i = choose|i: int| 0 <= i < others.len() && others[i] == x;
                    assert(values[i] == x);
                }
                assert(values[slot_map.len() - 1] == slot);
            }
        }
        assert(taken(front, slot) <==> slots_of(front).contains(slot)) by {
            if taken(front, slot) {
                let i = choose|i: int| 0 <= i < front.len() && (#[trigger] front[i]).1 == slot;
                assert(others[i] == slot);
            }
            if others.contains(slot) {
                let i = choose|i: int| 0 <= i < others.len() && others[i] == slot;
                assert(front[i].1 == slot);
            }
        }
    }
}

/// The terminator leads to a block that does not exist.
pub open spec fn leads_nowhere(terminator: TerminatorView, count: nat) -> bool {
    match terminator {
        TerminatorView::Jump(t) => t.0 >= count,
        TerminatorView::Branch { cond, then_target, else_target } => then_target.0 >= count
            || else_target.0 >= count,
        _ => false,
    }
}

/// The first block that leads nowhere decides on what is wrong with a program.
proof fn lemma_first_defect(blocks: Seq<BlockView>, from: int, i: int)
    requires
        0 <= from <= i <= blocks.len(),
        forall|j: int|
            from <= j < i ==> !leads_nowhere((#[trigger] blocks[j]).terminator, blocks.len()),
    ensures
        i == blocks.len() ==> first_defect(blocks, from) is None,
        i < blocks.len() && leads_nowhere(blocks[i].terminator, blocks.len()) ==> first_defect(
            blocks,
            from,
        ) == block_defect(blocks[i], blocks.len()),
    decreases i - from,
{
    if from < i {
        lemma_first_defect(blocks, from + 1, i);
    }
}

/// Validation goes through the blocks in order. The first one that leads nowhere is
/// named with its missing target, that of a taken branch before the other; after the
/// blocks, a missing entry is named. Where neither is, nothing is wrong.
pub proof fn law_what_validation_finds(p: ProgramView, i: int)
    requires
        0 <= i <= p.blocks.len(),
        forall|j: int|
            0 <= j < i ==> !leads_nowhere((#[trigger] p.blocks[j]).terminator, p.blocks.len()),
        i < p.blocks.len() ==> leads_nowhere(p.blocks[i].terminator, p.blocks.len()),
    ensures
        p.intact() <==> i == p.blocks.len() && p.entry.0 < p.blocks.len(),
        i == p.blocks.len() && p.entry.0 < p.blocks.len() ==> p.defect() is None,
        i == p.blocks.len() && p.entry.0 >= p.blocks.len() ==> p.defect() == Some(
            "entry block "@ + text::decimal(p.entry.0 as nat) + " does not exist"@,
        ),
        i < p.blocks.len() ==> {
            let (count, name) = (p.blocks.len(), text::decimal(p.blocks[i].id.0 as nat));
            p.defect() == Some(
                match p.blocks[i].terminator {
                    TerminatorView::Jump(t) => "block "@ + name
                        + " jumps to non-existent block "@ + text::decimal(t.0 as nat),
                    TerminatorView::Branch { cond, then_target, else_target } => if then_target.0
                        >= count {
                        "block "@ + name + " jumps to non-existent block "@ + text::decimal(
                            then_target.0 as nat,
                        )
                    } else {
                        "block "@ + name + " branches to non-existent block "@ + text::decimal(
                            else_target.0 as nat,
                        )
                    },
                    _ => Seq::empty(),
                },
            )
        },
{
    lemma_first_defect(p.blocks, 0, i);
    if i == p.blocks.len() {
        assert forall|j: int| 0 <= j < p.blocks.len() implies targets_exist(
            (#[trigger] p.blocks[j]).terminator,
            p.blocks.len(),
        ) by {
            assert(!leads_nowhere(p.blocks[j].terminator, p.blocks.len()));
        }
    } else {
        assert(!targets_exist(p.blocks[i].terminator, p.blocks.len()));
    }
}

/// A view shows a program as it is, with all its blocks and their statements.
pub proof fn law_view_of_a_program(p: LcirProgram, i: int, j: int)
    requires
        0 <= i < p.blocks@.len(),
    ensures
        p@.name == p.name@,
        p@.version == p.version@,
        p@.entry == p.entry,
        p@.slot_map == p.slot_map@,
        p@.slot_count == p.slot_count,
        p@.invariant_metadata == p.invariant_metadata@,
        p@.blocks.len() == p.blocks@.len(),
        ({
            let (block, shown) = (p.blocks@[i], p@.blocks[i]);
            &&& shown.id == block.id
            &&& shown.label == block.label@
            &&& shown.terminator == block.terminator@
            &&& shown.stmts.len() == block.stmts@.len()
            &&& 0 <= j < block.stmts@.len() ==> shown.stmts[j] == block.stmts@[j]@
        }),
{
}

/// A view shows a builder as it is.
pub proof fn law_view_of_a_builder(b: LcirBuilder)
    ensures
        b@.program == b.program@,
        b@.current_block == b.current_block,
        b@.next_var == b.next_var,
        b@.next_block == b.next_block,
{
}

/// Views show statements and terminators as they are.
pub proof fn law_views_of_code(
    v: VarId,
    op: AtomicOp,
    slot: u8,
    ty: CirType,
    value: ConstValue,
    name: String,
    span: Span,
    a: BlockId,
    b: BlockId,
)
    ensures
        (Stmt::Assign { dest: v, op, span })@ == (StmtView::Assign { dest: v, op, span: span@ }),
        (Stmt::LoadState { dest: v, slot, ty, span })@ == (StmtView::LoadState {
            dest: v,
            slot,
            ty,
            span: span@,
        }),
        (Stmt::Store { src: v, slot, span })@ == (StmtView::Store { src: v, slot, span: span@ }),
        (Stmt::PushConst { value, span })@ == (StmtView::PushConst { value, span: span@ }),
        (Stmt::Pop { dest: v, ty, span })@ == (StmtView::Pop { dest: v, ty, span: span@ }),
        (Stmt::Assert { cond: v, invariant_name: name, span })@ == (StmtView::Assert {
            cond: v,
            invariant_name: name@,
            span: span@,
        }),
        (Stmt::Trace { label: name, span })@ == (StmtView::Trace { label: name@, span: span@ }),
        Terminator::Jump(a)@ == TerminatorView::Jump(a),
        (Terminator::Branch { cond: v, then_target: a, else_target: b })@ == (
        TerminatorView::Branch { cond: v, then_target: a, else_target: b }),
        Terminator::Return@ == TerminatorView::Return,
        (Terminator::Halt { reason: HaltReason::Normal })@ == (TerminatorView::Halt {
            reason: HaltReasonView::Normal,
        }),
        (Terminator::Halt { reason: HaltReason::ConstraintViolation { invariant: name } })@ == (
        TerminatorView::Halt {
            reason: HaltReasonView::ConstraintViolation { invariant: name@ },
        }),
{
}

/// So many slots can be given out one after the other as lie below those for locals.
pub proof fn law_number_of_user_slots()
    ensures
        USER_SLOTS == 224,
{
}

} // verus!
