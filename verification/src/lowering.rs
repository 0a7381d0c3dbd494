//! What lowering does, as a function on states.
//!
//! A state holds the program built so far and the tables that the lowering
//! pass keeps beside it. Counters are integers here: the pass itself has to stop
//! where one of them outgrows its field, or where the machine's memory has no
//! place for what is asked for, and [`Lowering::fits`] says when.

use crate::binary64;
use crate::cir::BinOp;
use crate::cir::BufferInfo;
use crate::cir::CirInvariant;
use crate::cir::CirModule;
use crate::cir::ConstValue;
use crate::cir::Domain;
use crate::cir::Expr;
use crate::cir::UnOp;
use crate::cir::VarId;
use crate::cir::VarInfo;
use crate::cir::VarKind;
use crate::codegen;
use crate::error;
use crate::error::GuardErrorView;
use crate::error::SpanView;
use crate::lcir;
use crate::lcir::AtomicOp;
use crate::lcir::BlockId;
use crate::lcir::BuilderView;
use crate::lcir::HaltReasonView;
use crate::lcir::InvariantMeta;
use crate::lcir::ProgramView;
use crate::lcir::StmtView;
use crate::lcir::TerminatorView;
use crate::table;
use vstd::prelude::*;

verus! {

/// The state of the lowering pass.
#[verifier::ext_equal]
pub struct Lowering {
    pub builder: BuilderView,
    /// The LCIR variable of each CIR variable.
    pub var_map: Seq<(u32, VarId)>,
    /// The slot of each history buffer's head.
    pub buffer_slots: Seq<(u32, u8)>,
    pub tmp_counter: int,
    /// The number of temporaries whose values are still wanted.
    pub depth: int,
    /// The first slot above those of local variables.
    pub floor: int,
    /// Everything that was asked for had its place in memory.
    pub room: bool,
}

/// A state with the variable that holds a value, or with an error.
pub type Step = (Lowering, core::result::Result<VarId, GuardErrorView>);

/// What an expression is lowered for: the values of the variables that
/// quantifiers bind, the innermost last, and how many samples ago it is read.
#[verifier::ext_equal]
pub struct Scope {
    pub bound: Seq<(VarId, i64)>,
    pub age: nat,
}

/// The value that the innermost quantifier over a variable binds it to.
pub open spec fn bound_value(bound: Seq<(VarId, i64)>, var: VarId) -> Option<i64>
    decreases bound.len(),
{
    if bound.len() == 0 {
        None
    } else if bound.last().0 == var {
        Some(bound.last().1)
    } else {
        bound_value(bound.drop_last(), var)
    }
}

/// What the instances of a body range over: the members of a domain, or the
/// samples back from the one at hand.
pub enum Over {
    Members(VarId, Domain),
    Samples,
}

impl Scope {
    /// Nothing is bound, and the sample at hand is read.
    pub open spec fn top() -> Scope {
        Scope { bound: Seq::empty(), age: 0 }
    }

    /// For the instance with the number `i`.
    pub open spec fn instance(self, over: Over, i: nat) -> Scope {
        match over {
            Over::Members(var, domain) => Scope {
                bound: self.bound.push((var, domain.member(i))),
                ..self
            },
            Over::Samples => Scope { age: self.age + i, ..self },
        }
    }
}

/// The span of the code that lowering adds.
pub open spec fn lower_span() -> SpanView {
    error::point_span("<lower>"@, 0, 0)
}

/// The span of the initialization code.
pub open spec fn init_span() -> SpanView {
    error::point_span("<init>"@, 0, 0)
}

/// The operation of a unary expression.
pub open spec fn unary_op(op: UnOp, src: VarId) -> AtomicOp {
    match op {
        UnOp::Neg => AtomicOp::Neg(src),
        UnOp::Abs => AtomicOp::Abs(src),
        UnOp::Not => AtomicOp::Not(src),
    }
}

/// The operation of a binary expression.
pub open spec fn binary_op(op: BinOp, l: VarId, r: VarId) -> AtomicOp {
    match op {
        BinOp::Add => AtomicOp::Add(l, r),
        BinOp::Sub => AtomicOp::Sub(l, r),
        BinOp::Mul => AtomicOp::Mul(l, r),
        BinOp::Div => AtomicOp::Div(l, r),
        BinOp::Mod => AtomicOp::Mod(l, r),
        BinOp::Eq => AtomicOp::Eq(l, r),
        BinOp::Neq => AtomicOp::Neq(l, r),
        BinOp::Lt => AtomicOp::Lt(l, r),
        BinOp::Gt => AtomicOp::Gt(l, r),
        BinOp::Lte => AtomicOp::Lte(l, r),
        BinOp::Gte => AtomicOp::Gte(l, r),
        BinOp::And => AtomicOp::And(l, r),
        BinOp::Or => AtomicOp::Or(l, r),
        BinOp::Implies => AtomicOp::Implies(l, r),
    }
}

// ---------------------------------------------------------------------------
// Memory
// ---------------------------------------------------------------------------

/// The first slot for local variables and temporaries. Local variables have slots
/// from this one upwards, and temporaries from the last one downwards.
pub const LOCAL_START: u8 = 224;

/// The number of slots for local variables and temporaries.
pub const LOCAL_SLOTS: u8 = 32;

/// The slots for variables of a kind: from the first number up to the second.
pub open spec fn region(kind: VarKind) -> (int, int) {
    match kind {
        VarKind::Constant => (0, 32),
        VarKind::State => (32, 128),
        VarKind::Temporal => (128, 224),
        VarKind::Local => (LOCAL_START as int, 256),
    }
}

/// The kind of a CIR variable. One that is not declared is local.
pub open spec fn kind_of(module: CirModule, var: VarId) -> VarKind {
    match table::lookup(module.symbol_table.vars@, var.0) {
        Some(info) => info.kind,
        None => VarKind::Local,
    }
}

/// The buffer keeps a sample in the slot: the one at hand in its head, and the
/// retained ones after it.
pub open spec fn covers_slot(buffer: BufferInfo, slot: int) -> bool {
    buffer.slot_base <= slot <= buffer.slot_base + buffer.depth
}

/// A buffer keeps a sample in the slot.
pub open spec fn covered(buffers: Seq<(u32, BufferInfo)>, slot: int) -> bool {
    exists|i: int| 0 <= i < buffers.len() && covers_slot((#[trigger] buffers[i]).1, slot)
}

/// The first slot from `from` up to `to` that no variable has and in which no
/// buffer keeps a sample.
pub open spec fn first_vacant(
    slot_map: Seq<(u32, u8)>,
    buffers: Seq<(u32, BufferInfo)>,
    from: int,
    to: int,
) -> Option<u8>
    decreases to - from,
{
    if from >= to {
        None
    } else if !lcir::taken(slot_map, from as u8) && !covered(buffers, from) {
        Some(from as u8)
    } else {
        first_vacant(slot_map, buffers, from + 1, to)
    }
}

/// The buffer with the identifier `id` records `var`.
pub open spec fn records(buffers: Seq<(u32, BufferInfo)>, id: u32, var: VarId) -> bool {
    match table::lookup(buffers, id) {
        Some(buffer) => buffer.var == var,
        None => false,
    }
}

/// The slot of the first buffer from `from` on that records `var`, if any does.
pub open spec fn recorded_slot(
    slots: Seq<(u32, u8)>,
    buffers: Seq<(u32, BufferInfo)>,
    var: VarId,
    from: int,
) -> Option<u8>
    decreases slots.len() - from,
{
    if from < 0 || from >= slots.len() {
        None
    } else if records(buffers, slots[from].0, var) {
        Some(slots[from].1)
    } else {
        recorded_slot(slots, buffers, var, from + 1)
    }
}

/// The number of samples that the first buffer from `from` on that records `var`
/// retains; none where no buffer does.
pub open spec fn retained(buffers: Seq<(u32, BufferInfo)>, var: VarId, from: int) -> nat
    decreases buffers.len() - from,
{
    if from < 0 || from >= buffers.len() {
        0
    } else if buffers[from].1.var == var {
        buffers[from].1.depth as nat
    } else {
        retained(buffers, var, from + 1)
    }
}

/// A buffer retains the variable's sample with the number `age`.
pub open spec fn retains(module: CirModule, var: VarId, age: nat) -> bool {
    age <= retained(module.symbol_table.buffers@, var, 0)
}

/// The sample with the number `age`, which an expression that is read some samples
/// ago asks for, is not retained.
pub open spec fn forgotten(module: CirModule, scope: Scope, var: VarId, age: nat) -> bool {
    scope.age > 0 && !retains(module, var, age)
}

/// The error where a sample is asked for that is not retained.
pub open spec fn forgotten_error() -> GuardErrorView {
    GuardErrorView::Lowering("sample is older than any that a history buffer retains"@)
}

/// The difference, or zero where it would be negative.
pub open spec fn less(a: nat, b: nat) -> nat {
    if a > b {
        (a - b) as nat
    } else {
        0
    }
}

/// The smaller of two numbers, where a missing one is larger than any.
pub open spec fn least(a: Option<nat>, b: Option<nat>) -> Option<nat> {
    match (a, b) {
        (Some(x), Some(y)) => Some(
            if x <= y {
                x
            } else {
                y
            },
        ),
        (Some(x), None) => Some(x),
        (None, y) => y,
    }
}

/// How many samples back an expression can be read from what the buffers
/// retain. An expression that reads no variable has no limit.
pub open spec fn horizon(
    buffers: Seq<(u32, BufferInfo)>,
    bound: Seq<VarId>,
    e: Expr,
) -> Option<nat>
    decreases e,
{
    match e {
        Expr::Const(c) => None,
        Expr::Var(v) => if bound.contains(v) {
            None
        } else {
            Some(retained(buffers, v, 0))
        },
        Expr::Unary { op, operand, ty } => horizon(buffers, bound, *operand),
        Expr::Binary { op, left, right, ty } => least(
            horizon(buffers, bound, *left),
            horizon(buffers, bound, *right),
        ),
        Expr::If { cond, then_branch, else_branch, ty } => least(
            horizon(buffers, bound, *cond),
            least(horizon(buffers, bound, *then_branch), horizon(buffers, bound, *else_branch)),
        ),
        Expr::Index { .. } => None,
        Expr::Field { .. } => None,
        Expr::Forall { var, domain, body, ty } => horizon(buffers, bound.push(var), *body),
        Expr::Exists { var, domain, body, ty } => horizon(buffers, bound.push(var), *body),
        Expr::Always(inner, ty) => horizon(buffers, bound, *inner),
        Expr::Eventually(inner, ty) => horizon(buffers, bound, *inner),
        Expr::Next(inner, ty) => horizon(buffers, bound, *inner),
        Expr::Until { left, right, ty } => least(
            horizon(buffers, bound, *left),
            horizon(buffers, bound, *right),
        ),
        Expr::Since { left, right, ty } => least(
            horizon(buffers, bound, *left),
            horizon(buffers, bound, *right),
        ),
        Expr::For { duration, body, ty } => match horizon(buffers, bound, *body) {
            Some(h) => Some(less(h, less(duration as nat, 1))),
            None => None,
        },
        Expr::After { duration, body, ty } => horizon(buffers, bound, *body),
        Expr::Old(v, ty) => Some(less(retained(buffers, v, 0), 1)),
        Expr::RateOf(v, ty) => Some(less(retained(buffers, v, 0), 1)),
        Expr::Delta(v, ty) => Some(less(retained(buffers, v, 0), 1)),
    }
}

/// The variables that are bound.
pub open spec fn bound_vars(bound: Seq<(VarId, i64)>) -> Seq<VarId> {
    bound.map_values(|b: (VarId, i64)| b.0)
}

/// The number of samples, back from the one that is read, for which what an
/// expression reads is retained. The one that is read counts in any case.
pub open spec fn samples(module: CirModule, scope: Scope, e: Expr) -> nat {
    match horizon(module.symbol_table.buffers@, bound_vars(scope.bound), e) {
        Some(h) => less(h, scope.age) + 1,
        None => 1,
    }
}

impl Lowering {
    /// The state at the start.
    pub open spec fn new(name: Seq<char>, version: Seq<char>) -> Lowering {
        Lowering {
            builder: BuilderView::new(name, version),
            var_map: Seq::empty(),
            buffer_slots: Seq::empty(),
            tmp_counter: 0,
            depth: 0,
            floor: LOCAL_START as int,
            room: true,
        }
    }

    /// No counter has outgrown its field, and memory had room.
    pub open spec fn fits(self) -> bool {
        &&& self.builder.next_var <= u32::MAX
        &&& self.builder.next_block <= u32::MAX
        &&& self.builder.program.slot_count <= u8::MAX
        &&& self.tmp_counter <= u32::MAX
        &&& self.room
    }

    /// No counter of `self` is beyond that of `later`, what had no room has none
    /// later, and the program keeps its name and its version.
    pub open spec fn before(self, later: Lowering) -> bool {
        &&& self.builder.program.name == later.builder.program.name
        &&& self.builder.program.version == later.builder.program.version
        &&& self.builder.next_var <= later.builder.next_var
        &&& self.builder.next_block <= later.builder.next_block
        &&& self.builder.program.slot_count <= later.builder.program.slot_count
        &&& self.tmp_counter <= later.tmp_counter
        &&& self.floor <= later.floor
        &&& later.room ==> self.room
    }

    /// The tables have no key twice, and the program is well formed.
    pub open spec fn well_formed(self) -> bool {
        &&& self.builder.well_formed()
        &&& table::keys_distinct(self.var_map)
        &&& table::keys_distinct(self.buffer_slots)
        &&& 0 <= self.depth <= LOCAL_SLOTS
        &&& LOCAL_START <= self.floor <= 256
    }

    /// With another builder.
    pub open spec fn with(self, builder: BuilderView) -> Lowering {
        Lowering { builder, ..self }
    }

    /// With so many temporaries still wanted.
    pub open spec fn at(self, depth: int) -> Lowering {
        Lowering { depth, ..self }
    }

    /// There is no room unless the condition holds.
    pub open spec fn demand(self, condition: bool) -> Lowering {
        Lowering { room: self.room && condition, ..self }
    }

    /// The slot of an LCIR variable.
    pub open spec fn slot(self, var: VarId) -> u8 {
        codegen::slot_of(self.builder.program.slot_map, var)
    }

    /// Where the slots for variables of a kind end: below those of temporaries
    /// whose values are still wanted.
    pub open spec fn ceiling(self, kind: VarKind) -> int {
        if region(kind).1 <= 256 - self.depth {
            region(kind).1
        } else {
            256 - self.depth
        }
    }

    /// The slot is below the first one above those of local variables.
    pub open spec fn raise(self, slot: u8) -> Lowering {
        Lowering {
            floor: if slot < self.floor {
                self.floor
            } else {
                slot + 1
            },
            ..self
        }
    }

    /// After an LCIR variable has a slot: the one that it had, or a vacant one
    /// among those for its kind.
    pub open spec fn settle(self, module: CirModule, var: VarId, kind: VarKind) -> Lowering {
        if table::lookup(self.builder.program.slot_map, var.0) is Some {
            self
        } else {
            match first_vacant(
                self.builder.program.slot_map,
                module.symbol_table.buffers@,
                region(kind).0,
                self.ceiling(kind),
            ) {
                Some(slot) => self.with(self.builder.after_settle(var, slot)).raise(slot),
                None => self.demand(false),
            }
        }
    }

    /// The next temporary.
    pub open spec fn tmp(self) -> VarId {
        self.builder.new_var()
    }

    /// After a temporary was given out.
    pub open spec fn after_tmp(self) -> Lowering {
        Lowering {
            builder: self.builder.after_var(),
            tmp_counter: self.tmp_counter + 1,
            ..self
        }
    }

    /// After a statement was emitted.
    pub open spec fn emit(self, stmt: StmtView) -> Lowering {
        self.with(self.builder.emit(stmt))
    }

    /// The slot of the next temporary.
    pub open spec fn scratch(self) -> u8 {
        (255 - self.depth) as u8
    }

    /// After a temporary was given out and has its slot, which no local variable
    /// has.
    pub open spec fn after_scratch(self) -> Lowering {
        let later = self.after_tmp();
        later.with(later.builder.after_settle(self.tmp(), self.scratch())).at(
            self.depth + 1,
        ).demand(self.floor <= 255 - self.depth)
    }

    /// After the result of an operation went to a new temporary.
    pub open spec fn assign(self, op: AtomicOp) -> Lowering {
        self.after_scratch().emit(StmtView::Assign { dest: self.tmp(), op, span: lower_span() })
    }

    /// [`Lowering::assign`] with the temporary.
    pub open spec fn compute(self, op: AtomicOp) -> Step {
        (self.assign(op), Ok(self.tmp()))
    }

    /// The LCIR variable of a CIR variable: the one that it has, or a new one.
    pub open spec fn mapped(self, var: VarId) -> VarId {
        match table::lookup(self.var_map, var.0) {
            Some(id) => id,
            None => self.builder.new_var(),
        }
    }

    /// After the CIR variable has an LCIR variable, and that one a slot.
    pub open spec fn after_map(self, module: CirModule, var: VarId) -> Lowering {
        match table::lookup(self.var_map, var.0) {
            Some(id) => self.settle(module, id, kind_of(module, var)),
            None => Lowering {
                builder: self.builder.after_var(),
                var_map: table::put(self.var_map, var.0, self.builder.new_var()),
                ..self
            }.settle(module, self.builder.new_var(), kind_of(module, var)),
        }
    }

    /// The variable whose slot serves a CIR variable.
    pub open spec fn slot_owner(self, var: VarId) -> VarId {
        match table::lookup(self.var_map, var.0) {
            Some(id) => id,
            None => var,
        }
    }

    /// After the variable that serves a CIR variable has a slot. A CIR variable
    /// can only serve itself under one of the numbers that are reserved for it.
    pub open spec fn after_slot_for(self, module: CirModule, var: VarId) -> Lowering {
        self.settle(module, self.slot_owner(var), kind_of(module, var)).demand(
            table::lookup(self.var_map, var.0) is Some || var.0 < 1000,
        )
    }

    /// The slot with the history of a variable: that of its buffer, or else its own.
    pub open spec fn history(self, module: CirModule, var: VarId) -> u8 {
        match recorded_slot(self.buffer_slots, module.symbol_table.buffers@, var, 0) {
            Some(slot) => slot,
            None => self.after_slot_for(module, var).slot(self.slot_owner(var)),
        }
    }

    /// After the variable has a slot for its history.
    pub open spec fn after_history(self, module: CirModule, var: VarId) -> Lowering {
        match recorded_slot(self.buffer_slots, module.symbol_table.buffers@, var, 0) {
            Some(slot) => self,
            None => self.after_slot_for(module, var),
        }
    }

    /// An operation on a history of which it reads no slot beyond the one with
    /// the number `reach`.
    pub open spec fn look_back(
        self,
        module: CirModule,
        var: VarId,
        reach: nat,
        op: spec_fn(u8) -> AtomicOp,
    ) -> Step {
        let slot = self.history(module, var);
        self.after_history(module, var).demand(slot + reach <= 255).compute(op(slot))
    }

    /// The block after the next `n` ones.
    pub open spec fn block_ahead(self, n: int) -> BlockId {
        BlockId((self.builder.next_block + n) as u32)
    }

    /// Three new blocks for the two branches and for what follows; the current
    /// block branches, and the first branch becomes current.
    pub open spec fn fork(self, cond: VarId) -> Lowering {
        self.with(
            self.builder.after_block("if_then"@).after_block("if_else"@).after_block(
                "if_merge"@,
            ).terminate(
                TerminatorView::Branch {
                    cond,
                    then_target: self.block_ahead(0),
                    else_target: self.block_ahead(1),
                },
            ).switch(self.block_ahead(0)),
        )
    }

    /// The temporary whose slot passes the value on to the merge block has been
    /// set.
    pub open spec fn after_out(self) -> Lowering {
        self.assign(AtomicOp::Const(ConstValue::Bool(true)))
    }

    /// The current block stores `value` in the slot and jumps, and another
    /// block becomes current.
    pub open spec fn hand_over(self, value: VarId, slot: u8, target: BlockId, next: BlockId) -> Lowering {
        self.with(
            self.builder.emit(
                StmtView::Store { src: value, slot, span: lower_span() },
            ).terminate(TerminatorView::Jump(target)).switch(next),
        )
    }

    /// The end of the first branch.
    pub open spec fn leave_then(self, value: VarId, merge: BlockId, next: BlockId) -> Lowering {
        self.after_out().hand_over(value, self.scratch(), merge, next)
    }
}

/// The operation on two operands, the second of which was just lowered.
pub open spec fn on_both(depth: int, op: BinOp, l: VarId, second: Step) -> Step {
    match second {
        (s2, Ok(r)) => s2.at(depth).compute(binary_op(op, l, r)),
        failed => failed,
    }
}

/// Lowers an expression into a variable.
pub open spec fn lower(s: Lowering, module: CirModule, scope: Scope, e: Expr) -> Step
    decreases e, 0nat,
{
    match e {
        Expr::Const(c) => s.compute(AtomicOp::Const(c)),
        Expr::Var(v) => match bound_value(scope.bound, v) {
            Some(x) => s.compute(AtomicOp::Const(ConstValue::Integer(x))),
            None => if scope.age == 0 {
                (s.after_map(module, v), Ok(s.mapped(v)))
            } else if forgotten(module, scope, v, scope.age) {
                (s, Err(forgotten_error()))
            } else {
                s.look_back(
                    module,
                    v,
                    scope.age,
                    |slot: u8| AtomicOp::Old { buffer: slot, depth: scope.age as usize },
                )
            },
        },
        Expr::Unary { op, operand, ty } => match lower(s, module, scope, *operand) {
            (s1, Ok(v)) => s1.at(s.depth).compute(unary_op(op, v)),
            failed => failed,
        },
        Expr::Binary { op, left, right, ty } => match lower(s, module, scope, *left) {
            (s1, Ok(l)) => on_both(s.depth, op, l, lower(s1, module, scope, *right)),
            failed => failed,
        },
        Expr::If { cond, then_branch, else_branch, ty } => match lower(s, module, scope, *cond) {
            (s1, Ok(c)) => {
                let (otherwise, merge) = (s1.block_ahead(1), s1.block_ahead(2));
                match lower(s1.at(s.depth).fork(c), module, scope, *then_branch) {
                    (s2, Ok(t)) => {
                        let slot = s2.scratch();
                        match lower(
                            s2.leave_then(t, merge, otherwise).at(s.depth),
                            module,
                            scope,
                            *else_branch,
                        ) {
                            (s3, Ok(f)) => s3.hand_over(f, slot, merge, merge).at(s.depth).compute(
                                AtomicOp::LoadSlot(slot),
                            ),
                            failed => failed,
                        }
                    },
                    failed => failed,
                }
            },
            failed => failed,
        },
        Expr::Index { .. } => (
            s,
            Err(GuardErrorView::Lowering("array index lowering not yet implemented"@)),
        ),
        Expr::Field { .. } => (
            s,
            Err(GuardErrorView::Lowering("field access lowering not yet implemented"@)),
        ),
        Expr::Forall { var, domain, body, ty } => conclude(
            copies(s, module, scope, Over::Members(var, domain), *body, true, domain.size()),
            true,
        ),
        Expr::Exists { var, domain, body, ty } => conclude(
            copies(s, module, scope, Over::Members(var, domain), *body, false, domain.size()),
            false,
        ),
        Expr::Always(inner, ty) => conclude(
            copies(
                s,
                module,
                scope,
                Over::Samples,
                *inner,
                true,
                samples(module, scope, *inner),
            ),
            true,
        ),
        Expr::Eventually(inner, ty) => conclude(
            copies(
                s,
                module,
                scope,
                Over::Samples,
                *inner,
                false,
                samples(module, scope, *inner),
            ),
            false,
        ),
        Expr::Next(inner, ty) => lower(s, module, scope, *inner),
        Expr::Until { left, right, ty } => match lower(s, module, scope, *left) {
            (s1, Ok(l)) => on_both(s.depth, BinOp::Or, l, lower(s1, module, scope, *right)),
            failed => failed,
        },
        Expr::Since { left, right, ty } => match lower(s, module, scope, *left) {
            (s1, Ok(l)) => on_both(s.depth, BinOp::And, l, lower(s1, module, scope, *right)),
            failed => failed,
        },
        Expr::For { duration, body, ty } => conclude(
            copies(s, module, scope, Over::Samples, *body, true, duration as nat),
            true,
        ),
        Expr::After { duration, body, ty } => lower(s, module, scope, *body),
        Expr::Old(v, ty) => if forgotten(module, scope, v, scope.age + 1) {
            (s, Err(forgotten_error()))
        } else {
            s.look_back(
                module,
                v,
                scope.age + 1,
                |slot: u8| AtomicOp::Old { buffer: slot, depth: (scope.age + 1) as usize },
            )
        },
        Expr::RateOf(v, ty) => if forgotten(module, scope, v, scope.age + 1) {
            (s, Err(forgotten_error()))
        } else {
            s.look_back(
                module,
                v,
                scope.age + 1,
                |slot: u8|
                    AtomicOp::RateOf {
                        buffer: (slot + scope.age) as u8,
                        dt: binary64::real_thousandth(module.sample_period_ms),
                    },
            )
        },
        Expr::Delta(v, ty) => if forgotten(module, scope, v, scope.age + 1) {
            (s, Err(forgotten_error()))
        } else {
            s.look_back(
                module,
                v,
                scope.age + 1,
                |slot: u8| AtomicOp::Delta { buffer: (slot + scope.age) as u8 },
            )
        },
    }
}

/// The operation that joins the instances of a body.
pub open spec fn join_op(all: bool, l: VarId, r: VarId) -> AtomicOp {
    if all {
        AtomicOp::And(l, r)
    } else {
        AtomicOp::Or(l, r)
    }
}

/// Instances and the variable that holds them joined; without instances there is
/// no variable.
pub type Joined = (Lowering, core::result::Result<Option<VarId>, GuardErrorView>);

/// Lowers the first `n` instances of a body and joins each with those before it.
pub open spec fn copies(
    s: Lowering,
    module: CirModule,
    scope: Scope,
    over: Over,
    body: Expr,
    all: bool,
    n: nat,
) -> Joined
    decreases body, n + 1,
{
    if n == 0 {
        (s, Ok(None))
    } else {
        match copies(s, module, scope, over, body, all, (n - 1) as nat) {
            (s1, Ok(joined)) => {
                let inner = scope.instance(over, (n - 1) as nat);
                match lower(s1.demand(inner.age <= u32::MAX), module, inner, body) {
                    (s2, Ok(v)) => match joined {
                        Some(previous) => (
                            s2.at(s.depth).assign(join_op(all, previous, v)),
                            Ok(Some(s2.tmp())),
                        ),
                        None => (s2, Ok(Some(v))),
                    },
                    (s2, Err(e)) => (s2, Err(e)),
                }
            },
            failed => failed,
        }
    }
}

/// The variable of the joined instances; without instances it is a constant.
pub open spec fn conclude(joined: Joined, all: bool) -> Step {
    match joined {
        (s, Ok(Some(v))) => (s, Ok(v)),
        (s, Ok(None)) => s.compute(AtomicOp::Const(ConstValue::Bool(all))),
        (s, Err(e)) => (s, Err(e)),
    }
}

/// Lowers the check of an invariant. What follows goes to a new current block.
pub open spec fn lower_check(s: Lowering, module: CirModule, inv: CirInvariant) -> (
    Lowering,
    core::result::Result<(), GuardErrorView>,
) {
    match guard(s, module, inv) {
        (s1, Ok(cond)) => {
            let next = s1.block_ahead(1);
            match lower(
                s1.at(s.depth).open_check(inv.name@, cond),
                module,
                Scope::top(),
                inv.ensure,
            ) {
                (s2, Ok(holds)) => (s2.close_check(inv, holds, next).at(s.depth), Ok(())),
                (s2, Err(e)) => (s2, Err(e)),
            }
        },
        (s1, Err(e)) => (s1, Err(e)),
    }
}

/// Lowers the guard of an invariant, where it has one.
pub open spec fn guard(s: Lowering, module: CirModule, inv: CirInvariant) -> (
    Lowering,
    core::result::Result<Option<VarId>, GuardErrorView>,
) {
    match inv.when {
        Some(when) => match lower(s, module, Scope::top(), when) {
            (s1, Ok(cond)) => (s1, Ok(Some(cond))),
            (s1, Err(e)) => (s1, Err(e)),
        },
        None => (s, Ok(None)),
    }
}

/// How a block leads to a check: under a guard to the check or past it, without
/// one to the check.
pub open spec fn way_to_check(cond: Option<VarId>, check: BlockId, next: BlockId) -> TerminatorView {
    match cond {
        Some(cond) => TerminatorView::Branch { cond, then_target: check, else_target: next },
        None => TerminatorView::Jump(check),
    }
}

/// What is to be known of an invariant whose result is in the slot.
pub open spec fn meta_of(inv: CirInvariant, slot: u8) -> InvariantMeta {
    InvariantMeta {
        name: inv.name,
        priority: inv.priority,
        on_violation: inv.on_violation,
        assert_slot: slot,
        source_span: inv.source_span,
    }
}

impl Lowering {
    /// Two new blocks for the check of an invariant and for what follows. The
    /// current block leads to them. The first becomes current.
    pub open spec fn open_check(self, name: Seq<char>, cond: Option<VarId>) -> Lowering {
        let (check, next) = (self.block_ahead(0), self.block_ahead(1));
        self.with(
            self.builder.after_block("inv_"@ + name).after_block(
                "inv_"@ + name + "_done"@,
            ).terminate(way_to_check(cond, check, next)).switch(check),
        )
    }

    /// The check itself, what is to be known of it, and the way on.
    pub open spec fn close_check(self, inv: CirInvariant, holds: VarId, next: BlockId) -> Lowering {
        self.with(
            self.builder.emit(
                StmtView::Assert {
                    cond: holds,
                    invariant_name: inv.name@,
                    span: inv.source_span@,
                },
            ).after_meta(meta_of(inv, self.slot(holds))).terminate(
                TerminatorView::Jump(next),
            ).switch(next),
        )
    }

    /// After the buffer was given the slot of its head.
    pub open spec fn place_buffer(self, id: u32, buffer: BufferInfo) -> Lowering {
        Lowering {
            buffer_slots: table::put(self.buffer_slots, id, buffer.slot_base),
            ..self
        }
    }

    /// After a constant was stored in its slot; other variables are left alone.
    pub open spec fn place_constant(self, module: CirModule, id: u32, info: VarInfo) -> Lowering {
        if info.kind is Constant {
            let var = self.mapped(VarId(id));
            let later = self.after_map(module, VarId(id));
            later.emit(StmtView::Store { src: var, slot: later.slot(var), span: init_span() })
        } else {
            self
        }
    }

    /// The three blocks of the constraint loop: its head, its body, and the end
    /// of the program. The body becomes current.
    pub open spec fn enter_loop(self) -> Lowering {
        let (head, body) = (self.block_ahead(0), self.block_ahead(1));
        self.with(
            self.builder.after_block("loop_head"@).after_block("loop_body"@).after_block(
                "loop_exit"@,
            ).terminate(TerminatorView::Jump(head)).switch(head).emit(
                StmtView::Trace { label: "constraint_loop"@, span: lower_span() },
            ).terminate(TerminatorView::Jump(body)).switch(body),
        )
    }

    /// The current block jumps back to the head of the loop, and the end of the
    /// program halts.
    pub open spec fn close_loop(self, head: BlockId, exit: BlockId) -> Lowering {
        self.with(
            self.builder.terminate(TerminatorView::Jump(head)).switch(exit).terminate(
                TerminatorView::Halt { reason: HaltReasonView::Normal },
            ),
        )
    }
}

/// After the first `n` variables were mapped.
pub open spec fn map_all(s: Lowering, module: CirModule, n: nat) -> Lowering
    decreases n,
{
    if n == 0 {
        s
    } else {
        map_all(s, module, (n - 1) as nat).after_map(
            module,
            VarId(module.symbol_table.vars@[n - 1].0),
        )
    }
}

/// After the first `n` buffers were placed.
pub open spec fn place_buffers(s: Lowering, module: CirModule, n: nat) -> Lowering
    decreases n,
{
    if n == 0 {
        s
    } else {
        place_buffers(s, module, (n - 1) as nat).place_buffer(
            module.symbol_table.buffers@[n - 1].0,
            module.symbol_table.buffers@[n - 1].1,
        )
    }
}

/// After those of the first `n` variables that are constants were stored.
pub open spec fn place_constants(s: Lowering, module: CirModule, n: nat) -> Lowering
    decreases n,
{
    if n == 0 {
        s
    } else {
        place_constants(s, module, (n - 1) as nat).place_constant(
            module,
            module.symbol_table.vars@[n - 1].0,
            module.symbol_table.vars@[n - 1].1,
        )
    }
}

/// After the checks of the first `n` invariants.
pub open spec fn lower_checks(
    s: Lowering,
    module: CirModule,
    invariants: Seq<CirInvariant>,
    n: nat,
) -> (Lowering, core::result::Result<(), GuardErrorView>)
    decreases n,
{
    if n == 0 {
        (s, Ok(()))
    } else {
        match lower_checks(s, module, invariants, (n - 1) as nat) {
            (s1, Ok(_)) => lower_check(s1, module, invariants[n - 1]),
            failed => failed,
        }
    }
}

/// The state when every variable is mapped.
pub open spec fn mapped_all(module: CirModule) -> Lowering {
    map_all(
        Lowering::new(module.name@, module.version@),
        module,
        module.symbol_table.vars@.len(),
    )
}

/// The state when the buffers are placed too.
pub open spec fn placed_all(module: CirModule) -> Lowering {
    place_buffers(mapped_all(module), module, module.symbol_table.buffers@.len())
}

/// The state when the slots are allocated and the constants stored.
pub open spec fn prepared(module: CirModule) -> Lowering {
    place_constants(placed_all(module), module, module.symbol_table.vars@.len())
}

/// Lowers a module.
pub open spec fn lower_all(module: CirModule) -> (
    Lowering,
    core::result::Result<ProgramView, GuardErrorView>,
) {
    let s = prepared(module);
    match lower_checks(s.enter_loop(), module, module.invariants@, module.invariants@.len()) {
        (s1, Ok(_)) => {
            let done = s1.close_loop(s.block_ahead(0), s.block_ahead(2));
            (done, Ok(done.builder.program))
        },
        (s1, Err(e)) => (s1, Err(e)),
    }
}

// ---------------------------------------------------------------------------
// Growth
// ---------------------------------------------------------------------------

/// The second state has grown from the first, and notes nothing more.
pub open spec fn grown(s: Lowering, t: Lowering) -> bool {
    &&& s.before(t)
    &&& t.builder.program.invariant_metadata == s.builder.program.invariant_metadata
}

/// Lowering an expression takes no counter back.
pub proof fn lemma_lower_grows(s: Lowering, module: CirModule, scope: Scope, e: Expr)
    ensures
        grown(s, lower(s, module, scope, e).0),
    decreases e, 1nat,
{
    match e {
        Expr::Const(c) => {},
        Expr::Var(v) => {
            lemma_reading_grows(
                s,
                module,
                v,
                scope.age,
                |slot: u8| AtomicOp::Old { buffer: slot, depth: scope.age as usize },
            );
        },
        Expr::Old(v, ty) => lemma_reading_grows(
            s,
            module,
            v,
            scope.age + 1,
            |slot: u8| AtomicOp::Old { buffer: slot, depth: (scope.age + 1) as usize },
        ),
        Expr::RateOf(v, ty) => lemma_reading_grows(
            s,
            module,
            v,
            scope.age + 1,
            |slot: u8|
                AtomicOp::RateOf {
                    buffer: (slot + scope.age) as u8,
                    dt: binary64::real_thousandth(module.sample_period_ms),
                },
        ),
        Expr::Delta(v, ty) => lemma_reading_grows(
            s,
            module,
            v,
            scope.age + 1,
            |slot: u8| AtomicOp::Delta { buffer: (slot + scope.age) as u8 },
        ),
        Expr::Unary { op, operand, ty } => lemma_lower_grows(s, module, scope, *operand),
        Expr::Binary { op, left, right, ty } => {
            lemma_lower_grows(s, module, scope, *left);
            lemma_lower_grows(lower(s, module, scope, *left).0, module, scope, *right);
        },
        Expr::If { .. } => lemma_if_grows(s, module, scope, e),
        Expr::Forall { var, domain, body, ty } => lemma_copies_grow(
            s,
            module,
            scope,
            Over::Members(var, domain),
            *body,
            true,
            0,
            domain.size(),
        ),
        Expr::Exists { var, domain, body, ty } => lemma_copies_grow(
            s,
            module,
            scope,
            Over::Members(var, domain),
            *body,
            false,
            0,
            domain.size(),
        ),
        Expr::Always(inner, ty) => lemma_copies_grow(
            s,
            module,
            scope,
            Over::Samples,
            *inner,
            true,
            0,
            samples(module, scope, *inner),
        ),
        Expr::Eventually(inner, ty) => lemma_copies_grow(
            s,
            module,
            scope,
            Over::Samples,
            *inner,
            false,
            0,
            samples(module, scope, *inner),
        ),
        Expr::Next(inner, ty) => lemma_lower_grows(s, module, scope, *inner),
        Expr::Until { left, right, ty } => {
            lemma_lower_grows(s, module, scope, *left);
            lemma_lower_grows(lower(s, module, scope, *left).0, module, scope, *right);
        },
        Expr::Since { left, right, ty } => {
            lemma_lower_grows(s, module, scope, *left);
            lemma_lower_grows(lower(s, module, scope, *left).0, module, scope, *right);
        },
        Expr::For { duration, body, ty } => lemma_copies_grow(
            s,
            module,
            scope,
            Over::Samples,
            *body,
            true,
            0,
            duration as nat,
        ),
        Expr::After { duration, body, ty } => lemma_lower_grows(s, module, scope, *body),
        _ => {},
    }
}

/// Reading a variable takes no counter back.
proof fn lemma_reading_grows(
    s: Lowering,
    module: CirModule,
    var: VarId,
    reach: nat,
    op: spec_fn(u8) -> AtomicOp,
)
    ensures
        grown(s, s.after_map(module, var)),
        grown(s, s.look_back(module, var, reach, op).0),
{
    assert(grown(s, s.after_slot_for(module, var)));
    let slot = s.history(module, var);
    let t = s.after_history(module, var).demand(slot + reach <= 255);
    assert(grown(s, t));
    assert(grown(t, t.assign(op(slot))));
}

/// [`lemma_lower_grows`] for a conditional.
proof fn lemma_if_grows(s: Lowering, module: CirModule, scope: Scope, e: Expr)
    requires
        e is If,
    ensures
        grown(s, lower(s, module, scope, e).0),
    decreases e, 0nat,
{
    if let Expr::If { cond, then_branch, else_branch, ty } = e {
        lemma_lower_grows(s, module, scope, *cond);
        let (s1, r1) = lower(s, module, scope, *cond);
        if let Ok(c) = r1 {
            let fork = s1.at(s.depth).fork(c);
            assert(grown(s1, fork));
            lemma_lower_grows(fork, module, scope, *then_branch);
            let (s2, r2) = lower(fork, module, scope, *then_branch);
            if let Ok(t) = r2 {
                let s3 = s2.leave_then(t, s1.block_ahead(2), s1.block_ahead(1)).at(s.depth);
                assert(grown(s2, s3));
                lemma_lower_grows(s3, module, scope, *else_branch);
            }
        }
    }
}

/// More instances take no counter back, and an error stays.
pub proof fn lemma_copies_grow(
    s: Lowering,
    module: CirModule,
    scope: Scope,
    over: Over,
    body: Expr,
    all: bool,
    m: nat,
    n: nat,
)
    requires
        m <= n,
    ensures
        grown(
            copies(s, module, scope, over, body, all, m).0,
            copies(s, module, scope, over, body, all, n).0,
        ),
        copies(s, module, scope, over, body, all, m).1 is Err ==> copies(
            s,
            module,
            scope,
            over,
            body,
            all,
            n,
        ) == copies(s, module, scope, over, body, all, m),
    decreases body, n + 1,
{
    if m < n {
        let one_less = (n - 1) as nat;
        lemma_copies_grow(s, module, scope, over, body, all, m, one_less);
        let s1 = copies(s, module, scope, over, body, all, one_less).0;
        let inner = scope.instance(over, one_less);
        lemma_lower_grows(s1.demand(inner.age <= u32::MAX), module, inner, body);
    }
}

/// The check of an invariant takes no counter back, and notes the invariant.
pub proof fn lemma_check_grows(s: Lowering, module: CirModule, inv: CirInvariant)
    ensures
        grown(s, guard(s, module, inv).0),
        guard(s, module, inv).0.before(lower_check(s, module, inv).0),
        guard(s, module, inv).1 matches Ok(cond) ==> guard(s, module, inv).0.at(
            s.depth,
        ).open_check(inv.name@, cond).before(lower_check(s, module, inv).0),
        lower_check(s, module, inv).1 is Ok ==> exists|slot: u8|
            lower_check(s, module, inv).0.builder.program.invariant_metadata
                == s.builder.program.invariant_metadata.push(#[trigger] meta_of(inv, slot)),
{
    if let Some(when) = inv.when {
        lemma_lower_grows(s, module, Scope::top(), when);
    }
    let (s1, r1) = guard(s, module, inv);
    if let Ok(cond) = r1 {
        let opened = s1.at(s.depth).open_check(inv.name@, cond);
        lemma_lower_grows(opened, module, Scope::top(), inv.ensure);
        let (s2, r2) = lower(opened, module, Scope::top(), inv.ensure);
        if let Ok(holds) = r2 {
            let meta = meta_of(inv, s2.slot(holds));
            assert(lower_check(s, module, inv).0.builder.program.invariant_metadata
                == s.builder.program.invariant_metadata.push(meta));
        }
    }
}

/// More checks take no counter back, and an error stays.
pub proof fn lemma_checks_grow(
    s: Lowering,
    module: CirModule,
    invariants: Seq<CirInvariant>,
    m: nat,
    n: nat,
)
    requires
        m <= n,
    ensures
        lower_checks(s, module, invariants, m).0.before(
            lower_checks(s, module, invariants, n).0,
        ),
        lower_checks(s, module, invariants, m).1 is Err ==> lower_checks(s, module, invariants, n)
            == lower_checks(s, module, invariants, m),
    decreases n,
{
    if m < n {
        lemma_checks_grow(s, module, invariants, m, (n - 1) as nat);
        lemma_check_grows(
            lower_checks(s, module, invariants, (n - 1) as nat).0,
            module,
            invariants[n - 1],
        );
    }
}

/// More variables, buffers or constants take no counter back.
pub proof fn lemma_preparation_grows(s: Lowering, module: CirModule, m: nat, n: nat)
    requires
        m <= n,
    ensures
        grown(map_all(s, module, m), map_all(s, module, n)),
        grown(place_buffers(s, module, m), place_buffers(s, module, n)),
        grown(place_constants(s, module, m), place_constants(s, module, n)),
    decreases n,
{
    if m < n {
        lemma_preparation_grows(s, module, m, (n - 1) as nat);
    }
}

/// Every stage of lowering a module takes no counter back.
pub proof fn lemma_module_grows(module: CirModule)
    ensures
        mapped_all(module).before(lower_all(module).0),
        placed_all(module).before(lower_all(module).0),
        prepared(module).before(lower_all(module).0),
        prepared(module).enter_loop().before(lower_all(module).0),
        lower_checks(
            prepared(module).enter_loop(),
            module,
            module.invariants@,
            module.invariants@.len(),
        ).0.before(lower_all(module).0),
        prepared(module).builder.program.invariant_metadata.len() == 0,
{
    let start = Lowering::new(module.name@, module.version@);
    lemma_preparation_grows(start, module, 0, module.symbol_table.vars@.len());
    lemma_preparation_grows(mapped_all(module), module, 0, module.symbol_table.buffers@.len());
    lemma_preparation_grows(placed_all(module), module, 0, module.symbol_table.vars@.len());
    lemma_checks_grow(
        prepared(module).enter_loop(),
        module,
        module.invariants@,
        0,
        module.invariants@.len(),
    );
}

/// The checks of the first `n` invariants note these invariants in order.
proof fn lemma_checks_noted(
    s: Lowering,
    module: CirModule,
    invariants: Seq<CirInvariant>,
    n: nat,
)
    requires
        lower_checks(s, module, invariants, n).1 is Ok,
        s.builder.program.invariant_metadata.len() == 0,
        n <= invariants.len(),
    ensures
        ({
            let noted = lower_checks(s, module, invariants, n).0.builder.program.invariant_metadata;
            &&& noted.len() == n
            &&& forall|i: int|
                0 <= i < n ==> (#[trigger] noted[i]) == meta_of(invariants[i], noted[i].assert_slot)
        }),
    decreases n,
{
    if n > 0 {
        lemma_checks_noted(s, module, invariants, (n - 1) as nat);
        let before = lower_checks(s, module, invariants, (n - 1) as nat).0;
        lemma_check_grows(before, module, invariants[n - 1]);
    }
}

/// A lowered program knows its invariants: it has an entry for each, in order,
/// with its name, its priority, what a violation leads to, and where it stands.
pub proof fn law_invariants_are_noted(module: CirModule, i: int)
    requires
        lower_all(module).1 is Ok,
        0 <= i < module.invariants@.len(),
    ensures
        ({
            let noted = lower_all(module).1->Ok_0.invariant_metadata;
            let inv = module.invariants@[i];
            &&& noted.len() == module.invariants@.len()
            &&& noted[i].name == inv.name
            &&& noted[i].priority == inv.priority
            &&& noted[i].on_violation == inv.on_violation
            &&& noted[i].source_span == inv.source_span
        }),
{
    lemma_module_grows(module);
    lemma_checks_noted(
        prepared(module).enter_loop(),
        module,
        module.invariants@,
        module.invariants@.len(),
    );
}

// ---------------------------------------------------------------------------
// Frames
// ---------------------------------------------------------------------------

/// Every target of every block exists.
pub open spec fn closed_under_jumps(b: BuilderView) -> bool {
    forall|i: int|
        0 <= i < b.program.blocks.len() ==> lcir::targets_exist(
            (#[trigger] b.program.blocks[i]).terminator,
            b.program.blocks.len(),
        )
}

impl Lowering {
    /// Every mapped variable has a slot that is not for temporaries.
    pub open spec fn homed(self) -> bool {
        forall|i: int|
            0 <= i < self.var_map.len() ==> (table::lookup(
                self.builder.program.slot_map,
                (#[trigger] self.var_map[i]).1.0,
            ) matches Some(slot) && slot < self.floor)
    }

    /// The state is well formed, every jump has its target, every LCIR variable
    /// was given out, the mapped ones have their slots, the slots are counted, and
    /// local variables and temporaries do not share slots.
    pub open spec fn sound(self) -> bool {
        &&& self.well_formed()
        &&& closed_under_jumps(self.builder)
        &&& 1000 <= self.builder.next_var
        &&& forall|i: int|
            0 <= i < self.var_map.len() ==> (#[trigger] self.var_map[i]).1.0
                < self.builder.next_var
        &&& forall|i: int|
            0 <= i < self.builder.program.slot_map.len() ==> (
            #[trigger] self.builder.program.slot_map[i]).0 < self.builder.next_var
        &&& self.homed()
        &&& self.builder.program.slot_count == lcir::slots_used(self.builder.program.slot_map)
        &&& self.floor + self.depth <= 256
    }

    /// What a step from `self` to `later` leaves alone: blocks that are neither
    /// current nor new stay as they are, the current block keeps its statements,
    /// and it stays current or a new block takes over. Variables keep their
    /// LCIR variables and slots, and buffers keep their slots.
    pub open spec fn leads_to(self, later: Lowering) -> bool {
        let (b, c) = (self.builder.program.blocks, later.builder.program.blocks);
        let at = self.builder.current_block.0 as int;
        &&& self.before(later)
        &&& b.len() <= c.len()
        &&& forall|i: int| 0 <= i < b.len() && i != at ==> #[trigger] c[i] == b[i]
        &&& b[at].stmts.is_prefix_of(c[at].stmts)
        &&& later.builder.current_block.0 == at || later.builder.current_block.0 >= b.len()
        &&& self.var_map.is_prefix_of(later.var_map)
        &&& self.builder.program.slot_map.is_prefix_of(later.builder.program.slot_map)
        &&& self.buffer_slots == later.buffer_slots
        &&& self.builder.program.entry == later.builder.program.entry
    }

    /// The value in the slot is still wanted: it is below the temporaries to come,
    /// or that of a temporary before them.
    pub open spec fn wants(self, slot: u8) -> bool {
        slot < self.floor || slot >= 256 - self.depth
    }

    /// The variable has a slot, and one whose value is still wanted.
    pub open spec fn holds_result(self, v: VarId) -> bool {
        &&& v.0 < self.builder.next_var
        &&& table::lookup(self.builder.program.slot_map, v.0) is Some
        &&& self.wants(self.slot(v))
    }
}

/// What two steps in a row leave alone.
pub proof fn lemma_leads_to_transitive(s: Lowering, t: Lowering, u: Lowering)
    requires
        s.leads_to(t),
        t.leads_to(u),
        s.builder.current_block.0 < s.builder.program.blocks.len(),
    ensures
        s.leads_to(u),
{
    let at = s.builder.current_block.0 as int;
    let (b, c, d) = (
        s.builder.program.blocks,
        t.builder.program.blocks,
        u.builder.program.blocks,
    );
    assert forall|i: int| 0 <= i < b.len() && i != at implies #[trigger] d[i] == b[i] by {
        assert(c[i] == b[i]);
    }
    if t.builder.current_block.0 != at {
        assert(d[at] == c[at]);
    }
}

/// Slots that were given stay given.
pub proof fn lemma_still_homed(s: Lowering, t: Lowering)
    requires
        s.homed(),
        s.floor <= t.floor,
        t.var_map == s.var_map,
        s.builder.program.slot_map.is_prefix_of(t.builder.program.slot_map),
        table::keys_distinct(t.builder.program.slot_map),
    ensures
        t.homed(),
{
    assert forall|i: int| 0 <= i < t.var_map.len() implies (table::lookup(
        t.builder.program.slot_map,
        (#[trigger] t.var_map[i]).1.0,
    ) matches Some(slot) && slot < t.floor) by {
        assert(t.var_map[i] == s.var_map[i]);
        table::lemma_lookup_prefix(
            s.builder.program.slot_map,
            t.builder.program.slot_map,
            s.var_map[i].1.0,
        );
    }
}

/// A given slot stays the same.
pub proof fn lemma_slot_kept(s: Lowering, t: Lowering, v: VarId)
    requires
        s.leads_to(t),
        t.sound(),
        table::lookup(s.builder.program.slot_map, v.0) is Some,
    ensures
        table::lookup(t.builder.program.slot_map, v.0) == table::lookup(
            s.builder.program.slot_map,
            v.0,
        ),
        t.slot(v) == s.slot(v),
{
    table::lemma_lookup_prefix(s.builder.program.slot_map, t.builder.program.slot_map, v.0);
}

/// A vacant slot is in the range, is not taken and not covered.
pub proof fn lemma_first_vacant(
    slot_map: Seq<(u32, u8)>,
    buffers: Seq<(u32, BufferInfo)>,
    from: int,
    to: int,
)
    requires
        0 <= from,
        to <= 256,
    ensures
        first_vacant(slot_map, buffers, from, to) matches Some(slot) ==> {
            &&& from <= slot < to
            &&& !lcir::taken(slot_map, slot)
            &&& !covered(buffers, slot as int)
        },
    decreases to - from,
{
    if from < to {
        lemma_first_vacant(slot_map, buffers, from + 1, to);
    }
}

/// A variable that gets a slot.
pub proof fn lemma_settle_builder(s: Lowering, var: VarId, slot: u8)
    requires
        s.sound(),
        var.0 < s.builder.next_var,
    ensures
        ({
            let t = s.with(s.builder.after_settle(var, slot));
            &&& t.sound()
            &&& s.leads_to(t)
            &&& table::lookup(t.builder.program.slot_map, var.0) is Some
            &&& table::lookup(s.builder.program.slot_map, var.0) is None ==> t.slot(var) == slot
        }),
{
    let t = s.with(s.builder.after_settle(var, slot));
    let map = s.builder.program.slot_map;
    table::lemma_place_of(map, var.0);
    if table::lookup(map, var.0) is None {
        table::law_lookup_after_put(map, var.0, slot, var.0);
        assert(t.builder.program.slot_map =~= map.push((var.0, slot)));
        assert(t.builder.program.slot_map.drop_last() =~= map);
        assert(map.is_prefix_of(t.builder.program.slot_map));
        lemma_still_homed(s, t);
    }
}

/// A variable that gets a slot for its kind.
pub proof fn lemma_settle(s: Lowering, module: CirModule, var: VarId, kind: VarKind)
    requires
        s.sound(),
        var.0 < s.builder.next_var,
        s.settle(module, var, kind).fits(),
    ensures
        s.settle(module, var, kind).sound(),
        s.leads_to(s.settle(module, var, kind)),
        table::lookup(s.settle(module, var, kind).builder.program.slot_map, var.0) is Some,
        table::lookup(s.builder.program.slot_map, var.0) is None ==> {
            let slot = s.settle(module, var, kind).slot(var);
            &&& region(kind).0 <= slot < region(kind).1
            &&& slot < s.settle(module, var, kind).floor
            &&& !lcir::taken(s.builder.program.slot_map, slot)
            &&& !covered(module.symbol_table.buffers@, slot as int)
        },
{
    let (map, buffers) = (s.builder.program.slot_map, module.symbol_table.buffers@);
    lemma_first_vacant(map, buffers, region(kind).0, s.ceiling(kind));
    match first_vacant(map, buffers, region(kind).0, s.ceiling(kind)) {
        Some(slot) => {
            let t = s.with(s.builder.after_settle(var, slot));
            lemma_settle_builder(s, var, slot);
            if table::lookup(map, var.0) is None {
                lemma_still_homed(t, t.raise(slot));
                assert(t.leads_to(t.raise(slot)));
                lemma_leads_to_transitive(s, t, t.raise(slot));
            }
        },
        None => {},
    }
}

/// A result in a temporary.
pub proof fn lemma_compute(s: Lowering, op: AtomicOp)
    requires
        s.sound(),
        s.assign(op).fits(),
    ensures
        s.assign(op).sound(),
        s.leads_to(s.assign(op)),
        s.tmp().0 == s.builder.next_var,
        s.assign(op).holds_result(s.tmp()),
        s.assign(op).slot(s.tmp()) == s.scratch(),
        s.scratch() == 255 - s.depth,
        s.floor <= s.scratch(),
        s.assign(op).depth == s.depth + 1,
        s.assign(op).floor == s.floor,
{
    let later = s.after_tmp();
    table::lemma_place_of(s.builder.program.slot_map, s.tmp().0);
    assert(later.sound()) by {
        lemma_still_homed(s, later);
    }
    let t = later.with(later.builder.after_settle(s.tmp(), s.scratch()));
    lemma_settle_builder(later, s.tmp(), s.scratch());
    assert(s.leads_to(later));
    lemma_leads_to_transitive(s, later, t);
    assert(t.builder.program.slot_map == s.assign(op).builder.program.slot_map);
    assert(s.assign(op).homed()) by {
        lemma_still_homed(t, s.assign(op));
    }
}

/// A mapped variable.
pub proof fn lemma_map(s: Lowering, module: CirModule, var: VarId)
    requires
        s.sound(),
        s.after_map(module, var).fits(),
    ensures
        s.after_map(module, var).sound(),
        s.leads_to(s.after_map(module, var)),
        s.after_map(module, var).holds_result(s.mapped(var)),
        s.after_map(module, var).slot(s.mapped(var)) < s.after_map(module, var).floor,
        s.after_map(module, var).depth == s.depth,
        table::lookup(s.after_map(module, var).var_map, var.0) == Some(s.mapped(var)),
        table::lookup(s.var_map, var.0) is Some ==> s.after_map(module, var) == s,
        table::lookup(s.var_map, var.0) is None ==> {
            let slot = s.after_map(module, var).slot(s.mapped(var));
            &&& s.mapped(var).0 == s.builder.next_var
            &&& region(kind_of(module, var)).0 <= slot < region(kind_of(module, var)).1
            &&& !lcir::taken(s.builder.program.slot_map, slot)
            &&& !covered(module.symbol_table.buffers@, slot as int)
        },
{
    let t = s.after_map(module, var);
    table::lemma_place_of(s.var_map, var.0);
    if table::lookup(s.var_map, var.0) is Some {
        assert(s.var_map[table::place_of(s.var_map, var.0)].1 == s.mapped(var));
    } else {
        let id = s.builder.new_var();
        let wider = s.with(s.builder.after_var());
        assert(wider.sound()) by {
            lemma_still_homed(s, wider);
        }
        let kind = kind_of(module, var);
        let settled = wider.settle(module, id, kind);
        table::lemma_place_of(s.builder.program.slot_map, id.0);
        assert(t == (Lowering { var_map: table::put(s.var_map, var.0, id), ..settled }));
        lemma_settle(wider, module, id, kind);
        assert(s.leads_to(wider));
        lemma_leads_to_transitive(s, wider, settled);
        table::law_lookup_after_put(s.var_map, var.0, id, var.0);
        assert(t.var_map =~= s.var_map.push((var.0, id)));
        assert(t.homed()) by {
            assert forall|i: int| 0 <= i < t.var_map.len() implies (table::lookup(
                t.builder.program.slot_map,
                (#[trigger] t.var_map[i]).1.0,
            ) matches Some(slot) && slot < t.floor) by {
                if i < s.var_map.len() {
                    assert(t.var_map[i] == settled.var_map[i]);
                }
            }
        }
    }
}

/// A slot for a history.
pub proof fn lemma_history(s: Lowering, module: CirModule, var: VarId)
    requires
        s.sound(),
        s.after_history(module, var).fits(),
    ensures
        s.after_history(module, var).sound(),
        s.leads_to(s.after_history(module, var)),
        s.after_history(module, var).depth == s.depth,
{
    if recorded_slot(s.buffer_slots, module.symbol_table.buffers@, var, 0) is None {
        table::lemma_place_of(s.var_map, var.0);
        let owner = s.slot_owner(var);
        if table::lookup(s.var_map, var.0) is Some {
            assert(s.var_map[table::place_of(s.var_map, var.0)].1 == owner);
        }
        lemma_settle(s, module, owner, kind_of(module, var));
    }
}

/// An operation on a history.
pub proof fn lemma_look_back(
    s: Lowering,
    module: CirModule,
    var: VarId,
    reach: nat,
    op: spec_fn(u8) -> AtomicOp,
)
    requires
        s.sound(),
        s.look_back(module, var, reach, op).0.fits(),
    ensures
        s.look_back(module, var, reach, op).0.sound(),
        s.leads_to(s.look_back(module, var, reach, op).0),
        s.look_back(module, var, reach, op).0.holds_result(
            s.look_back(module, var, reach, op).1->Ok_0,
        ),
        s.look_back(module, var, reach, op).0.depth == s.depth + 1,
        s.history(module, var) + reach <= 255,
{
    let slot = s.history(module, var);
    let t = s.after_history(module, var).demand(slot + reach <= 255);
    lemma_history(s, module, var);
    assert(t.sound());
    lemma_compute(t, op(slot));
    lemma_leads_to_transitive(s, t, t.assign(op(slot)));
}

/// The blocks of a conditional.
pub proof fn lemma_fork(s: Lowering, cond: VarId)
    requires
        s.sound(),
        s.fork(cond).fits(),
    ensures
        s.fork(cond).sound(),
        s.leads_to(s.fork(cond)),
        s.block_ahead(0).0 == s.builder.next_block,
        s.block_ahead(1).0 == s.builder.next_block + 1,
        s.block_ahead(2).0 == s.builder.next_block + 2,
{
    let (b, c) = (s.builder.program.blocks, s.fork(cond).builder.program.blocks);
    let at = s.builder.current_block.0 as int;
    assert(c[at].stmts =~= b[at].stmts);
    assert forall|i: int| 0 <= i < c.len() implies lcir::targets_exist(
        (#[trigger] c[i]).terminator,
        c.len(),
    ) by {
        if i < b.len() && i != at {
            assert(c[i] == b[i]);
        }
    }
    lemma_still_homed(s, s.fork(cond));
}

/// The end of a branch, seen from a state before the conditional.
pub proof fn lemma_hand_over(
    base: Lowering,
    s: Lowering,
    value: VarId,
    slot: u8,
    target: BlockId,
    next: BlockId,
)
    requires
        s.sound(),
        base.sound(),
        base.leads_to(s),
        s.builder.current_block.0 >= base.builder.next_block,
        target.0 < s.builder.next_block,
        base.builder.next_block <= next.0 < s.builder.next_block,
    ensures
        s.hand_over(value, slot, target, next).sound(),
        base.leads_to(s.hand_over(value, slot, target, next)),
{
    let t = s.hand_over(value, slot, target, next);
    let (b, c, d) = (
        base.builder.program.blocks,
        s.builder.program.blocks,
        t.builder.program.blocks,
    );
    assert forall|i: int| 0 <= i < d.len() implies lcir::targets_exist(
        (#[trigger] d[i]).terminator,
        d.len(),
    ) by {
        if i != s.builder.current_block.0 {
            assert(d[i] == c[i]);
        }
    }
    assert forall|i: int| 0 <= i < b.len() implies #[trigger] d[i] == c[i] by {}
    lemma_still_homed(s, t);
}

/// The end of the first branch, seen from a state before the conditional.
pub proof fn lemma_leave_then(
    base: Lowering,
    s: Lowering,
    value: VarId,
    merge: BlockId,
    next: BlockId,
)
    requires
        s.sound(),
        base.sound(),
        base.leads_to(s),
        s.leave_then(value, merge, next).fits(),
        s.builder.current_block.0 >= base.builder.next_block,
        merge.0 < s.builder.next_block,
        base.builder.next_block <= next.0 < s.builder.next_block,
    ensures
        s.leave_then(value, merge, next).sound(),
        base.leads_to(s.leave_then(value, merge, next)),
        s.scratch() == 255 - s.depth,
        s.floor <= s.scratch(),
{
    let set = s.after_out();
    lemma_compute(s, AtomicOp::Const(ConstValue::Bool(true)));
    lemma_leads_to_transitive(base, s, set);
    lemma_hand_over(base, set, value, s.scratch(), merge, next);
}

/// The depth alone makes no difference to what a step leaves alone.
pub proof fn lemma_at(s: Lowering, depth: int)
    requires
        s.sound(),
        0 <= depth,
        s.floor + depth <= 256,
    ensures
        s.at(depth).sound(),
        s.leads_to(s.at(depth)),
{
    lemma_still_homed(s, s.at(depth));
}

/// What lowering a step does: the state stays sound, older code stays as it is,
/// and the result has its slot.
pub open spec fn good_step(s: Lowering, step: Step) -> bool {
    &&& step.0.sound()
    &&& s.leads_to(step.0)
    &&& step.1 matches Ok(v) ==> {
        &&& step.0.holds_result(v)
        &&& s.depth <= step.0.depth <= s.depth + 1
    }
}

/// One step after another.
proof fn lemma_then_compute(s: Lowering, s1: Lowering, op: AtomicOp)
    requires
        s.sound(),
        s1.sound(),
        s.leads_to(s1),
        s.depth <= s1.depth,
        s1.at(s.depth).assign(op).fits(),
    ensures
        good_step(s, s1.at(s.depth).compute(op)),
        s1.at(s.depth).sound(),
        s1.leads_to(s1.at(s.depth).assign(op)),
{
    lemma_at(s1, s.depth);
    lemma_compute(s1.at(s.depth), op);
    lemma_leads_to_transitive(s, s1, s1.at(s.depth));
    lemma_leads_to_transitive(s1, s1.at(s.depth), s1.at(s.depth).assign(op));
    lemma_leads_to_transitive(s, s1.at(s.depth), s1.at(s.depth).assign(op));
}

/// Two operands and the operation on them.
proof fn lemma_on_both(s: Lowering, s1: Lowering, l: VarId, op: BinOp, second: Step)
    requires
        s.sound(),
        good_step(s, (s1, Ok::<VarId, GuardErrorView>(l))),
        good_step(s1, second),
        on_both(s.depth, op, l, second).0.fits(),
    ensures
        good_step(s, on_both(s.depth, op, l, second)),
{
    lemma_leads_to_transitive(s, s1, second.0);
    if let Ok(r) = second.1 {
        lemma_then_compute(s, second.0, binary_op(op, l, r));
    }
}

/// What lowering an expression leaves alone.
pub proof fn lemma_lower(s: Lowering, module: CirModule, scope: Scope, e: Expr)
    requires
        s.sound(),
        lower(s, module, scope, e).0.fits(),
    ensures
        good_step(s, lower(s, module, scope, e)),
    decreases e, 1nat,
{
    match e {
        Expr::Const(c) => lemma_compute(s, AtomicOp::Const(c)),
        Expr::Var(v) => match bound_value(scope.bound, v) {
            Some(x) => lemma_compute(s, AtomicOp::Const(ConstValue::Integer(x))),
            None => if scope.age == 0 {
                lemma_map(s, module, v);
            } else if !forgotten(module, scope, v, scope.age) {
                lemma_look_back(
                    s,
                    module,
                    v,
                    scope.age,
                    |slot: u8| AtomicOp::Old { buffer: slot, depth: scope.age as usize },
                );
            },
        },
        Expr::Unary { op, operand, ty } => {
            let (s1, r1) = lower(s, module, scope, *operand);
            lemma_lower(s, module, scope, *operand);
            if let Ok(v) = r1 {
                lemma_then_compute(s, s1, unary_op(op, v));
            }
        },
        Expr::Binary { op, left, right, ty } => {
            let (s1, r1) = lower(s, module, scope, *left);
            lemma_lower_grows(s1, module, scope, *right);
            lemma_lower(s, module, scope, *left);
            if let Ok(l) = r1 {
                lemma_lower(s1, module, scope, *right);
                lemma_on_both(s, s1, l, op, lower(s1, module, scope, *right));
            }
        },
        Expr::Until { left, right, ty } => {
            let (s1, r1) = lower(s, module, scope, *left);
            lemma_lower_grows(s1, module, scope, *right);
            lemma_lower(s, module, scope, *left);
            if let Ok(l) = r1 {
                lemma_lower(s1, module, scope, *right);
                lemma_on_both(s, s1, l, BinOp::Or, lower(s1, module, scope, *right));
            }
        },
        Expr::Since { left, right, ty } => {
            let (s1, r1) = lower(s, module, scope, *left);
            lemma_lower_grows(s1, module, scope, *right);
            lemma_lower(s, module, scope, *left);
            if let Ok(l) = r1 {
                lemma_lower(s1, module, scope, *right);
                lemma_on_both(s, s1, l, BinOp::And, lower(s1, module, scope, *right));
            }
        },
        Expr::If { .. } => lemma_lower_if(s, module, scope, e),
        Expr::Forall { var, domain, body, ty } => lemma_concluded(
            s,
            module,
            scope,
            Over::Members(var, domain),
            *body,
            true,
            domain.size(),
        ),
        Expr::Exists { var, domain, body, ty } => lemma_concluded(
            s,
            module,
            scope,
            Over::Members(var, domain),
            *body,
            false,
            domain.size(),
        ),
        Expr::Always(inner, ty) => lemma_concluded(
            s,
            module,
            scope,
            Over::Samples,
            *inner,
            true,
            samples(module, scope, *inner),
        ),
        Expr::Eventually(inner, ty) => lemma_concluded(
            s,
            module,
            scope,
            Over::Samples,
            *inner,
            false,
            samples(module, scope, *inner),
        ),
        Expr::For { duration, body, ty } => lemma_concluded(
            s,
            module,
            scope,
            Over::Samples,
            *body,
            true,
            duration as nat,
        ),
        Expr::Next(inner, ty) => lemma_lower(s, module, scope, *inner),
        Expr::After { duration, body, ty } => lemma_lower(s, module, scope, *body),
        Expr::Old(v, ty) => if !forgotten(module, scope, v, scope.age + 1) {
            lemma_look_back(
                s,
                module,
                v,
                scope.age + 1,
                |slot: u8| AtomicOp::Old { buffer: slot, depth: (scope.age + 1) as usize },
            );
        },
        Expr::RateOf(v, ty) => if !forgotten(module, scope, v, scope.age + 1) {
            lemma_look_back(
                s,
                module,
                v,
                scope.age + 1,
                |slot: u8|
                    AtomicOp::RateOf {
                        buffer: (slot + scope.age) as u8,
                        dt: binary64::real_thousandth(module.sample_period_ms),
                    },
            );
        },
        Expr::Delta(v, ty) => if !forgotten(module, scope, v, scope.age + 1) {
            lemma_look_back(
                s,
                module,
                v,
                scope.age + 1,
                |slot: u8| AtomicOp::Delta { buffer: (slot + scope.age) as u8 },
            );
        },
        Expr::Index { .. } => {},
        Expr::Field { .. } => {},
    }
}

/// [`lemma_lower`] for a conditional.
proof fn lemma_lower_if(s: Lowering, module: CirModule, scope: Scope, e: Expr)
    requires
        e is If,
        s.sound(),
        lower(s, module, scope, e).0.fits(),
    ensures
        good_step(s, lower(s, module, scope, e)),
    decreases e, 0nat,
{
    if let Expr::If { cond, then_branch, else_branch, ty } = e {
        let (s1, r1) = lower(s, module, scope, *cond);
        if let Ok(c) = r1 {
            let s0 = s1.at(s.depth);
            let fork = s0.fork(c);
            let (s2, r2) = lower(fork, module, scope, *then_branch);
            let (otherwise, merge) = (s1.block_ahead(1), s1.block_ahead(2));
            lemma_lower_grows(fork, module, scope, *then_branch);
            if let Ok(t) = r2 {
                let s3 = s2.leave_then(t, merge, otherwise);
                let (s4, r4) = lower(s3.at(s.depth), module, scope, *else_branch);
                let slot = s2.scratch();
                lemma_lower_grows(s3.at(s.depth), module, scope, *else_branch);
                lemma_lower(s, module, scope, *cond);
                lemma_at(s1, s.depth);
                lemma_leads_to_transitive(s, s1, s0);
                lemma_fork(s0, c);
                lemma_lower(fork, module, scope, *then_branch);
                lemma_leads_to_transitive(s0, fork, s2);
                lemma_leave_then(s0, s2, t, merge, otherwise);
                lemma_at(s3, s.depth);
                lemma_leads_to_transitive(s0, s3, s3.at(s.depth));
                lemma_lower(s3.at(s.depth), module, scope, *else_branch);
                lemma_leads_to_transitive(s0, s3.at(s.depth), s4);
                lemma_leads_to_transitive(s, s0, s4);
                if let Ok(f) = r4 {
                    let s5 = s4.hand_over(f, slot, merge, merge);
                    lemma_hand_over(s0, s4, f, slot, merge, merge);
                    lemma_leads_to_transitive(s, s0, s5);
                    lemma_then_compute(s, s5, AtomicOp::LoadSlot(slot));
                }
            } else {
                lemma_lower(s, module, scope, *cond);
                lemma_at(s1, s.depth);
                lemma_leads_to_transitive(s, s1, s0);
                lemma_fork(s0, c);
                lemma_lower(fork, module, scope, *then_branch);
                lemma_leads_to_transitive(s0, fork, s2);
                lemma_leads_to_transitive(s, s0, s2);
            }
        } else {
            lemma_lower(s, module, scope, *cond);
        }
    }
}

/// [`lemma_lower`] for joined instances.
proof fn lemma_concluded(
    s: Lowering,
    module: CirModule,
    scope: Scope,
    over: Over,
    body: Expr,
    all: bool,
    n: nat,
)
    requires
        s.sound(),
        conclude(copies(s, module, scope, over, body, all, n), all).0.fits(),
    ensures
        good_step(s, conclude(copies(s, module, scope, over, body, all, n), all)),
    decreases body, n + 3,
{
    lemma_copies(s, module, scope, over, body, all, n);
    let (s1, r1) = copies(s, module, scope, over, body, all, n);
    if r1 matches Ok(None) {
        lemma_compute(s1, AtomicOp::Const(ConstValue::Bool(all)));
        lemma_leads_to_transitive(s, s1, s1.assign(AtomicOp::Const(ConstValue::Bool(all))));
    }
}

/// What lowering instances of a body leaves alone.
pub proof fn lemma_copies(
    s: Lowering,
    module: CirModule,
    scope: Scope,
    over: Over,
    body: Expr,
    all: bool,
    n: nat,
)
    requires
        s.sound(),
        copies(s, module, scope, over, body, all, n).0.fits(),
    ensures
        ({
            let (t, r) = copies(s, module, scope, over, body, all, n);
            &&& t.sound()
            &&& s.leads_to(t)
            &&& r matches Ok(None) ==> n == 0 && t.depth == s.depth
            &&& r matches Ok(Some(v)) ==> {
                &&& n > 0
                &&& t.holds_result(v)
                &&& s.depth <= t.depth <= s.depth + 1
            }
        }),
    decreases body, n + 2,
{
    if n > 0 {
        let one_less = (n - 1) as nat;
        let (s1, r1) = copies(s, module, scope, over, body, all, one_less);
        lemma_copies_grow(s, module, scope, over, body, all, one_less, n);
        lemma_copies(s, module, scope, over, body, all, one_less);
        if let Ok(joined) = r1 {
            let inner = scope.instance(over, one_less);
            let s0 = s1.demand(inner.age <= u32::MAX);
            let (s2, r2) = lower(s0, module, inner, body);
            lemma_lower_grows(s0, module, inner, body);
            assert(s0 == s1);
            lemma_lower(s1, module, inner, body);
            lemma_leads_to_transitive(s, s1, s2);
            if let Ok(v) = r2 {
                if let Some(previous) = joined {
                    lemma_then_compute(s, s2, join_op(all, previous, v));
                }
            }
        }
    }
}

/// The blocks of a check.
pub proof fn lemma_open_check(s: Lowering, name: Seq<char>, cond: Option<VarId>)
    requires
        s.sound(),
        s.open_check(name, cond).fits(),
    ensures
        s.open_check(name, cond).sound(),
        s.leads_to(s.open_check(name, cond)),
        s.block_ahead(0).0 == s.builder.next_block,
        s.block_ahead(1).0 == s.builder.next_block + 1,
{
    let (b, c) = (s.builder.program.blocks, s.open_check(name, cond).builder.program.blocks);
    let at = s.builder.current_block.0 as int;
    assert(c[at].stmts =~= b[at].stmts);
    assert forall|i: int| 0 <= i < c.len() implies lcir::targets_exist(
        (#[trigger] c[i]).terminator,
        c.len(),
    ) by {
        if i < b.len() && i != at {
            assert(c[i] == b[i]);
        }
    }
    lemma_still_homed(s, s.open_check(name, cond));
}

/// What lowering a check leaves alone.
pub proof fn lemma_check(s: Lowering, module: CirModule, inv: CirInvariant)
    requires
        s.sound(),
        lower_check(s, module, inv).0.fits(),
    ensures
        lower_check(s, module, inv).0.sound(),
        s.leads_to(lower_check(s, module, inv).0),
        lower_check(s, module, inv).1 is Ok ==> lower_check(s, module, inv).0.depth == s.depth,
{
    lemma_check_grows(s, module, inv);
    let (s1, r1) = guard(s, module, inv);
    if let Some(when) = inv.when {
        lemma_lower(s, module, Scope::top(), when);
    }
    if let Ok(cond) = r1 {
        let next = s1.block_ahead(1);
        let s0 = s1.at(s.depth);
        lemma_at(s1, s.depth);
        lemma_leads_to_transitive(s, s1, s0);
        let opened = s0.open_check(inv.name@, cond);
        lemma_open_check(s0, inv.name@, cond);
        let (s2, r2) = lower(opened, module, Scope::top(), inv.ensure);
        lemma_lower(opened, module, Scope::top(), inv.ensure);
        lemma_leads_to_transitive(s0, opened, s2);
        if let Ok(holds) = r2 {
            let s3 = s2.close_check(inv, holds, next);
            let (b, c, d) = (
                s0.builder.program.blocks,
                s2.builder.program.blocks,
                s3.builder.program.blocks,
            );
            assert forall|i: int| 0 <= i < b.len() implies #[trigger] d[i] == c[i] by {}
            assert forall|i: int| 0 <= i < d.len() implies lcir::targets_exist(
                (#[trigger] d[i]).terminator,
                d.len(),
            ) by {
                if i != s2.builder.current_block.0 {
                    assert(d[i] == c[i]);
                }
            }
            lemma_still_homed(s2, s3);
            assert(s0.leads_to(s3));
            lemma_leads_to_transitive(s, s0, s3);
            lemma_at(s3, s.depth);
            lemma_leads_to_transitive(s, s3, s3.at(s.depth));
        } else {
            lemma_leads_to_transitive(s, s0, s2);
        }
    }
}

/// What lowering the checks leaves alone.
pub proof fn lemma_checks(
    s: Lowering,
    module: CirModule,
    invariants: Seq<CirInvariant>,
    n: nat,
)
    requires
        s.sound(),
        lower_checks(s, module, invariants, n).0.fits(),
    ensures
        lower_checks(s, module, invariants, n).0.sound(),
        s.leads_to(lower_checks(s, module, invariants, n).0),
        lower_checks(s, module, invariants, n).1 is Ok ==> lower_checks(
            s,
            module,
            invariants,
            n,
        ).0.depth == s.depth,
    decreases n,
{
    if n > 0 {
        let (s1, r1) = lower_checks(s, module, invariants, (n - 1) as nat);
        lemma_checks_grow(s, module, invariants, (n - 1) as nat, n);
        lemma_checks(s, module, invariants, (n - 1) as nat);
        if r1 is Ok {
            lemma_check(s1, module, invariants[n - 1]);
            lemma_leads_to_transitive(
                s,
                s1,
                lower_check(s1, module, invariants[n - 1]).0,
            );
        }
    }
}

/// The preparation keeps to the entry block, which still halts.
pub open spec fn in_entry(s: Lowering) -> bool {
    &&& s.sound()
    &&& s.builder.program.blocks.len() == 1
    &&& s.builder.current_block == BlockId(0)
    &&& s.builder.program.entry == BlockId(0)
    &&& s.depth == 0
}

/// The preparation keeps to the entry block.
pub proof fn lemma_preparation(s: Lowering, module: CirModule, n: nat)
    requires
        in_entry(s),
    ensures
        map_all(s, module, n).fits() ==> in_entry(map_all(s, module, n)),
        place_buffers(s, module, n).fits() ==> in_entry(place_buffers(s, module, n)),
        place_constants(s, module, n).fits() ==> in_entry(place_constants(s, module, n))
            && s.leads_to(place_constants(s, module, n)),
    decreases n,
{
    let (vars, buffers) = (module.symbol_table.vars@, module.symbol_table.buffers@);
    if n > 0 {
        let k = (n - 1) as nat;
        lemma_preparation_grows(s, module, k, n);
        lemma_preparation(s, module, k);
        if map_all(s, module, n).fits() {
            lemma_map(map_all(s, module, k), module, VarId(vars[n - 1].0));
        }
        if place_buffers(s, module, n).fits() {
            let t = place_buffers(s, module, k);
            table::law_lookup_after_put(
                t.buffer_slots,
                buffers[n - 1].0,
                buffers[n - 1].1.slot_base,
                0,
            );
            lemma_still_homed(t, place_buffers(s, module, n));
        }
        if place_constants(s, module, n).fits() && vars[n - 1].1.kind is Constant {
            let t = place_constants(s, module, k);
            let later = t.after_map(module, VarId(vars[n - 1].0));
            lemma_map(t, module, VarId(vars[n - 1].0));
            lemma_still_homed(later, place_constants(s, module, n));
            lemma_leads_to_transitive(s, t, later);
            lemma_leads_to_transitive(s, later, place_constants(s, module, n));
        }
    }
}

/// The blocks of the loop.
pub proof fn lemma_enter_loop(s: Lowering)
    requires
        in_entry(s),
        s.enter_loop().fits(),
    ensures
        s.enter_loop().sound(),
        s.enter_loop().builder.program.blocks.len() == 4,
        s.enter_loop().builder.program.entry == BlockId(0),
        s.block_ahead(0) == BlockId(1),
        s.block_ahead(1) == BlockId(2),
        s.block_ahead(2) == BlockId(3),
        s.enter_loop().builder.current_block == BlockId(2),
        s.enter_loop().depth == 0,
{
    lemma_still_homed(s, s.enter_loop());
}

/// Every stage of lowering a module is sound, and so is the result.
pub proof fn lemma_module(module: CirModule)
    requires
        lower_all(module).0.fits(),
    ensures
        in_entry(mapped_all(module)),
        in_entry(placed_all(module)),
        in_entry(prepared(module)),
        placed_all(module).leads_to(prepared(module)),
        prepared(module).enter_loop().sound(),
        lower_all(module).0.sound(),
        lower_all(module).1 matches Ok(program) ==> program.intact(),
        lower_all(module).1 matches Ok(program) ==> program.entry == BlockId(0),
        lower_all(module).1 matches Ok(program) ==> prepared(
            module,
        ).builder.program.slot_map.is_prefix_of(program.slot_map),
{
    let start = Lowering::new(module.name@, module.version@);
    lemma_module_grows(module);
    assert(in_entry(start));
    lemma_preparation(start, module, module.symbol_table.vars@.len());
    lemma_preparation(mapped_all(module), module, module.symbol_table.buffers@.len());
    lemma_preparation(placed_all(module), module, module.symbol_table.vars@.len());
    let s = prepared(module);
    let entered = s.enter_loop();
    lemma_enter_loop(s);
    let n = module.invariants@.len();
    lemma_checks(entered, module, module.invariants@, n);
    let (s1, r1) = lower_checks(entered, module, module.invariants@, n);
    if r1 is Ok {
        let done = s1.close_loop(s.block_ahead(0), s.block_ahead(2));
        let (c, d) = (s1.builder.program.blocks, done.builder.program.blocks);
        assert forall|i: int| 0 <= i < d.len() implies lcir::targets_exist(
            (#[trigger] d[i]).terminator,
            d.len(),
        ) by {
            if i != s1.builder.current_block.0 && i != 3 {
                assert(d[i] == c[i]);
            }
        }
        lemma_still_homed(s1, done);
    }
}

/// A lowered program is well formed: it starts at its first block, every block
/// is numbered by its place, and every jump has its target.
pub proof fn law_lowered_program_is_well_formed(module: CirModule, i: int)
    requires
        lower_all(module).0.fits(),
        lower_all(module).1 is Ok,
        0 <= i < lower_all(module).1->Ok_0.blocks.len(),
    ensures
        ({
            let p = lower_all(module).1->Ok_0;
            &&& p.intact()
            &&& p.entry == BlockId(0)
            &&& p.blocks[i].id.0 == i
        }),
{
    lemma_module(module);
}

/// An operation of an expression becomes the one of the same name, with the operands in
/// their order. Instances are joined by conjunctions or disjunctions.
pub proof fn law_operations_keep_their_names(l: VarId, r: VarId)
    ensures
        unary_op(UnOp::Neg, l) == AtomicOp::Neg(l),
        unary_op(UnOp::Abs, l) == AtomicOp::Abs(l),
        unary_op(UnOp::Not, l) == AtomicOp::Not(l),
        binary_op(BinOp::Add, l, r) == AtomicOp::Add(l, r),
        binary_op(BinOp::Sub, l, r) == AtomicOp::Sub(l, r),
        binary_op(BinOp::Mul, l, r) == AtomicOp::Mul(l, r),
        binary_op(BinOp::Div, l, r) == AtomicOp::Div(l, r),
        binary_op(BinOp::Mod, l, r) == AtomicOp::Mod(l, r),
        binary_op(BinOp::Eq, l, r) == AtomicOp::Eq(l, r),
        binary_op(BinOp::Neq, l, r) == AtomicOp::Neq(l, r),
        binary_op(BinOp::Lt, l, r) == AtomicOp::Lt(l, r),
        binary_op(BinOp::Gt, l, r) == AtomicOp::Gt(l, r),
        binary_op(BinOp::Lte, l, r) == AtomicOp::Lte(l, r),
        binary_op(BinOp::Gte, l, r) == AtomicOp::Gte(l, r),
        binary_op(BinOp::And, l, r) == AtomicOp::And(l, r),
        binary_op(BinOp::Or, l, r) == AtomicOp::Or(l, r),
        binary_op(BinOp::Implies, l, r) == AtomicOp::Implies(l, r),
        join_op(true, l, r) == AtomicOp::And(l, r),
        join_op(false, l, r) == AtomicOp::Or(l, r),
{
}

} // verus!
