//! Lowering passes: CIR → LCIR.
//!
//! This module implements the core transformation pipeline:
//!   1. **Quantifier Elimination** — Expand `forall`/`exists` over finite domains.
//!   2. **Temporal Expansion** — Replace `always`, `next`, `old`, `rate_of`, etc.
//!      with explicit history-buffer loads.
//!   3. **Relation Flattening** — Break nested comparisons into simple atoms.
//!   4. **A-normalization** — Ensure every sub-expression is bound to a variable.
//!   5. **Basic-block Generation** — Emit explicit CFG with jumps and branches.
//!
//! A program has a limited number of memory slots, and the counters that name
//! variables and blocks have a limited range. The functions ending in `_checked`
//! answer `None` where a limit would be passed; the others are for callers who
//! know that it will not.
//!
//! `always` and `eventually` speak of the samples that the history buffers retain,
//! and `for` of as many as it says. The other temporal operators speak of the
//! sample at hand.

use crate::cir::BinOp;
use crate::cir::BufferInfo;
use crate::cir::CirInvariant;
use crate::cir::CirModule;
use crate::cir::CirType;
use crate::cir::ConstValue;
use crate::cir::Domain;
use crate::cir::Expr;
use crate::cir::TypeKind;
use crate::cir::UnOp;
use crate::cir::Unit;
use crate::cir::VarId;
use crate::cir::VarKind;
use crate::error::GuardError;
use crate::error::GuardErrorView;
use crate::error::Result;
use crate::error::Span;
use crate::lcir::AtomicOp;
use crate::lcir::BlockId;
use crate::lcir::HaltReason;
use crate::lcir::InvariantMeta;
use crate::lcir::LcirBuilder;
use crate::lcir::LcirProgram;
use crate::lcir::ProgramView;
use crate::lcir::Stmt;
use crate::lcir::StmtView;
use crate::lcir::Terminator;
use crate::lowering;
use crate::lowering::Lowering;
use crate::lowering::Over;
use crate::table;
use crate::table::Table;
use crate::text;
use vstd::prelude::*;

verus! {

// ---------------------------------------------------------------------------
// Lowering Context
// ---------------------------------------------------------------------------

/// Mutable state carried through the lowering pipeline.
pub struct LowerCtx<'a> {
    pub module: &'a CirModule,
    pub builder: LcirBuilder,
    /// Map from CIR variable to LCIR variable (for renamed temporals).
    pub var_map: Table<VarId>,
    /// Map from temporal buffer to FLUX slot base.
    pub buffer_slots: Table<u8>,
    /// Counter for generating unique temporaries.
    pub tmp_counter: u32,
    /// The number of temporaries whose values are still wanted.
    pub depth: u8,
    /// The first slot above those of local variables.
    pub floor: u16,
}

impl<'a> View for LowerCtx<'a> {
    type V = Lowering;

    open spec fn view(&self) -> Lowering {
        Lowering {
            builder: self.builder@,
            var_map: self.var_map@,
            buffer_slots: self.buffer_slots@,
            tmp_counter: self.tmp_counter as int,
            depth: self.depth as int,
            floor: self.floor as int,
            room: true,
        }
    }
}

/// What an expression is lowered for.
pub struct Scope {
    /// The values of the variables that quantifiers bind, the innermost last.
    pub bound: Vec<(VarId, i64)>,
    /// How many samples ago the expression is read.
    pub age: u64,
}

impl View for Scope {
    type V = lowering::Scope;

    open spec fn view(&self) -> lowering::Scope {
        lowering::Scope { bound: self.bound@, age: self.age as nat }
    }
}

impl Scope {
    /// Nothing is bound, and the sample at hand is read.
    fn top() -> (scope: Scope)
        ensures
            scope@ == lowering::Scope::top(),
    {
        Scope { bound: Vec::new(), age: 0 }
    }

    /// The value that the innermost quantifier over a variable binds it to.
    fn value_of(&self, var: VarId) -> (value: Option<i64>)
        ensures
            value == lowering::bound_value(self.bound@, var),
    {
        let mut i: usize = self.bound.len();
        assert(self.bound@.take(i as int) =~= self.bound@);
        while i > 0
            invariant
                i <= self.bound@.len(),
                lowering::bound_value(self.bound@, var) == lowering::bound_value(
                    self.bound@.take(i as int),
                    var,
                ),
            decreases i,
        {
            let (bound, value) = self.bound[i - 1];
            assert(self.bound@.take(i as int).drop_last() =~= self.bound@.take(i - 1));
            if bound.0 == var.0 {
                return Some(value);
            }
            i = i - 1;
        }
        None
    }

    /// The variables that are bound.
    fn bound_vars(&self) -> (vars: Vec<VarId>)
        ensures
            vars@ == lowering::bound_vars(self.bound@),
    {
        let mut vars: Vec<VarId> = Vec::new();
        let count: usize = self.bound.len();
        let mut i: usize = 0;
        while i < count
            invariant
                i <= count == self.bound@.len(),
                vars@ =~= lowering::bound_vars(self.bound@).take(i as int),
            decreases count - i,
        {
            vars.push(self.bound[i].0);
            i += 1;
        }
        assert(lowering::bound_vars(self.bound@).take(count as int) =~= lowering::bound_vars(
            self.bound@,
        ));
        vars
    }

    /// For another value of a variable, or for another sample.
    fn with(&self, binding: Option<(VarId, i64)>, age: u64) -> (scope: Scope)
        ensures
            scope.age == age,
            scope.bound@ == match binding {
                Some(pair) => self.bound@.push(pair),
                None => self.bound@,
            },
    {
        let mut bound: Vec<(VarId, i64)> = Vec::new();
        let count: usize = self.bound.len();
        let mut i: usize = 0;
        while i < count
            invariant
                i <= count == self.bound@.len(),
                bound@ =~= self.bound@.take(i as int),
            decreases count - i,
        {
            bound.push(self.bound[i]);
            i += 1;
        }
        assert(self.bound@.take(count as int) =~= self.bound@);
        if let Some(pair) = binding {
            bound.push(pair);
        }
        Scope { bound, age }
    }
}

/// A result with its error as a view.
pub open spec fn outcome<T>(r: Result<T>) -> core::result::Result<T, GuardErrorView> {
    match r {
        Ok(value) => Ok(value),
        Err(e) => Err(e@),
    }
}

impl<'a> LowerCtx<'a> {
    /// The state at the start of lowering a module.
    pub fn new(module: &'a CirModule) -> (ctx: Self)
        ensures
            ctx.module == module,
            ctx@ == Lowering::new(module.name@, module.version@),
            ctx@.well_formed(),
    {
        LowerCtx {
            module,
            builder: LcirBuilder::new(module.name.as_str(), module.version.as_str()),
            var_map: Table::new(),
            buffer_slots: Table::new(),
            tmp_counter: 0,
            depth: 0,
            floor: lowering::LOCAL_START as u16,
        }
    }

    /// Generate a fresh temporary variable.
    pub fn fresh_tmp(&mut self, ty: CirType, name_hint: &str) -> (id: VarId)
        requires
            old(self)@.after_tmp().fits(),
        ensures
            id == old(self)@.tmp(),
            final(self)@ == old(self)@.after_tmp(),
            final(self).module == old(self).module,
            old(self)@.well_formed() ==> final(self)@.well_formed(),
    {
        let mut name: String = name_hint.to_owned();
        name.push_str("_t");
        text::push_decimal(&mut name, self.tmp_counter as u64);
        self.tmp_counter = self.tmp_counter + 1;
        self.builder.fresh_var(ty, VarKind::Local, name.as_str())
    }

    /// Look up the FLUX memory slot for a CIR variable.
    pub fn slot_for(&mut self, var: VarId) -> (slot: u8)
        requires
            old(self)@.well_formed(),
            old(self)@.after_slot_for(*old(self).module, var).fits(),
        ensures
            final(self)@ == old(self)@.after_slot_for(*old(self).module, var),
            slot == final(self)@.slot(old(self)@.slot_owner(var)),
            final(self).module == old(self).module,
            final(self)@.well_formed(),
    {
        let lcir_var = match self.var_map.get(var.0) {
            Some(id) => *id,
            None => var,
        };
        let kind = self.kind_of(var);
        let done = self.settle_checked(lcir_var, kind);
        assert(done);
        self.slot_of(lcir_var)
    }

    /// Ensure a CIR variable is mapped into LCIR and has a slot.
    pub fn map_var(&mut self, var: VarId) -> (id: VarId)
        requires
            old(self)@.well_formed(),
            old(self)@.after_map(*old(self).module, var).fits(),
        ensures
            id == old(self)@.mapped(var),
            final(self)@ == old(self)@.after_map(*old(self).module, var),
            final(self).module == old(self).module,
            final(self)@.well_formed(),
    {
        match self.map_var_checked(var) {
            Some(id) => id,
            None => vstd::pervasive::unreached(),
        }
    }
}

// ---------------------------------------------------------------------------
// Memory
// ---------------------------------------------------------------------------

/// The slots for variables of a kind: from the first number up to the second.
fn region(kind: &VarKind) -> (range: (u16, u16))
    ensures
        (range.0 as int, range.1 as int) == lowering::region(*kind),
        range.0 <= range.1 <= 256,
{
    match kind {
        VarKind::Constant => (0, 32),
        VarKind::State => (32, 128),
        VarKind::Temporal => (128, 224),
        VarKind::Local => (lowering::LOCAL_START as u16, 256),
    }
}

/// Whether a buffer keeps a sample in the slot.
fn is_covered(buffers: &Table<BufferInfo>, slot: u8) -> (b: bool)
    ensures
        b == lowering::covered(buffers@, slot as int),
{
    let count: usize = buffers.len();
    let mut i: usize = 0;
    while i < count
        invariant
            i <= count == buffers@.len(),
            forall|j: int|
                0 <= j < i ==> !lowering::covers_slot((#[trigger] buffers@[j]).1, slot as int),
        decreases count - i,
    {
        let buffer = buffers.row_at(i);
        if buffer.slot_base <= slot && (slot - buffer.slot_base) as usize <= buffer.depth {
            assert(lowering::covers_slot(buffers@[i as int].1, slot as int));
            return true;
        }
        i += 1;
    }
    false
}

/// The number of samples that the first buffer for a variable retains.
fn retained(buffers: &Table<BufferInfo>, var: VarId) -> (n: usize)
    ensures
        n == lowering::retained(buffers@, var, 0),
{
    let count: usize = buffers.len();
    let mut i: usize = 0;
    while i < count
        invariant
            i <= count == buffers@.len(),
            lowering::retained(buffers@, var, 0) == lowering::retained(buffers@, var, i as int),
        decreases count - i,
    {
        let buffer = buffers.row_at(i);
        if buffer.var.0 == var.0 {
            return buffer.depth;
        }
        i += 1;
    }
    0
}

/// A number of samples, where there is a limit to it.
pub open spec fn limit_view(n: Option<usize>) -> Option<nat> {
    match n {
        Some(n) => Some(n as nat),
        None => None,
    }
}

/// The smaller of two limits.
fn least(a: Option<usize>, b: Option<usize>) -> (n: Option<usize>)
    ensures
        limit_view(n) == lowering::least(limit_view(a), limit_view(b)),
{
    match (a, b) {
        (Some(x), Some(y)) => Some(
            if x <= y {
                x
            } else {
                y
            },
        ),
        (Some(x), None) => Some(x),
        (None, y) => y,
    }
}

/// Whether a variable is among the given ones.
fn is_among(vars: &Vec<VarId>, var: VarId) -> (b: bool)
    ensures
        b == vars@.contains(var),
{
    let count: usize = vars.len();
    let mut i: usize = 0;
    while i < count
        invariant
            i <= count == vars@.len(),
            forall|j: int| 0 <= j < i ==> #[trigger] vars@[j] != var,
        decreases count - i,
    {
        if vars[i].0 == var.0 {
            assert(vars@[i as int] == var);
            return true;
        }
        i += 1;
    }
    false
}

/// How many samples back a variable's change can be read.
fn older(n: usize) -> (m: usize)
    ensures
        m == lowering::less(n as nat, 1),
{
    if n > 1 {
        n - 1
    } else {
        0
    }
}

/// How many samples back an expression can be read from what the buffers retain.
fn horizon(buffers: &Table<BufferInfo>, bound: &mut Vec<VarId>, e: &Expr) -> (n: Option<usize>)
    ensures
        limit_view(n) == lowering::horizon(buffers@, old(bound)@, *e),
        final(bound)@ == old(bound)@,
    decreases e,
{
    match e {
        Expr::Const(_) => None,
        Expr::Var(v) => if is_among(bound, *v) {
            None
        } else {
            Some(retained(buffers, *v))
        },
        Expr::Unary { operand, .. } => horizon(buffers, bound, operand),
        Expr::Binary { left, right, .. } => {
            let l = horizon(buffers, bound, left);
            least(l, horizon(buffers, bound, right))
        },
        Expr::If { cond, then_branch, else_branch, .. } => {
            let c = horizon(buffers, bound, cond);
            let t = horizon(buffers, bound, then_branch);
            least(c, least(t, horizon(buffers, bound, else_branch)))
        },
        Expr::Index { .. } => None,
        Expr::Field { .. } => None,
        Expr::Forall { var, body, .. } => {
            bound.push(*var);
            let n = horizon(buffers, bound, body);
            bound.pop();
            assert(bound@ =~= old(bound)@);
            n
        },
        Expr::Exists { var, body, .. } => {
            bound.push(*var);
            let n = horizon(buffers, bound, body);
            bound.pop();
            assert(bound@ =~= old(bound)@);
            n
        },
        Expr::Always(inner, _) => horizon(buffers, bound, inner),
        Expr::Eventually(inner, _) => horizon(buffers, bound, inner),
        Expr::Next(inner, _) => horizon(buffers, bound, inner),
        Expr::Until { left, right, .. } => {
            let l = horizon(buffers, bound, left);
            least(l, horizon(buffers, bound, right))
        },
        Expr::Since { left, right, .. } => {
            let l = horizon(buffers, bound, left);
            least(l, horizon(buffers, bound, right))
        },
        Expr::For { duration, body, .. } => match horizon(buffers, bound, body) {
            Some(h) => {
                let back: usize = older(*duration);
                Some(
                    if h > back {
                        h - back
                    } else {
                        0
                    },
                )
            },
            None => None,
        },
        Expr::After { body, .. } => horizon(buffers, bound, body),
        Expr::Old(v, _) => Some(older(retained(buffers, *v))),
        Expr::RateOf(v, _) => Some(older(retained(buffers, *v))),
        Expr::Delta(v, _) => Some(older(retained(buffers, *v))),
    }
}

// ---------------------------------------------------------------------------
// Steps that may run out of room
// ---------------------------------------------------------------------------

impl<'a> LowerCtx<'a> {
    /// The kind of a CIR variable.
    fn kind_of(&self, var: VarId) -> (kind: VarKind)
        ensures
            kind == lowering::kind_of(*self.module, var),
    {
        match self.module.symbol_table.var_info(var) {
            Some(info) => match info.kind {
                VarKind::State => VarKind::State,
                VarKind::Constant => VarKind::Constant,
                VarKind::Temporal => VarKind::Temporal,
                VarKind::Local => VarKind::Local,
            },
            None => VarKind::Local,
        }
    }

    /// The slot of an LCIR variable.
    fn slot_of(&self, var: VarId) -> (slot: u8)
        ensures
            slot == self@.slot(var),
    {
        match self.builder.program.slot_map.get(var.0) {
            Some(slot) => *slot,
            None => (var.0 % 256) as u8,
        }
    }

    /// The first slot for a kind that is vacant.
    fn vacant_slot(&self, kind: &VarKind) -> (slot: Option<u8>)
        requires
            self@.well_formed(),
        ensures
            slot == lowering::first_vacant(
                self.builder.program.slot_map@,
                self.module.symbol_table.buffers@,
                lowering::region(*kind).0,
                self@.ceiling(*kind),
            ),
    {
        let ghost (map, buffers) = (
            self.builder.program.slot_map@,
            self.module.symbol_table.buffers@,
        );
        let (from, end): (u16, u16) = region(kind);
        let top: u16 = 256 - self.depth as u16;
        let to: u16 = if end <= top {
            end
        } else {
            top
        };
        let mut i: u16 = from;
        while i < to
            invariant
                from <= i,
                to <= 256,
                from as int == lowering::region(*kind).0,
                to as int == self@.ceiling(*kind),
                map == self.builder.program.slot_map@,
                buffers == self.module.symbol_table.buffers@,
                lowering::first_vacant(map, buffers, from as int, to as int)
                    == lowering::first_vacant(map, buffers, i as int, to as int),
            decreases to - i,
        {
            let slot: u8 = i as u8;
            assert(slot as int == i);
            if !self.builder.program.is_taken(slot) && !is_covered(
                &self.module.symbol_table.buffers,
                slot,
            ) {
                return Some(slot);
            }
            i += 1;
        }
        None
    }

    /// Gives an LCIR variable a slot for its kind, unless it has one.
    fn settle_checked(&mut self, var: VarId, kind: VarKind) -> (done: bool)
        requires
            old(self)@.well_formed(),
        ensures
            done <==> old(self)@.settle(*old(self).module, var, kind).fits(),
            done ==> final(self)@ == old(self)@.settle(*old(self).module, var, kind)
                && final(self)@.well_formed(),
            final(self).module == old(self).module,
    {
        if self.builder.program.slot_map.get(var.0).is_some() {
            return true;
        }
        match self.vacant_slot(&kind) {
            Some(slot) => {
                let done = self.take_checked(var, slot);
                if slot as u16 >= self.floor {
                    self.floor = slot as u16 + 1;
                }
                done
            },
            None => false,
        }
    }

    /// Gives an LCIR variable the slot, unless it has one.
    fn take_checked(&mut self, var: VarId, slot: u8) -> (done: bool)
        requires
            old(self)@.well_formed(),
        ensures
            done <==> old(self)@.builder.after_settle(var, slot).program.slot_count <= u8::MAX,
            done ==> final(self)@ == old(self)@.with(old(self)@.builder.after_settle(var, slot))
                && final(self)@.well_formed(),
            final(self).module == old(self).module,
            final(self).builder.next_var == old(self).builder.next_var,
            final(self).depth == old(self).depth,
            final(self).floor == old(self).floor,
    {
        let known = self.builder.program.slot_map.get(var.0).is_some();
        if !known && self.builder.program.slot_count == u8::MAX && !self.builder.program.is_taken(
            slot,
        ) {
            return false;
        }
        self.builder.settle(var, slot);
        true
    }

    /// Gives back the slots of temporaries that are no longer wanted.
    fn release(&mut self, depth: u8)
        requires
            old(self)@.well_formed(),
            depth <= lowering::LOCAL_SLOTS,
        ensures
            final(self)@ == old(self)@.at(depth as int),
            final(self)@.well_formed(),
            final(self).module == old(self).module,
    {
        self.depth = depth;
    }

    /// A temporary with its slot, while there is room for one.
    fn scratch_checked(&mut self, ty: CirType, name_hint: &str) -> (id: Option<VarId>)
        requires
            old(self)@.well_formed(),
        ensures
            id is Some <==> old(self)@.after_scratch().fits(),
            id matches Some(id) ==> {
                &&& id == old(self)@.tmp()
                &&& final(self)@ == old(self)@.after_scratch()
                &&& final(self)@.well_formed()
            },
            final(self).module == old(self).module,
    {
        let slot: u8 = 255 - self.depth;
        if (slot as u16) < self.floor {
            return None;
        }
        match self.tmp_checked(ty, name_hint) {
            Some(id) => {
                if !self.take_checked(id, slot) {
                    return None;
                }
                self.depth = self.depth + 1;
                Some(id)
            },
            None => None,
        }
    }

    /// A temporary, while there is room for one.
    fn tmp_checked(&mut self, ty: CirType, name_hint: &str) -> (id: Option<VarId>)
        requires
            old(self)@.well_formed(),
        ensures
            id is Some <==> old(self)@.after_tmp().fits(),
            id matches Some(id) ==> {
                &&& id == old(self)@.tmp()
                &&& final(self)@ == old(self)@.after_tmp()
                &&& final(self)@.well_formed()
            },
            final(self).module == old(self).module,
    {
        if self.tmp_counter == u32::MAX || self.builder.next_var == u32::MAX {
            return None;
        }
        Some(self.fresh_tmp(ty, name_hint))
    }

    /// Emits code that lowering adds.
    fn assign(&mut self, dest: VarId, op: AtomicOp)
        requires
            old(self)@.well_formed(),
        ensures
            final(self)@ == old(self)@.emit(
                (StmtView::Assign { dest, op, span: lowering::lower_span() }),
            ),
            final(self)@.well_formed(),
            final(self).module == old(self).module,
    {
        self.builder.emit(Stmt::Assign { dest, op, span: Span::new("<lower>", 0, 0) });
    }

    /// Puts the result of an operation into a temporary, while there is room.
    fn compute_checked(&mut self, ty: CirType, name_hint: &str, op: AtomicOp) -> (id: Option<VarId>)
        requires
            old(self)@.well_formed(),
        ensures
            id is Some <==> old(self)@.assign(op).fits(),
            id matches Some(id) ==> {
                &&& id == old(self)@.tmp()
                &&& final(self)@ == old(self)@.assign(op)
                &&& final(self)@.well_formed()
            },
            final(self).module == old(self).module,
    {
        match self.scratch_checked(ty, name_hint) {
            Some(dest) => {
                self.assign(dest, op);
                Some(dest)
            },
            None => None,
        }
    }

    /// The slot of the first buffer that records a variable.
    fn recorded_slot(&self, var: VarId) -> (slot: Option<u8>)
        ensures
            slot == lowering::recorded_slot(
                self@.buffer_slots,
                self.module.symbol_table.buffers@,
                var,
                0,
            ),
    {
        let buffers = &self.module.symbol_table.buffers;
        let count: usize = self.buffer_slots.len();
        let mut i: usize = 0;
        while i < count
            invariant
                i <= count == self.buffer_slots@.len(),
                buffers == &self.module.symbol_table.buffers,
                lowering::recorded_slot(self@.buffer_slots, buffers@, var, 0)
                    == lowering::recorded_slot(self@.buffer_slots, buffers@, var, i as int),
            decreases count - i,
        {
            let id: u32 = self.buffer_slots.key_at(i);
            let recorded = match buffers.get(id) {
                Some(buffer) => buffer.var.0 == var.0,
                None => false,
            };
            if recorded {
                return Some(*self.buffer_slots.row_at(i));
            }
            i += 1;
        }
        None
    }

    /// The slot with the history of a variable, while there is room for it.
    fn history_checked(&mut self, var: VarId) -> (slot: Option<u8>)
        requires
            old(self)@.well_formed(),
        ensures
            slot is Some <==> old(self)@.after_history(*old(self).module, var).fits(),
            slot matches Some(slot) ==> {
                &&& slot == old(self)@.history(*old(self).module, var)
                &&& final(self)@ == old(self)@.after_history(*old(self).module, var)
                &&& final(self)@.well_formed()
            },
            final(self).module == old(self).module,
    {
        match self.recorded_slot(var) {
            Some(slot) => Some(slot),
            None => {
                let owner = match self.var_map.get(var.0) {
                    Some(id) => *id,
                    None => {
                        if var.0 >= 1000 {
                            return None;
                        }
                        var
                    },
                };
                let kind = self.kind_of(var);
                if self.settle_checked(owner, kind) {
                    Some(self.slot_of(owner))
                } else {
                    None
                }
            },
        }
    }

    /// The slot with the history of a variable, of which slots up to the one with
    /// the number `reach` are read.
    fn reach_checked(&mut self, var: VarId, reach: u64) -> (slot: Option<u8>)
        requires
            old(self)@.well_formed(),
        ensures
            ({
                let s = old(self)@;
                let module = *old(self).module;
                let t = s.after_history(module, var).demand(
                    s.history(module, var) + reach <= 255,
                );
                &&& slot is Some <==> t.fits()
                &&& slot matches Some(slot) ==> {
                    &&& slot == s.history(module, var)
                    &&& slot + reach <= 255
                    &&& final(self)@ == t
                    &&& final(self)@.well_formed()
                }
            }),
            final(self).module == old(self).module,
    {
        match self.history_checked(var) {
            Some(slot) => {
                if reach <= 255 && slot as u64 + reach <= 255 {
                    Some(slot)
                } else {
                    None
                }
            },
            None => None,
        }
    }

    /// The LCIR variable of a CIR variable, while there is room for it.
    fn map_var_checked(&mut self, var: VarId) -> (id: Option<VarId>)
        requires
            old(self)@.well_formed(),
        ensures
            id is Some <==> old(self)@.after_map(*old(self).module, var).fits(),
            id matches Some(id) ==> {
                &&& id == old(self)@.mapped(var)
                &&& final(self)@ == old(self)@.after_map(*old(self).module, var)
                &&& final(self)@.well_formed()
            },
            final(self).module == old(self).module,
    {
        let kind = self.kind_of(var);
        if let Some(id) = self.var_map.get(var.0) {
            let id = *id;
            return if self.settle_checked(id, kind) {
                Some(id)
            } else {
                None
            };
        }
        if self.builder.next_var == u32::MAX {
            return None;
        }
        let ty = match self.module.symbol_table.var_info(var) {
            Some(info) => info.ty.clone(),
            None => CirType { kind: TypeKind::Real, unit: Unit::Dimensionless },
        };
        let id = self.builder.fresh_var(ty, VarKind::Local, "v");
        proof {
            table::law_lookup_after_put(self.var_map@, var.0, id, var.0);
        }
        self.var_map.insert(var.0, id);
        if self.settle_checked(id, kind) {
            Some(id)
        } else {
            None
        }
    }
}

impl<'a> LowerCtx<'a> {
    /// Opens the blocks of a conditional: the branches and the merge block.
    fn fork_checked(&mut self, cond: VarId) -> (blocks: Option<(BlockId, BlockId, BlockId)>)
        requires
            old(self)@.well_formed(),
        ensures
            blocks is Some <==> old(self)@.fork(cond).fits(),
            blocks matches Some((then_block, else_block, merge_block)) ==> {
                &&& then_block == old(self)@.block_ahead(0)
                &&& else_block == old(self)@.block_ahead(1)
                &&& merge_block == old(self)@.block_ahead(2)
                &&& merge_block.0 == old(self)@.builder.next_block + 2
                &&& else_block.0 == old(self)@.builder.next_block + 1
                &&& final(self)@ == old(self)@.fork(cond)
                &&& final(self)@.well_formed()
            },
            final(self).module == old(self).module,
    {
        if self.builder.next_block > u32::MAX - 3 {
            return None;
        }
        let then_block = self.builder.fresh_block("if_then");
        let else_block = self.builder.fresh_block("if_else");
        let merge_block = self.builder.fresh_block("if_merge");
        self.builder.set_terminator(
            Terminator::Branch { cond, then_target: then_block, else_target: else_block },
        );
        self.builder.switch_block(then_block);
        Some((then_block, else_block, merge_block))
    }

    /// Stores a value, jumps to `target` and goes on at `next`.
    fn hand_over(&mut self, value: VarId, slot: u8, target: BlockId, next: BlockId)
        requires
            old(self)@.well_formed(),
            next.0 < old(self)@.builder.next_block,
        ensures
            final(self)@ == old(self)@.hand_over(value, slot, target, next),
            final(self)@.well_formed(),
            final(self).module == old(self).module,
    {
        self.builder.emit(Stmt::Store { src: value, slot, span: Span::new("<lower>", 0, 0) });
        self.builder.set_terminator(Terminator::Jump(target));
        self.builder.switch_block(next);
    }

    /// Ends the first branch of a conditional. The value goes to the slot of a
    /// temporary, from which the merge block loads it.
    fn leave_then_checked(&mut self, ty: CirType, value: VarId, merge: BlockId, next: BlockId) -> (slot:
        Option<u8>)
        requires
            old(self)@.well_formed(),
            next.0 < old(self)@.builder.next_block,
        ensures
            slot is Some <==> old(self)@.leave_then(value, merge, next).fits(),
            slot matches Some(slot) ==> {
                &&& slot == old(self)@.scratch()
                &&& final(self)@ == old(self)@.leave_then(value, merge, next)
                &&& final(self)@.well_formed()
            },
            final(self).module == old(self).module,
    {
        let depth: u8 = self.depth;
        match self.compute_checked(ty, "t", AtomicOp::Const(ConstValue::Bool(true))) {
            Some(_) => {
                let slot: u8 = 255 - depth;
                self.hand_over(value, slot, merge, next);
                Some(slot)
            },
            None => None,
        }
    }
}

// ---------------------------------------------------------------------------
// Expression Lowering
// ---------------------------------------------------------------------------

/// The operation of a unary expression.
fn unary_op(op: UnOp, src: VarId) -> (atomic: AtomicOp)
    ensures
        atomic == lowering::unary_op(op, src),
{
    match op {
        UnOp::Neg => AtomicOp::Neg(src),
        UnOp::Abs => AtomicOp::Abs(src),
        UnOp::Not => AtomicOp::Not(src),
    }
}

/// The operation of a binary expression.
fn binary_op(op: BinOp, l: VarId, r: VarId) -> (atomic: AtomicOp)
    ensures
        atomic == lowering::binary_op(op, l, r),
{
    match op {
        BinOp::Add => AtomicOp::Add(l, r),
        BinOp::Sub => AtomicOp::Sub(l, r),
        BinOp::Mul => AtomicOp::Mul(l, r),
        BinOp::Div => AtomicOp::Div(l, r),
        BinOp::Mod => AtomicOp::Mod(l, r),
        BinOp::Eq => AtomicOp::Eq(l, r),
        BinOp::Neq => AtomicOp::Neq(l, r),
        BinOp::Lt => AtomicOp::Lt(l, r),
        BinOp::Gt => AtomicOp::Gt(l, r),
        BinOp::Lte => AtomicOp::Lte(l, r),
        BinOp::Gte => AtomicOp::Gte(l, r),
        BinOp::And => AtomicOp::And(l, r),
        BinOp::Or => AtomicOp::Or(l, r),
        BinOp::Implies => AtomicOp::Implies(l, r),
    }
}

/// The two branches of a conditional take no counter back.
proof fn lemma_fork_grows(
    s1: Lowering,
    depth: int,
    module: CirModule,
    scope: lowering::Scope,
    cond: VarId,
    then_branch: Expr,
    else_branch: Expr,
)
    ensures
        s1.before(s1.at(depth).fork(cond)),
        ({
            let fork = s1.at(depth).fork(cond);
            let (s2, r2) = lowering::lower(fork, module, scope, then_branch);
            &&& fork.before(s2)
            &&& r2 matches Ok(t) ==> {
                let s3 = s2.leave_then(t, s1.block_ahead(2), s1.block_ahead(1));
                &&& s2.before(s3)
                &&& s3.before(lowering::lower(s3.at(depth), module, scope, else_branch).0)
            }
        }),
{
    let fork = s1.at(depth).fork(cond);
    lowering::lemma_lower_grows(fork, module, scope, then_branch);
    let (s2, r2) = lowering::lower(fork, module, scope, then_branch);
    if let Ok(t) = r2 {
        let s3 = s2.leave_then(t, s1.block_ahead(2), s1.block_ahead(1));
        lowering::lemma_lower_grows(s3.at(depth), module, scope, else_branch);
    }
}

/// Lower a CIR expression into an LCIR variable (ANF).
/// This is the heart of the lowering pass.
pub fn lower_expr_to_var(ctx: &mut LowerCtx<'_>, expr: &Expr) -> (r: Result<VarId>)
    requires
        old(ctx)@.well_formed(),
        lowering::lower(old(ctx)@, *old(ctx).module, lowering::Scope::top(), *expr).0.fits(),
    ensures
        (final(ctx)@, outcome(r)) == lowering::lower(
            old(ctx)@,
            *old(ctx).module,
            lowering::Scope::top(),
            *expr,
        ),
        final(ctx).module == old(ctx).module,
        final(ctx)@.well_formed(),
{
    match lower_expr_to_var_checked(ctx, expr) {
        Some(r) => r,
        None => vstd::pervasive::unreached(),
    }
}

/// [`lower_expr_to_var`], as long as there is room for what it adds. Where there
/// is none, the state is of no further use.
pub fn lower_expr_to_var_checked(ctx: &mut LowerCtx<'_>, expr: &Expr) -> (r: Option<Result<VarId>>)
    requires
        old(ctx)@.well_formed(),
    ensures
        lowered(old(ctx)@, *old(ctx).module, lowering::Scope::top(), *expr, final(ctx)@, r),
        final(ctx).module == old(ctx).module,
{
    lower_in(ctx, &Scope::top(), expr)
}

/// What lowering an expression gives: nothing where there is no room, and else
/// what the model says.
pub open spec fn lowered(
    s: Lowering,
    module: CirModule,
    scope: lowering::Scope,
    e: Expr,
    t: Lowering,
    r: Option<Result<VarId>>,
) -> bool {
    concluded(lowering::lower(s, module, scope, e), t, r)
}

/// What a step of lowering gives.
pub open spec fn concluded(model: lowering::Step, t: Lowering, r: Option<Result<VarId>>) -> bool {
    &&& r is Some <==> model.0.fits()
    &&& r matches Some(r) ==> (t, outcome(r)) == model && t.well_formed()
}

/// The operands of an expression with two of them, and the operation on them.
/// Of a sample, `until` is a disjunction and `since` a conjunction.
fn operands(expr: &Expr) -> (both: Option<(BinOp, &Box<Expr>, &Box<Expr>)>)
    ensures
        both == match *expr {
            Expr::Binary { op, left, right, ty } => Some((op, &left, &right)),
            Expr::Until { left, right, ty } => Some((BinOp::Or, &left, &right)),
            Expr::Since { left, right, ty } => Some((BinOp::And, &left, &right)),
            _ => None,
        },
{
    match expr {
        Expr::Binary { op, left, right, .. } => Some((*op, left, right)),
        Expr::Until { left, right, .. } => Some((BinOp::Or, left, right)),
        Expr::Since { left, right, .. } => Some((BinOp::And, left, right)),
        _ => None,
    }
}

/// Lowers an expression for a scope.
fn lower_in(ctx: &mut LowerCtx<'_>, scope: &Scope, expr: &Expr) -> (r: Option<Result<VarId>>)
    requires
        old(ctx)@.well_formed(),
    ensures
        lowered(old(ctx)@, *old(ctx).module, scope@, *expr, final(ctx)@, r),
        final(ctx).module == old(ctx).module,
    decreases expr, 2nat,
{
    let ghost module = *ctx.module;
    let depth: u8 = ctx.depth;
    if let Expr::Var(v) = expr {
        return lower_var(ctx, scope, *v);
    }
    let ty = expr.ty().clone();
    if let Some((op, left, right)) = operands(expr) {
        proof {
            let s1 = lowering::lower(ctx@, module, scope@, **left).0;
            lowering::lemma_lower_grows(s1, module, scope@, **right);
        }
        return match lower_in(ctx, scope, left) {
            Some(Ok(l)) => match lower_in(ctx, scope, right) {
                Some(Ok(r)) => {
                    ctx.release(depth);
                    ctx.computed(ty, "b", binary_op(op, l, r))
                },
                other => other,
            },
            other => other,
        };
    }
    if let Some(var) = read_back(expr) {
        if forgets(ctx.module, scope, var) {
            return Some(Err(forgotten_error()));
        }
    }
    match expr {
        Expr::Const(c) => ctx.computed(ty, "c", AtomicOp::Const(c.clone())),
        Expr::Unary { op, operand, .. } => match lower_in(ctx, scope, operand) {
            Some(Ok(src)) => {
                ctx.release(depth);
                ctx.computed(ty, "u", unary_op(*op, src))
            },
            other => other,
        },
        Expr::If { cond, then_branch, else_branch, .. } => {
            let ghost s0 = ctx@;
            match lower_in(ctx, scope, cond) {
                Some(Ok(cond_var)) => {
                    let ghost s1 = ctx@;
                    proof {
                        lemma_fork_grows(
                            s1,
                            depth as int,
                            module,
                            scope@,
                            cond_var,
                            **then_branch,
                            **else_branch,
                        );
                    }
                    ctx.release(depth);
                    let (else_block, merge_block) = match ctx.fork_checked(cond_var) {
                        Some(blocks) => (blocks.1, blocks.2),
                        None => {
                            return None;
                        },
                    };
                    let then_val = match lower_in(ctx, scope, then_branch) {
                        Some(Ok(v)) => v,
                        other => {
                            return other;
                        },
                    };
                    let slot: u8 = match ctx.leave_then_checked(
                        ty.clone(),
                        then_val,
                        merge_block,
                        else_block,
                    ) {
                        Some(slot) => slot,
                        None => {
                            return None;
                        },
                    };
                    ctx.release(depth);
                    let else_val = match lower_in(ctx, scope, else_branch) {
                        Some(Ok(v)) => v,
                        other => {
                            return other;
                        },
                    };
                    ctx.hand_over(else_val, slot, merge_block, merge_block);
                    ctx.release(depth);
                    ctx.computed(ty, "phi", AtomicOp::LoadSlot(slot))
                },
                None => {
                    proof {
                        let (s1, r1) = lowering::lower(s0, module, scope@, **cond);
                        if let Ok(c) = r1 {
                            lemma_fork_grows(
                                s1,
                                depth as int,
                                module,
                                scope@,
                                c,
                                **then_branch,
                                **else_branch,
                            );
                        }
                    }
                    None
                },
                other => other,
            }
        },
        // Temporal operators — expanded to history buffer accesses
        Expr::Old(var, _) => match ctx.reach_checked(*var, older_than(scope.age)) {
            Some(slot) => ctx.computed(
                ty,
                "old",
                AtomicOp::Old { buffer: slot, depth: (scope.age + 1) as usize },
            ),
            None => None,
        },
        Expr::RateOf(var, _) => match ctx.reach_checked(*var, older_than(scope.age)) {
            Some(slot) => {
                let dt = ctx.module.sample_period_ms.thousandth();
                ctx.computed(ty, "rate", AtomicOp::RateOf { buffer: slot + scope.age as u8, dt })
            },
            None => None,
        },
        Expr::Delta(var, _) => match ctx.reach_checked(*var, older_than(scope.age)) {
            Some(slot) => ctx.computed(
                ty,
                "delta",
                AtomicOp::Delta { buffer: slot + scope.age as u8 },
            ),
            None => None,
        },
        // Quantifiers — eliminate by expansion over finite domains
        Expr::Forall { var, domain, body, .. } => lower_forall(ctx, scope, *var, domain, body),
        Expr::Exists { var, domain, body, .. } => lower_exists(ctx, scope, *var, domain, body),
        // always P → P ∧ old(always P), unrolled over the samples that are retained
        Expr::Always(inner, _) => {
            let n = samples(ctx.module, scope, inner);
            lower_copies(ctx, scope, None, n, inner, true)
        },
        Expr::Eventually(inner, _) => {
            let n = samples(ctx.module, scope, inner);
            lower_copies(ctx, scope, None, n, inner, false)
        },
        // A conjunction over the last samples
        Expr::For { duration, body, .. } => lower_copies(
            ctx,
            scope,
            None,
            *duration as u128,
            body,
            true,
        ),
        Expr::Next(inner, _) => lower_in(ctx, scope, inner),
        Expr::After { body, .. } => lower_in(ctx, scope, body),
        Expr::Index { .. } => Some(
            Err(GuardError::Lowering("array index lowering not yet implemented".to_owned())),
        ),
        Expr::Field { .. } => Some(
            Err(GuardError::Lowering("field access lowering not yet implemented".to_owned())),
        ),
        _ => vstd::pervasive::unreached(),
    }
}

/// The variable whose change or last sample an expression reads.
fn read_back(expr: &Expr) -> (var: Option<VarId>)
    ensures
        var == match *expr {
            Expr::Old(v, _) => Some(v),
            Expr::RateOf(v, _) => Some(v),
            Expr::Delta(v, _) => Some(v),
            _ => None,
        },
{
    match expr {
        Expr::Old(v, _) => Some(*v),
        Expr::RateOf(v, _) => Some(*v),
        Expr::Delta(v, _) => Some(*v),
        _ => None,
    }
}

/// Whether the sample before the one that is read is not retained, though an
/// earlier one than that at hand is asked for.
fn forgets(module: &CirModule, scope: &Scope, var: VarId) -> (b: bool)
    ensures
        b == lowering::forgotten(*module, scope@, var, scope@.age + 1),
{
    scope.age > 0 && retained(&module.symbol_table.buffers, var) as u64 <= scope.age
}

/// The error where a sample is asked for that is not retained.
fn forgotten_error() -> (e: GuardError)
    ensures
        e@ == lowering::forgotten_error(),
{
    GuardError::Lowering("sample is older than any that a history buffer retains".to_owned())
}

/// The sample before one that is so old.
fn older_than(age: u64) -> (n: u64)
    ensures
        age < u64::MAX ==> n == age + 1,
        n > 255 || n == age + 1,
{
    if age == u64::MAX {
        age
    } else {
        age + 1
    }
}

/// The number of samples, back from the one that is read, for which what an
/// expression reads is retained.
fn samples(module: &CirModule, scope: &Scope, e: &Expr) -> (n: u128)
    ensures
        n == lowering::samples(*module, scope@, *e),
{
    let mut bound = scope.bound_vars();
    match horizon(&module.symbol_table.buffers, &mut bound, e) {
        Some(h) => if h as u64 > scope.age {
            (h as u64 - scope.age) as u128 + 1
        } else {
            1
        },
        None => 1,
    }
}

/// Lowers a variable: what a quantifier binds it to, the variable itself, or a
/// sample of it.
fn lower_var(ctx: &mut LowerCtx<'_>, scope: &Scope, var: VarId) -> (r: Option<Result<VarId>>)
    requires
        old(ctx)@.well_formed(),
    ensures
        lowered(old(ctx)@, *old(ctx).module, scope@, Expr::Var(var), final(ctx)@, r),
        final(ctx).module == old(ctx).module,
{
    if let Some(value) = scope.value_of(var) {
        let ty = CirType { kind: TypeKind::Integer, unit: Unit::Dimensionless };
        return ctx.computed(ty, "m", AtomicOp::Const(ConstValue::Integer(value)));
    }
    if scope.age == 0 {
        return match ctx.map_var_checked(var) {
            Some(id) => Some(Ok(id)),
            None => None,
        };
    }
    if (retained(&ctx.module.symbol_table.buffers, var) as u64) < scope.age {
        return Some(Err(forgotten_error()));
    }
    match ctx.reach_checked(var, scope.age) {
        Some(slot) => {
            let ty = CirType { kind: TypeKind::Real, unit: Unit::Dimensionless };
            ctx.computed(ty, "past", AtomicOp::Old { buffer: slot, depth: scope.age as usize })
        },
        None => None,
    }
}

impl<'a> LowerCtx<'a> {
    /// Puts the result of an operation into a temporary, as the result of a step.
    fn computed(&mut self, ty: CirType, name_hint: &str, op: AtomicOp) -> (r: Option<Result<VarId>>)
        requires
            old(self)@.well_formed(),
        ensures
            concluded(old(self)@.compute(op), final(self)@, r),
            final(self).module == old(self).module,
    {
        match self.compute_checked(ty, name_hint, op) {
            Some(dest) => Some(Ok(dest)),
            None => None,
        }
    }
}

// ---------------------------------------------------------------------------
// Quantifier Elimination
// ---------------------------------------------------------------------------

/// The number of members of a domain.
fn domain_size(domain: &Domain) -> (n: u128)
    ensures
        n == domain.size(),
{
    match domain {
        Domain::Enum(variants) => variants.len() as u128,
        Domain::Interval { low, high } => {
            if *low <= *high {
                (*high as i128 - *low as i128 + 1) as u128
            } else {
                0
            }
        },
        Domain::Array { size } => *size as u128,
    }
}

/// The member of a domain with the number `i`.
fn domain_member(domain: &Domain, i: u128) -> (value: i64)
    requires
        i < domain.size(),
    ensures
        value == domain.member(i as nat),
{
    match domain {
        Domain::Enum(_) => i as i64,
        Domain::Interval { low, .. } => (*low as i128 + i as i128) as i64,
        Domain::Array { .. } => i as i64,
    }
}

/// Lowers one copy of the body for each member of the domain, which takes the
/// place of the variable; they are joined by `and`. Over an empty domain the
/// result is true.
fn lower_forall(
    ctx: &mut LowerCtx<'_>,
    scope: &Scope,
    var: VarId,
    domain: &Domain,
    body: &Expr,
) -> (r: Option<Result<VarId>>)
    requires
        old(ctx)@.well_formed(),
    ensures
        concluded(
            lowering::conclude(
                lowering::copies(
                    old(ctx)@,
                    *old(ctx).module,
                    scope@,
                    Over::Members(var, *domain),
                    *body,
                    true,
                    domain.size(),
                ),
                true,
            ),
            final(ctx)@,
            r,
        ),
        final(ctx).module == old(ctx).module,
    decreases body, 4nat,
{
    lower_copies(ctx, scope, Some((var, domain)), domain_size(domain), body, true)
}

/// Lowers one copy of the body for each member of the domain, which takes the
/// place of the variable; they are joined by `or`. Over an empty domain the
/// result is false.
fn lower_exists(
    ctx: &mut LowerCtx<'_>,
    scope: &Scope,
    var: VarId,
    domain: &Domain,
    body: &Expr,
) -> (r: Option<Result<VarId>>)
    requires
        old(ctx)@.well_formed(),
    ensures
        concluded(
            lowering::conclude(
                lowering::copies(
                    old(ctx)@,
                    *old(ctx).module,
                    scope@,
                    Over::Members(var, *domain),
                    *body,
                    false,
                    domain.size(),
                ),
                false,
            ),
            final(ctx)@,
            r,
        ),
        final(ctx).module == old(ctx).module,
    decreases body, 4nat,
{
    lower_copies(ctx, scope, Some((var, domain)), domain_size(domain), body, false)
}

/// What the instances of a body range over.
pub open spec fn range_of(over: Option<(VarId, &Domain)>) -> Over {
    match over {
        Some((var, domain)) => Over::Members(var, *domain),
        None => Over::Samples,
    }
}

/// Lowers `n` instances of a body, for the members of a domain or for samples,
/// and joins them.
fn lower_copies(
    ctx: &mut LowerCtx<'_>,
    scope: &Scope,
    over: Option<(VarId, &Domain)>,
    n: u128,
    body: &Expr,
    all: bool,
) -> (r: Option<Result<VarId>>)
    requires
        old(ctx)@.well_formed(),
        over matches Some((var, domain)) ==> n == domain.size(),
    ensures
        concluded(
            lowering::conclude(
                lowering::copies(
                    old(ctx)@,
                    *old(ctx).module,
                    scope@,
                    range_of(over),
                    *body,
                    all,
                    n as nat,
                ),
                all,
            ),
            final(ctx)@,
            r,
        ),
        final(ctx).module == old(ctx).module,
    decreases body, 3nat,
{
    let bool_ty = CirType { kind: TypeKind::Boolean, unit: Unit::Dimensionless };
    let ghost (start, module, range) = (ctx@, *ctx.module, range_of(over));
    let depth: u8 = ctx.depth;
    let mut acc: Option<VarId> = None;
    let mut i: u128 = 0;
    while i < n
        invariant
            i <= n,
            over matches Some((var, domain)) ==> n == domain.size(),
            range == range_of(over),
            ctx.module == old(ctx).module,
            module == *ctx.module,
            ctx@.well_formed(),
            start == old(ctx)@,
            depth == start.depth,
            start.well_formed(),
            i == 0 ==> acc is None && ctx@ == start,
            lowering::copies(start, module, scope@, range, *body, all, i as nat) == (ctx@, Ok::<
                Option<VarId>,
                GuardErrorView,
            >(acc)),
        decreases n - i,
    {
        let ghost inner = scope@.instance(range, i as nat);
        proof {
            lowering::lemma_copies_grow(
                start,
                module,
                scope@,
                range,
                *body,
                all,
                (i + 1) as nat,
                n as nat,
            );
            lowering::lemma_lower_grows(
                ctx@.demand(inner.age <= u32::MAX),
                module,
                inner,
                *body,
            );
        }
        let (binding, age) = match over {
            Some((var, domain)) => (Some((var, domain_member(domain, i))), scope.age),
            None => {
                if scope.age > u32::MAX as u64 || i > u32::MAX as u128 {
                    return None;
                }
                (None, scope.age + i as u64)
            },
        };
        if age > u32::MAX as u64 {
            return None;
        }
        let instance = scope.with(binding, age);
        assert(instance@ == inner);
        assert(ctx@.demand(inner.age <= u32::MAX) == ctx@);
        let lowered = match lower_in(ctx, &instance, body) {
            Some(Ok(v)) => v,
            other => {
                return other;
            },
        };
        acc = match acc {
            None => Some(lowered),
            Some(previous) => {
                let op = if all {
                    AtomicOp::And(previous, lowered)
                } else {
                    AtomicOp::Or(previous, lowered)
                };
                let hint = if all {
                    "forall"
                } else {
                    "exists"
                };
                ctx.release(depth);
                match ctx.compute_checked(bool_ty.clone(), hint, op) {
                    Some(dest) => Some(dest),
                    None => {
                        return None;
                    },
                }
            },
        };
        i = i + 1;
    }
    match acc {
        Some(v) => Some(Ok(v)),
        None => {
            let hint = if all {
                "true"
            } else {
                "false"
            };
            ctx.computed(bool_ty, hint, AtomicOp::Const(ConstValue::Bool(all)))
        },
    }
}

// ---------------------------------------------------------------------------
// Per-Invariant Lowering
// ---------------------------------------------------------------------------

/// The text `inv_` with the name of an invariant and an ending.
fn block_label(name: &str, ending: &str) -> (label: String)
    ensures
        label@ == "inv_"@ + name@ + ending@,
{
    let mut label: String = "inv_".to_owned();
    label.push_str(name);
    label.push_str(ending);
    label
}

/// Lowers the guard and the check of an invariant.
fn lower_invariant(ctx: &mut LowerCtx<'_>, inv: &CirInvariant) -> (r: Option<Result<()>>)
    requires
        old(ctx)@.well_formed(),
    ensures
        ({
            let model = lowering::lower_check(old(ctx)@, *old(ctx).module, *inv);
            &&& r is Some <==> model.0.fits()
            &&& r matches Some(r) ==> (final(ctx)@, outcome(r)) == model
                && final(ctx)@.well_formed()
        }),
        final(ctx).module == old(ctx).module,
{
    let ghost module = *ctx.module;
    let depth: u8 = ctx.depth;
    proof {
        lowering::lemma_check_grows(ctx@, module, *inv);
    }
    // If there is a `when` guard, emit a conditional branch.
    let guard_var = match &inv.when {
        Some(when) => match lower_expr_to_var_checked(ctx, when) {
            Some(Ok(v)) => Some(v),
            Some(Err(e)) => {
                return Some(Err(e));
            },
            None => {
                return None;
            },
        },
        None => None,
    };
    if ctx.builder.next_block > u32::MAX - 2 {
        return None;
    }
    let ghost s1 = ctx@;
    ctx.release(depth);
    assert((s1, Ok::<Option<VarId>, GuardErrorView>(guard_var)) == lowering::guard(
        old(ctx)@,
        module,
        *inv,
    ));
    let check_label = block_label(inv.name.as_str(), "");
    let done_label = block_label(inv.name.as_str(), "_done");
    proof {
        reveal_strlit("");
        assert("inv_"@ + inv.name@ + ""@ =~= "inv_"@ + inv.name@);
    }
    let check_block = ctx.builder.fresh_block(check_label.as_str());
    let next_block = ctx.builder.fresh_block(done_label.as_str());
    let way = match guard_var {
        Some(cond) => Terminator::Branch {
            cond,
            then_target: check_block,
            else_target: next_block,
        },
        None => Terminator::Jump(check_block),
    };
    ctx.builder.set_terminator(way);
    ctx.builder.switch_block(check_block);
    assert(ctx@ == s1.at(depth as int).open_check(inv.name@, guard_var));
    proof {
        lowering::lemma_lower_grows(ctx@, module, lowering::Scope::top(), inv.ensure);
    }
    // Lower the ensure expression.
    let holds = match lower_expr_to_var_checked(ctx, &inv.ensure) {
        Some(Ok(v)) => v,
        Some(Err(e)) => {
            return Some(Err(e));
        },
        None => {
            return None;
        },
    };
    // Emit assert.
    let assert_slot: u8 = ctx.slot_of(holds);
    ctx.builder.emit(
        Stmt::Assert {
            cond: holds,
            invariant_name: inv.name.clone(),
            span: inv.source_span.clone(),
        },
    );
    ctx.builder.note_invariant(
        InvariantMeta {
            name: inv.name.clone(),
            priority: inv.priority.clone(),
            on_violation: inv.on_violation.clone(),
            assert_slot,
            source_span: inv.source_span.clone(),
        },
    );
    ctx.builder.set_terminator(Terminator::Jump(next_block));
    ctx.builder.switch_block(next_block);
    ctx.release(depth);
    Some(Ok(()))
}

// ---------------------------------------------------------------------------
// Initialization
// ---------------------------------------------------------------------------

/// Stores constants in their slots.
fn emit_init(ctx: &mut LowerCtx<'_>) -> (done: bool)
    requires
        old(ctx)@.well_formed(),
    ensures
        ({
            let module = *old(ctx).module;
            let model = lowering::place_constants(
                old(ctx)@,
                module,
                module.symbol_table.vars@.len(),
            );
            &&& done <==> model.fits()
            &&& done ==> final(ctx)@ == model && final(ctx)@.well_formed()
        }),
        final(ctx).module == old(ctx).module,
{
    let vars = &ctx.module.symbol_table.vars;
    let count: usize = vars.len();
    let mut i: usize = 0;
    while i < count
        invariant
            i <= count == vars@.len(),
            vars@ == old(ctx).module.symbol_table.vars@,
            ctx.module == old(ctx).module,
            ctx@.well_formed(),
            ctx@ == lowering::place_constants(old(ctx)@, *old(ctx).module, i as nat),
        decreases count - i,
    {
        proof {
            lowering::lemma_preparation_grows(
                old(ctx)@,
                *ctx.module,
                (i + 1) as nat,
                count as nat,
            );
        }
        let constant = match vars.row_at(i).kind {
            VarKind::Constant => true,
            _ => false,
        };
        if constant {
            match ctx.map_var_checked(VarId(vars.key_at(i))) {
                Some(lcir_id) => {
                    let slot: u8 = ctx.slot_of(lcir_id);
                    ctx.builder.emit(
                        Stmt::Store { src: lcir_id, slot, span: Span::new("<init>", 0, 0) },
                    );
                },
                None => {
                    return false;
                },
            }
        }
        i += 1;
    }
    true
}

/// Maps every variable of the symbol table, and gives it a slot.
fn map_all(ctx: &mut LowerCtx<'_>) -> (done: bool)
    requires
        old(ctx)@.well_formed(),
    ensures
        ({
            let module = *old(ctx).module;
            let model = lowering::map_all(old(ctx)@, module, module.symbol_table.vars@.len());
            &&& done <==> model.fits()
            &&& done ==> final(ctx)@ == model && final(ctx)@.well_formed()
        }),
        final(ctx).module == old(ctx).module,
{
    let vars = &ctx.module.symbol_table.vars;
    let count: usize = vars.len();
    let mut i: usize = 0;
    while i < count
        invariant
            i <= count == vars@.len(),
            vars@ == old(ctx).module.symbol_table.vars@,
            ctx.module == old(ctx).module,
            ctx@.well_formed(),
            ctx@ == lowering::map_all(old(ctx)@, *old(ctx).module, i as nat),
        decreases count - i,
    {
        proof {
            lowering::lemma_preparation_grows(
                old(ctx)@,
                *ctx.module,
                (i + 1) as nat,
                count as nat,
            );
        }
        match ctx.map_var_checked(VarId(vars.key_at(i))) {
            Some(_) => {},
            None => {
                return false;
            },
        }
        i += 1;
    }
    true
}

/// Gives every history buffer the slot of its head.
fn place_buffers(ctx: &mut LowerCtx<'_>) -> (done: bool)
    requires
        old(ctx)@.well_formed(),
    ensures
        ({
            let module = *old(ctx).module;
            let model = lowering::place_buffers(
                old(ctx)@,
                module,
                module.symbol_table.buffers@.len(),
            );
            &&& done <==> model.fits()
            &&& done ==> final(ctx)@ == model && final(ctx)@.well_formed()
        }),
        final(ctx).module == old(ctx).module,
{
    let buffers = &ctx.module.symbol_table.buffers;
    let count: usize = buffers.len();
    let mut i: usize = 0;
    while i < count
        invariant
            i <= count == buffers@.len(),
            buffers@ == old(ctx).module.symbol_table.buffers@,
            ctx.module == old(ctx).module,
            ctx@.well_formed(),
            ctx@ == lowering::place_buffers(old(ctx)@, *old(ctx).module, i as nat),
        decreases count - i,
    {
        proof {
            lowering::lemma_preparation_grows(
                old(ctx)@,
                *ctx.module,
                (i + 1) as nat,
                count as nat,
            );
        }
        let slot: u8 = buffers.row_at(i).slot_base;
        proof {
            table::law_lookup_after_put(ctx.buffer_slots@, buffers@[i as int].0, slot, 0);
        }
        ctx.buffer_slots.insert(buffers.key_at(i), slot);
        i += 1;
    }
    true
}

/// Lowers every invariant.
fn lower_invariants(ctx: &mut LowerCtx<'_>) -> (r: Option<Result<()>>)
    requires
        old(ctx)@.well_formed(),
    ensures
        ({
            let invariants = old(ctx).module.invariants@;
            let model = lowering::lower_checks(
                old(ctx)@,
                *old(ctx).module,
                invariants,
                invariants.len(),
            );
            &&& r is Some <==> model.0.fits()
            &&& r matches Some(r) ==> (final(ctx)@, outcome(r)) == model
                && final(ctx)@.well_formed()
        }),
        final(ctx).module == old(ctx).module,
{
    let invariants = &ctx.module.invariants;
    let count: usize = invariants.len();
    let mut i: usize = 0;
    while i < count
        invariant
            i <= count == invariants@.len(),
            invariants@ == old(ctx).module.invariants@,
            ctx.module == old(ctx).module,
            ctx@.well_formed(),
            lowering::lower_checks(old(ctx)@, *old(ctx).module, invariants@, i as nat) == (ctx@, Ok::<
                (),
                GuardErrorView,
            >(())),
        decreases count - i,
    {
        proof {
            lowering::lemma_checks_grow(
                old(ctx)@,
                *ctx.module,
                invariants@,
                (i + 1) as nat,
                count as nat,
            );
        }
        match lower_invariant(ctx, &invariants[i]) {
            Some(Ok(())) => {},
            other => {
                return other;
            },
        }
        i += 1;
    }
    Some(Ok(()))
}

// ---------------------------------------------------------------------------
// Entry Point
// ---------------------------------------------------------------------------

/// A lowered program, or an error, as views.
pub open spec fn program_outcome(r: Result<LcirProgram>) -> core::result::Result<
    ProgramView,
    GuardErrorView,
> {
    match r {
        Ok(program) => Ok(program@),
        Err(e) => Err(e@),
    }
}

/// Lower a complete CIR module to LCIR.
pub fn lower_module(module: &CirModule) -> (r: Result<LcirProgram>)
    requires
        lowering::lower_all(*module).0.fits(),
    ensures
        program_outcome(r) == lowering::lower_all(*module).1,
        r matches Ok(program) ==> program@.intact() && program@.entry == BlockId(0),
{
    match lower_module_checked(module) {
        Some(r) => r,
        None => vstd::pervasive::unreached(),
    }
}

/// [`lower_module`], as long as there is room for what it builds.
pub fn lower_module_checked(module: &CirModule) -> (r: Option<Result<LcirProgram>>)
    ensures
        r is Some <==> lowering::lower_all(*module).0.fits(),
        r matches Some(r) ==> program_outcome(r) == lowering::lower_all(*module).1,
        r matches Some(Ok(program)) ==> program@.intact() && program@.entry == BlockId(0),
{
    let mut ctx = LowerCtx::new(module);
    proof {
        lowering::lemma_module_grows(*module);
    }
    // Allocate slots for all state variables and constants.
    if !map_all(&mut ctx) {
        return None;
    }
    // Allocate history buffer slots for temporal variables.

    if !place_buffers(&mut ctx) {
        return None;
    }
    // Emit initialization block that loads constants and state defaults.

    if !emit_init(&mut ctx) {
        return None;
    }
    let ghost s = ctx@;
    assert(s == lowering::prepared(*module));
    // Create the main constraint-check loop body.
    if ctx.builder.next_block > u32::MAX - 3 {
        return None;
    }
    let loop_head = ctx.builder.fresh_block("loop_head");
    let loop_body = ctx.builder.fresh_block("loop_body");
    let loop_exit = ctx.builder.fresh_block("loop_exit");
    // Init → loop_head
    ctx.builder.set_terminator(Terminator::Jump(loop_head));
    // Loop head: trace marker, then fall through to body
    ctx.builder.switch_block(loop_head);
    ctx.builder.emit(
        Stmt::Trace { label: "constraint_loop".to_owned(), span: Span::new("<lower>", 0, 0) },
    );
    ctx.builder.set_terminator(Terminator::Jump(loop_body));
    // Loop body: emit all invariant checks.
    ctx.builder.switch_block(loop_body);
    assert(ctx@ == s.enter_loop());
    match lower_invariants(&mut ctx) {
        Some(Ok(())) => {},
        Some(Err(e)) => {
            return Some(Err(e));
        },
        None => {
            return None;
        },
    }
    proof {
        lowering::lemma_module(*module);
        lowering::lemma_checks_grow(
            s.enter_loop(),
            *module,
            module.invariants@,
            0,
            module.invariants@.len(),
        );
    }
    // Loop body → loop_head (unconditional jump back)
    ctx.builder.set_terminator(Terminator::Jump(loop_head));
    // Loop exit: halt (unreachable in normal operation, but required).
    ctx.builder.switch_block(loop_exit);
    ctx.builder.set_terminator(Terminator::Halt { reason: HaltReason::Normal });
    let program = ctx.builder.build();
    match program.validate() {
        Ok(()) => Some(Ok(program)),
        Err(e) => Some(Err(e)),
    }
}

/// Outcomes are told apart: a success shows what came out, and a failure its error.
pub proof fn law_outcomes_of_lowering(r: Result<VarId>, q: Result<LcirProgram>)
    ensures
        r matches Ok(v) ==> outcome(r) == Ok::<VarId, GuardErrorView>(v),
        r matches Err(e) ==> outcome(r) == Err::<VarId, GuardErrorView>(e@),
        q matches Ok(p) ==> program_outcome(q) == Ok::<ProgramView, GuardErrorView>(p@),
        q matches Err(e) ==> program_outcome(q) == Err::<ProgramView, GuardErrorView>(e@),
{
}

/// A view shows the state of lowering as it is.
pub proof fn law_view_of_the_state(ctx: LowerCtx<'_>)
    ensures
        ctx@.builder == ctx.builder@,
        ctx@.var_map == ctx.var_map@,
        ctx@.buffer_slots == ctx.buffer_slots@,
        ctx@.tmp_counter == ctx.tmp_counter,
        ctx@.depth == ctx.depth,
        ctx@.floor == ctx.floor,
        ctx@.room,
{
}

/// What a step of lowering says of its result: there is one exactly where there was
/// room, and then state and result are those of the model.
pub proof fn law_steps_have_their_results(
    model: lowering::Step,
    t: Lowering,
    r: Option<Result<VarId>>,
)
    requires
        concluded(model, t, r),
    ensures
        r is Some <==> model.0.fits(),
        r is Some ==> t == model.0 && outcome(r->0) == model.1,
{
}

} // verus!
