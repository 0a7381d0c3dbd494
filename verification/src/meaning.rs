//! What expressions and programs mean.
//!
//! An expression has a value at a sampling instant, and an LCIR program has
//! runs. Both are defined over any kind of value, given what the operations do
//! to it: what is proved here holds whatever the machine's arithmetic is.

use crate::binary64;
use crate::binary64::Real;
use crate::cir::BinOp;
use crate::cir::CirModule;
use crate::cir::CirType;
use crate::cir::ConstValue;
use crate::cir::Expr;
use crate::cir::UnOp;
use crate::cir::VarId;
use crate::codegen;
use crate::error::GuardErrorView;
use crate::lcir::AtomicOp;
use crate::lcir::BlockId;
use crate::lcir::BlockView;
use crate::lcir::ProgramView;
use crate::lcir::StmtView;
use crate::lcir::TerminatorView;
use crate::lowering;
use crate::lowering::LOCAL_START;
use crate::lowering::Lowering;
use crate::lowering::Over;
use crate::lowering::Scope;
use crate::lowering::retains;
use crate::table;
use vstd::prelude::*;

verus! {

/// What the operations do to values.
#[verifier::reject_recursive_types(V)]
pub struct Arithmetic<V> {
    pub constant: spec_fn(ConstValue) -> V,
    pub real: spec_fn(Real) -> V,
    pub unary: spec_fn(UnOp, V) -> V,
    pub binary: spec_fn(BinOp, V, V) -> V,
    pub truth: spec_fn(V) -> bool,
}

/// The value of each variable so many samples ago. The sample at hand has the
/// number zero.
pub type Readings<V> = spec_fn(VarId, nat) -> V;

/// The operation that joins the instances of a body.
pub open spec fn join(all: bool) -> BinOp {
    if all {
        BinOp::And
    } else {
        BinOp::Or
    }
}

/// The change of a variable that led to the sample with the number `age`.
pub open spec fn change<V>(m: Arithmetic<V>, r: Readings<V>, var: VarId, age: nat) -> V {
    (m.binary)(BinOp::Sub, r(var, age), r(var, age + 1))
}

/// The value of an expression for a scope.
///
/// A quantifier speaks of every member of its domain. `for` speaks of as many
/// samples as it says, back from the one that is read, and `always` and
/// `eventually` of all those for which the history buffers retain what is read.
///
/// What `next`, `after`, `until` and `since` mean over time is left open here: each
/// is checked in a single step. `next` and `after` speak of the sample that is read,
/// whatever the duration of `after`. `until` holds where one of its sides does, and
/// `since` where both do.
pub open spec fn value<V>(
    m: Arithmetic<V>,
    module: CirModule,
    r: Readings<V>,
    scope: Scope,
    e: Expr,
) -> V
    decreases e, 0nat,
{
    match e {
        Expr::Const(c) => (m.constant)(c),
        Expr::Var(v) => match lowering::bound_value(scope.bound, v) {
            Some(x) => (m.constant)(ConstValue::Integer(x)),
            None => r(v, scope.age),
        },
        Expr::Unary { op, operand, ty } => (m.unary)(op, value(m, module, r, scope, *operand)),
        Expr::Binary { op, left, right, ty } => (m.binary)(
            op,
            value(m, module, r, scope, *left),
            value(m, module, r, scope, *right),
        ),
        Expr::If { cond, then_branch, else_branch, ty } => if (m.truth)(
            value(m, module, r, scope, *cond),
        ) {
            value(m, module, r, scope, *then_branch)
        } else {
            value(m, module, r, scope, *else_branch)
        },
        Expr::Index { .. } => arbitrary(),
        Expr::Field { .. } => arbitrary(),
        Expr::Forall { var, domain, body, ty } => combined(
            m,
            module,
            r,
            scope,
            Over::Members(var, domain),
            *body,
            true,
            domain.size(),
        ),
        Expr::Exists { var, domain, body, ty } => combined(
            m,
            module,
            r,
            scope,
            Over::Members(var, domain),
            *body,
            false,
            domain.size(),
        ),
        Expr::Always(inner, ty) => combined(
            m,
            module,
            r,
            scope,
            Over::Samples,
            *inner,
            true,
            lowering::samples(module, scope, *inner),
        ),
        Expr::Eventually(inner, ty) => combined(
            m,
            module,
            r,
            scope,
            Over::Samples,
            *inner,
            false,
            lowering::samples(module, scope, *inner),
        ),
        Expr::Next(inner, ty) => value(m, module, r, scope, *inner),
        Expr::Until { left, right, ty } => (m.binary)(
            BinOp::Or,
            value(m, module, r, scope, *left),
            value(m, module, r, scope, *right),
        ),
        Expr::Since { left, right, ty } => (m.binary)(
            BinOp::And,
            value(m, module, r, scope, *left),
            value(m, module, r, scope, *right),
        ),
        Expr::For { duration, body, ty } => combined(
            m,
            module,
            r,
            scope,
            Over::Samples,
            *body,
            true,
            duration as nat,
        ),
        Expr::After { duration, body, ty } => value(m, module, r, scope, *body),
        Expr::Old(v, ty) => r(v, scope.age + 1),
        Expr::RateOf(v, ty) => (m.binary)(
            BinOp::Div,
            change(m, r, v, scope.age),
            (m.real)(binary64::real_thousandth(module.sample_period_ms)),
        ),
        Expr::Delta(v, ty) => change(m, r, v, scope.age),
    }
}

/// The values of the first `n` instances of a body, joined.
pub open spec fn combined<V>(
    m: Arithmetic<V>,
    module: CirModule,
    r: Readings<V>,
    scope: Scope,
    over: Over,
    body: Expr,
    all: bool,
    n: nat,
) -> V
    decreases body, n + 1,
{
    if n == 0 {
        (m.constant)(ConstValue::Bool(all))
    } else {
        let last = value(m, module, r, scope.instance(over, (n - 1) as nat), body);
        if n == 1 {
            last
        } else {
            (m.binary)(
                join(all),
                combined(m, module, r, scope, over, body, all, (n - 1) as nat),
                last,
            )
        }
    }
}

// ---------------------------------------------------------------------------
// Runs
// ---------------------------------------------------------------------------

/// The state of a machine that runs an LCIR program. Variables and histories
/// live in its memory slots.
#[verifier::ext_equal]
#[verifier::reject_recursive_types(V)]
pub struct Machine<V> {
    pub block: int,
    /// The next statement of the block.
    pub at: int,
    pub slots: Map<u8, V>,
    pub stack: Seq<V>,
    /// The invariants that were checked, each with the value that was found.
    pub checks: Seq<(Seq<char>, V)>,
}

impl<V> Machine<V> {
    /// The value of a variable.
    pub open spec fn var(self, map: Seq<(u32, u8)>, var: VarId) -> V {
        self.slots[codegen::slot_of(map, var)]
    }

    /// The value that a variable holds, or that waits on the stack for it.
    pub open spec fn waiting(self, map: Seq<(u32, u8)>, var: VarId) -> V {
        match table::lookup(map, var.0) {
            Some(slot) => self.slots[slot],
            None => self.stack.last(),
        }
    }

    /// After a variable was given a value: it goes to the slot of the variable, or
    /// to the stack where the variable has none.
    pub open spec fn given(self, map: Seq<(u32, u8)>, var: VarId, x: V) -> Machine<V> {
        match table::lookup(map, var.0) {
            Some(slot) => Machine { slots: self.slots.insert(slot, x), ..self },
            None => Machine { stack: self.stack.push(x), ..self },
        }
    }

    /// The stack without the value that waits there for a variable.
    pub open spec fn rest(self, map: Seq<(u32, u8)>, var: VarId) -> Seq<V> {
        match table::lookup(map, var.0) {
            Some(slot) => self.stack,
            None => self.stack.drop_last(),
        }
    }
}

/// The value of an operation. The samples of a history are in consecutive slots,
/// the newest first.
pub open spec fn op_value<V>(
    m: Arithmetic<V>,
    map: Seq<(u32, u8)>,
    k: Machine<V>,
    op: AtomicOp,
) -> V {
    match op {
        AtomicOp::Const(c) => (m.constant)(c),
        AtomicOp::Neg(a) => (m.unary)(UnOp::Neg, k.var(map, a)),
        AtomicOp::Abs(a) => (m.unary)(UnOp::Abs, k.var(map, a)),
        AtomicOp::Not(a) => (m.unary)(UnOp::Not, k.var(map, a)),
        AtomicOp::Add(a, b) => (m.binary)(BinOp::Add, k.var(map, a), k.var(map, b)),
        AtomicOp::Sub(a, b) => (m.binary)(BinOp::Sub, k.var(map, a), k.var(map, b)),
        AtomicOp::Mul(a, b) => (m.binary)(BinOp::Mul, k.var(map, a), k.var(map, b)),
        AtomicOp::Div(a, b) => (m.binary)(BinOp::Div, k.var(map, a), k.var(map, b)),
        AtomicOp::Mod(a, b) => (m.binary)(BinOp::Mod, k.var(map, a), k.var(map, b)),
        AtomicOp::Eq(a, b) => (m.binary)(BinOp::Eq, k.var(map, a), k.var(map, b)),
        AtomicOp::Neq(a, b) => (m.binary)(BinOp::Neq, k.var(map, a), k.var(map, b)),
        AtomicOp::Lt(a, b) => (m.binary)(BinOp::Lt, k.var(map, a), k.var(map, b)),
        AtomicOp::Gt(a, b) => (m.binary)(BinOp::Gt, k.var(map, a), k.var(map, b)),
        AtomicOp::Lte(a, b) => (m.binary)(BinOp::Lte, k.var(map, a), k.var(map, b)),
        AtomicOp::Gte(a, b) => (m.binary)(BinOp::Gte, k.var(map, a), k.var(map, b)),
        AtomicOp::And(a, b) => (m.binary)(BinOp::And, k.var(map, a), k.var(map, b)),
        AtomicOp::Or(a, b) => (m.binary)(BinOp::Or, k.var(map, a), k.var(map, b)),
        AtomicOp::Implies(a, b) => (m.binary)(BinOp::Implies, k.var(map, a), k.var(map, b)),
        AtomicOp::LoadSlot(slot) => k.slots[slot],
        AtomicOp::Old { buffer, depth } => k.slots[(buffer + depth % 256) as u8],
        AtomicOp::RateOf { buffer, dt } => (m.binary)(
            BinOp::Div,
            (m.binary)(BinOp::Sub, k.slots[buffer], k.slots[(buffer + 1) as u8]),
            (m.real)(dt),
        ),
        AtomicOp::Delta { buffer } => (m.binary)(
            BinOp::Sub,
            k.slots[buffer],
            k.slots[(buffer + 1) as u8],
        ),
    }
}

/// After a statement. A check is recorded; what a failed one leads to is the
/// machine's affair.
pub open spec fn perform<V>(
    m: Arithmetic<V>,
    map: Seq<(u32, u8)>,
    k: Machine<V>,
    stmt: StmtView,
) -> Machine<V> {
    let next = Machine { at: k.at + 1, ..k };
    match stmt {
        StmtView::Assign { dest, op, span } => next.given(map, dest, op_value(m, map, k, op)),
        StmtView::LoadState { dest, slot, ty, span } => next.given(map, dest, k.slots[slot]),
        StmtView::Store { src, slot, span } => Machine {
            slots: k.slots.insert(slot, k.waiting(map, src)),
            stack: k.rest(map, src),
            ..next
        },
        StmtView::PushConst { value, span } => Machine {
            stack: k.stack.push((m.constant)(value)),
            ..next
        },
        StmtView::Pop { dest, ty, span } => match table::lookup(map, dest.0) {
            Some(slot) => Machine {
                slots: k.slots.insert(slot, k.stack.last()),
                stack: k.stack.drop_last(),
                ..next
            },
            None => Machine { stack: k.stack.drop_last(), ..next },
        },
        StmtView::Assert { cond, invariant_name, span } => Machine {
            checks: k.checks.push((invariant_name, k.waiting(map, cond))),
            stack: k.rest(map, cond),
            ..next
        },
        StmtView::Trace { label, span } => next,
    }
}

/// After a terminator. A machine that has halted stays where it is.
pub open spec fn leave<V>(
    m: Arithmetic<V>,
    map: Seq<(u32, u8)>,
    k: Machine<V>,
    terminator: TerminatorView,
) -> Machine<V> {
    match terminator {
        TerminatorView::Jump(target) => Machine { block: target.0 as int, at: 0, ..k },
        TerminatorView::Branch { cond, then_target, else_target } => if (m.truth)(
            k.var(map, cond),
        ) {
            Machine { block: then_target.0 as int, at: 0, ..k }
        } else {
            Machine { block: else_target.0 as int, at: 0, ..k }
        },
        TerminatorView::Halt { reason } => k,
        TerminatorView::Return => k,
    }
}

/// After one step.
pub open spec fn step<V>(p: ProgramView, m: Arithmetic<V>, k: Machine<V>) -> Machine<V> {
    let block = p.blocks[k.block];
    if k.at < block.stmts.len() {
        perform(m, p.slot_map, k, block.stmts[k.at])
    } else {
        leave(m, p.slot_map, k, block.terminator)
    }
}

/// After `n` steps.
pub open spec fn run<V>(p: ProgramView, m: Arithmetic<V>, k: Machine<V>, n: nat) -> Machine<V>
    decreases n,
{
    if n == 0 {
        k
    } else {
        step(p, m, run(p, m, k, (n - 1) as nat))
    }
}

/// Two runs in a row are one run.
pub proof fn lemma_run_adds<V>(
    p: ProgramView,
    m: Arithmetic<V>,
    k: Machine<V>,
    a: nat,
    b: nat,
)
    ensures
        run(p, m, run(p, m, k, a), b) == run(p, m, k, a + b),
    decreases b,
{
    if b > 0 {
        lemma_run_adds(p, m, k, a, (b - 1) as nat);
        assert((a + b - 1) as nat == a + (b - 1) as nat);
    }
}

// ---------------------------------------------------------------------------
// Lowered code computes the value
// ---------------------------------------------------------------------------

/// What the expression reads at the sampling instant itself is there to be read: a
/// variable is bound or declared, and the sample before the one at hand is in a
/// history buffer. (An expression that asks for earlier samples that no buffer
/// retains is not lowered.) An expression that is read for no instance reads
/// nothing.
pub open spec fn readable(module: CirModule, scope: Scope, e: Expr) -> bool
    decreases e,
{
    match e {
        Expr::Const(c) => true,
        Expr::Var(v) => lowering::bound_value(scope.bound, v) is Some || scope.age > 0
            || table::lookup(module.symbol_table.vars@, v.0) is Some,
        Expr::Unary { op, operand, ty } => readable(module, scope, *operand),
        Expr::Binary { op, left, right, ty } => readable(module, scope, *left) && readable(
            module,
            scope,
            *right,
        ),
        Expr::If { cond, then_branch, else_branch, ty } => readable(module, scope, *cond)
            && readable(module, scope, *then_branch) && readable(module, scope, *else_branch),
        Expr::Index { .. } => true,
        Expr::Field { .. } => true,
        Expr::Forall { var, domain, body, ty } => forall|i: nat|
            i < domain.size() ==> readable(
                module,
                #[trigger] scope.instance(Over::Members(var, domain), i),
                *body,
            ),
        Expr::Exists { var, domain, body, ty } => forall|i: nat|
            i < domain.size() ==> readable(
                module,
                #[trigger] scope.instance(Over::Members(var, domain), i),
                *body,
            ),
        Expr::Always(inner, ty) => forall|i: nat|
            i < lowering::samples(module, scope, *inner) ==> readable(
                module,
                #[trigger] scope.instance(Over::Samples, i),
                *inner,
            ),
        Expr::Eventually(inner, ty) => forall|i: nat|
            i < lowering::samples(module, scope, *inner) ==> readable(
                module,
                #[trigger] scope.instance(Over::Samples, i),
                *inner,
            ),
        Expr::Next(inner, ty) => readable(module, scope, *inner),
        Expr::Until { left, right, ty } => readable(module, scope, *left) && readable(
            module,
            scope,
            *right,
        ),
        Expr::Since { left, right, ty } => readable(module, scope, *left) && readable(
            module,
            scope,
            *right,
        ),
        Expr::For { duration, body, ty } => forall|i: nat|
            i < duration ==> readable(
                module,
                #[trigger] scope.instance(Over::Samples, i),
                *body,
            ),
        Expr::After { duration, body, ty } => readable(module, scope, *body),
        Expr::Old(v, ty) => scope.age > 0 || retains(module, v, 1),
        Expr::RateOf(v, ty) => scope.age > 0 || retains(module, v, 1),
        Expr::Delta(v, ty) => scope.age > 0 || retains(module, v, 1),
    }
}

/// The first `n` instances of a body can be read.
pub open spec fn all_readable(
    module: CirModule,
    scope: Scope,
    over: Over,
    body: Expr,
    n: nat,
) -> bool {
    forall|i: nat| i < n ==> readable(module, #[trigger] scope.instance(over, i), body)
}

/// Every declared variable has its LCIR variable.
pub open spec fn declared(s: Lowering, module: CirModule) -> bool {
    forall|v: u32|
        #[trigger] table::lookup(module.symbol_table.vars@, v) is Some ==> table::lookup(
            s.var_map,
            v,
        ) is Some
}

/// The slot of a variable's sample with the number `age`.
pub open spec fn sample_slot(s: Lowering, module: CirModule, var: VarId, age: nat) -> u8 {
    (s.history(module, var) + age) as u8
}

/// The samples of a variable that are retained are in a buffer's slots, below
/// those for temporaries.
pub open spec fn in_buffer(s: Lowering, module: CirModule, v: VarId) -> bool {
    let buffers = module.symbol_table.buffers@;
    &&& lowering::recorded_slot(s.buffer_slots, buffers, v, 0) is Some
    &&& s.history(module, v) + lowering::retained(buffers, v, 0) < LOCAL_START
}

/// All samples that are retained are in their buffers.
pub open spec fn buffered(s: Lowering, module: CirModule) -> bool {
    forall|v: VarId|
        lowering::retained(module.symbol_table.buffers@, v, 0) > 0 ==> #[trigger] in_buffer(
            s,
            module,
            v,
        )
}

/// The machine holds the readings: each mapped variable its value, and the
/// buffers the samples that they retain.
pub open spec fn holds<V>(s: Lowering, module: CirModule, k: Machine<V>, r: Readings<V>) -> bool {
    &&& forall|v: VarId|
        #[trigger] table::lookup(s.var_map, v.0) is Some ==> k.slots[s.slot(s.mapped(v))] == r(
            v,
            0,
        )
    &&& forall|v: VarId, n: nat|
        lowering::retained(module.symbol_table.buffers@, v, 0) > 0 && retains(module, v, n)
            ==> k.slots[#[trigger] sample_slot(s, module, v, n)] == r(v, n)
}

/// The machine is where the next statement of the state will go.
pub open spec fn positioned<V>(k: Machine<V>, s: Lowering) -> bool {
    &&& k.block == s.builder.current_block.0
    &&& k.at == s.builder.current().stmts.len()
}

/// The program holds the code that was added between two states: the blocks
/// that were current or new, the one that is current now as far as it goes. And
/// its variables have the slots that they have in the state.
pub open spec fn covers(s: Lowering, t: Lowering, p: ProgramView) -> bool {
    let at = s.builder.current_block.0 as int;
    let (b, c) = (s.builder.program.blocks, t.builder.program.blocks);
    &&& c.len() <= p.blocks.len()
    &&& forall|i: int|
        i == at || b.len() <= i < c.len() ==> in_part(
            c[i],
            #[trigger] p.blocks[i],
            i == t.builder.current_block.0,
        )
    &&& t.builder.program.slot_map.is_prefix_of(p.slot_map)
    &&& table::keys_distinct(p.slot_map)
}

/// The block is in the program, as far as it goes or completely.
pub open spec fn in_part(block: BlockView, whole: BlockView, open: bool) -> bool {
    if open {
        block.stmts.is_prefix_of(whole.stmts)
    } else {
        block == whole
    }
}

/// A program that holds the code of two steps in a row holds that of each.
pub proof fn lemma_covers_split(s: Lowering, t: Lowering, u: Lowering, p: ProgramView)
    requires
        s.sound(),
        t.sound(),
        u.sound(),
        s.leads_to(t),
        t.leads_to(u),
        covers(s, u, p),
    ensures
        covers(s, t, p),
        covers(t, u, p),
{
    let at = s.builder.current_block.0 as int;
    let (b, c, d) = (
        s.builder.program.blocks,
        t.builder.program.blocks,
        u.builder.program.blocks,
    );
    assert forall|i: int| i == at || b.len() <= i < c.len() implies in_part(
        c[i],
        #[trigger] p.blocks[i],
        i == t.builder.current_block.0,
    ) by {
        assert(in_part(d[i], p.blocks[i], i == u.builder.current_block.0));
        if i != t.builder.current_block.0 {
            assert(d[i] == c[i]);
        }
    }
}

/// In the program a variable has the slot that it has in the state.
pub proof fn lemma_slot_in_program(t: Lowering, p: ProgramView, v: VarId)
    requires
        t.builder.program.slot_map.is_prefix_of(p.slot_map),
        table::keys_distinct(p.slot_map),
        table::lookup(t.builder.program.slot_map, v.0) is Some,
    ensures
        table::lookup(p.slot_map, v.0) == Some(t.slot(v)),
        codegen::slot_of(p.slot_map, v) == t.slot(v),
{
    table::lemma_lookup_prefix(t.builder.program.slot_map, p.slot_map, v.0);
}

/// What a run through the code between two states does: the machine arrives,
/// `id` holds `x`, and what was wanted before is kept.
pub open spec fn computes<V>(
    s: Lowering,
    t: Lowering,
    k: Machine<V>,
    end: Machine<V>,
    id: VarId,
    x: V,
) -> bool {
    &&& positioned(end, t)
    &&& end.slots[t.slot(id)] == x
    &&& keeps(s, k, end)
}

/// The slots whose values are still wanted keep them.
pub open spec fn keeps_slots<V>(s: Lowering, k: Machine<V>, end: Machine<V>) -> bool {
    forall|i: u8| s.wants(i) ==> #[trigger] end.slots[i] == k.slots[i]
}

/// [`keeps_slots`], and nothing is checked or left on the stack.
pub open spec fn keeps<V>(s: Lowering, k: Machine<V>, end: Machine<V>) -> bool {
    &&& keeps_slots(s, k, end)
    &&& end.checks == k.checks
    &&& end.stack == k.stack
}

/// The readings are still held after a step that maps no variable.
pub proof fn lemma_still_holds<V>(
    s: Lowering,
    t: Lowering,
    module: CirModule,
    k: Machine<V>,
    end: Machine<V>,
    r: Readings<V>,
)
    requires
        s.sound(),
        t.sound(),
        s.leads_to(t),
        s.var_map == t.var_map,
        holds(s, module, k, r),
        buffered(s, module),
        declared(s, module),
        keeps_slots(s, k, end),
    ensures
        holds(t, module, end, r),
        buffered(t, module),
        declared(t, module),
{
    let buffers = module.symbol_table.buffers@;
    assert forall|v: VarId| #[trigger] table::lookup(t.var_map, v.0) is Some implies end.slots[t.slot(
        t.mapped(v),
    )] == r(v, 0) by {
        assert(table::lookup(s.var_map, v.0) is Some);
        table::lemma_place_of(s.var_map, v.0);
        assert(s.var_map[table::place_of(s.var_map, v.0)].1 == s.mapped(v));
        lowering::lemma_slot_kept(s, t, s.mapped(v));
        assert(end.slots[s.slot(s.mapped(v))] == k.slots[s.slot(s.mapped(v))]);
    }
    assert forall|v: VarId| lowering::retained(buffers, v, 0) > 0 implies #[trigger] in_buffer(
        t,
        module,
        v,
    ) by {
        assert(in_buffer(s, module, v));
    }
    assert forall|v: VarId, n: nat|
        lowering::retained(buffers, v, 0) > 0 && retains(
            module,
            v,
            n,
        ) implies end.slots[#[trigger] sample_slot(t, module, v, n)] == r(v, n) by {
        assert(in_buffer(s, module, v));
        assert(t.history(module, v) == s.history(module, v));
        assert(sample_slot(t, module, v, n) == sample_slot(s, module, v, n));
        assert(end.slots[sample_slot(s, module, v, n)] == k.slots[sample_slot(s, module, v, n)]);
    }
}

/// Lowering a readable expression maps no variable.
pub proof fn lemma_map_unchanged(s: Lowering, module: CirModule, scope: Scope, e: Expr)
    requires
        declared(s, module),
        readable(module, scope, e),
    ensures
        lowering::lower(s, module, scope, e).0.var_map == s.var_map,
    decreases e, 0nat,
{
    match e {
        Expr::Var(v) => {
            if lowering::bound_value(scope.bound, v) is None && scope.age == 0 {
                assert(table::lookup(module.symbol_table.vars@, v.0) is Some);
            }
        },
        Expr::Unary { op, operand, ty } => lemma_map_unchanged(s, module, scope, *operand),
        Expr::Binary { op, left, right, ty } => {
            lemma_map_unchanged(s, module, scope, *left);
            lemma_map_unchanged(
                lowering::lower(s, module, scope, *left).0,
                module,
                scope,
                *right,
            );
        },
        Expr::If { cond, then_branch, else_branch, ty } => {
            let (s1, r1) = lowering::lower(s, module, scope, *cond);
            lemma_map_unchanged(s, module, scope, *cond);
            if let Ok(c) = r1 {
                let fork = s1.at(s.depth).fork(c);
                let (s2, r2) = lowering::lower(fork, module, scope, *then_branch);
                lemma_map_unchanged(fork, module, scope, *then_branch);
                if let Ok(t) = r2 {
                    lemma_map_unchanged(
                        s2.leave_then(t, s1.block_ahead(2), s1.block_ahead(1)).at(s.depth),
                        module,
                        scope,
                        *else_branch,
                    );
                }
            }
        },
        Expr::Forall { var, domain, body, ty } => lemma_map_unchanged_copies(
            s,
            module,
            scope,
            Over::Members(var, domain),
            *body,
            true,
            domain.size(),
        ),
        Expr::Exists { var, domain, body, ty } => lemma_map_unchanged_copies(
            s,
            module,
            scope,
            Over::Members(var, domain),
            *body,
            false,
            domain.size(),
        ),
        Expr::Always(inner, ty) => lemma_map_unchanged_copies(
            s,
            module,
            scope,
            Over::Samples,
            *inner,
            true,
            lowering::samples(module, scope, *inner),
        ),
        Expr::Eventually(inner, ty) => lemma_map_unchanged_copies(
            s,
            module,
            scope,
            Over::Samples,
            *inner,
            false,
            lowering::samples(module, scope, *inner),
        ),
        Expr::Next(inner, ty) => lemma_map_unchanged(s, module, scope, *inner),
        Expr::Until { left, right, ty } => {
            lemma_map_unchanged(s, module, scope, *left);
            lemma_map_unchanged(
                lowering::lower(s, module, scope, *left).0,
                module,
                scope,
                *right,
            );
        },
        Expr::Since { left, right, ty } => {
            lemma_map_unchanged(s, module, scope, *left);
            lemma_map_unchanged(
                lowering::lower(s, module, scope, *left).0,
                module,
                scope,
                *right,
            );
        },
        Expr::For { duration, body, ty } => lemma_map_unchanged_copies(
            s,
            module,
            scope,
            Over::Samples,
            *body,
            true,
            duration as nat,
        ),
        Expr::After { duration, body, ty } => lemma_map_unchanged(s, module, scope, *body),
        _ => {},
    }
}

/// [`lemma_map_unchanged`] for instances of a body.
proof fn lemma_map_unchanged_copies(
    s: Lowering,
    module: CirModule,
    scope: Scope,
    over: Over,
    body: Expr,
    all: bool,
    n: nat,
)
    requires
        declared(s, module),
        all_readable(module, scope, over, body, n),
    ensures
        lowering::copies(s, module, scope, over, body, all, n).0.var_map == s.var_map,
    decreases body, n + 1,
{
    if n > 0 {
        let one_less = (n - 1) as nat;
        let inner = scope.instance(over, one_less);
        lemma_map_unchanged_copies(s, module, scope, over, body, all, one_less);
        lemma_map_unchanged(
            lowering::copies(s, module, scope, over, body, all, one_less).0.demand(
                inner.age <= u32::MAX,
            ),
            module,
            inner,
            body,
        );
    }
}

/// The machine performs the statement that comes next.
pub proof fn lemma_perform<V>(
    s: Lowering,
    stmt: StmtView,
    p: ProgramView,
    m: Arithmetic<V>,
    k: Machine<V>,
)
    requires
        s.sound(),
        positioned(k, s),
        s.emit(stmt).builder.current().stmts.is_prefix_of(
            p.blocks[s.builder.current_block.0 as int].stmts,
        ),
    ensures
        run(p, m, k, 1) == perform(m, p.slot_map, k, stmt),
        positioned(run(p, m, k, 1), s.emit(stmt)),
{
    reveal_with_fuel(run, 2);
    let stmts = p.blocks[k.block].stmts;
    let emitted = s.emit(stmt).builder.current().stmts;
    assert(emitted[k.at] == stmt);
    assert(stmts[k.at] == emitted[k.at]);
}

/// The machine computes the operation that comes next.
pub proof fn lemma_assign<V>(
    s: Lowering,
    op: AtomicOp,
    p: ProgramView,
    m: Arithmetic<V>,
    k: Machine<V>,
)
    requires
        s.sound(),
        s.assign(op).fits(),
        covers(s, s.assign(op), p),
        positioned(k, s),
    ensures
        computes(
            s,
            s.assign(op),
            k,
            run(p, m, k, 1),
            s.tmp(),
            op_value(m, p.slot_map, k, op),
        ),
{
    let at = s.builder.current_block.0 as int;
    lowering::lemma_compute(s, op);
    lemma_slot_in_program(s.assign(op), p, s.tmp());
    assert(in_part(
        s.assign(op).builder.program.blocks[at],
        p.blocks[at],
        at == s.assign(op).builder.current_block.0,
    ));
    let stmt = StmtView::Assign { dest: s.tmp(), op, span: lowering::lower_span() };
    let emitted = s.emit(stmt);
    assert(emitted.builder.current().stmts == s.assign(op).builder.current().stmts);
    lemma_perform(s, stmt, p, m, k);
}

/// What is given where a run through lowered code begins.
pub open spec fn begins<V>(s: Lowering, module: CirModule, k: Machine<V>, r: Readings<V>) -> bool {
    &&& s.sound()
    &&& positioned(k, s)
    &&& holds(s, module, k, r)
    &&& buffered(s, module)
    &&& declared(s, module)
}

/// One operand, then an operation on it.
proof fn lemma_after_one<V>(
    s: Lowering,
    s1: Lowering,
    a: VarId,
    op: AtomicOp,
    p: ProgramView,
    m: Arithmetic<V>,
    k: Machine<V>,
    n: nat,
    x: V,
)
    requires
        s.sound(),
        s1.sound(),
        s.leads_to(s1),
        s1.holds_result(a),
        s1.at(s.depth).assign(op).fits(),
        covers(s, s1.at(s.depth).assign(op), p),
        computes(s, s1, k, run(p, m, k, n), a, x),
    ensures
        run(p, m, k, n).var(p.slot_map, a) == x,
        computes(
            s,
            s1.at(s.depth).assign(op),
            k,
            run(p, m, k, n + 1),
            s1.tmp(),
            op_value(m, p.slot_map, run(p, m, k, n), op),
        ),
{
    let s0 = s1.at(s.depth);
    lowering::lemma_at(s1, s.depth);
    lowering::lemma_leads_to_transitive(s, s1, s0);
    lowering::lemma_compute(s0, op);
    lemma_covers_split(s, s0, s0.assign(op), p);
    lemma_slot_in_program(s0, p, a);
    let (mid, end) = (run(p, m, k, n), run(p, m, k, n + 1));
    lemma_assign(s0, op, p, m, mid);
    lemma_run_adds(p, m, k, n, 1);
    assert forall|i: u8| s.wants(i) implies #[trigger] end.slots[i]
        == k.slots[i] by {
        assert(mid.slots[i] == k.slots[i]);
    }
}

/// Two operands, then an operation on them.
proof fn lemma_after_two<V>(
    s: Lowering,
    s1: Lowering,
    s2: Lowering,
    a: VarId,
    b: VarId,
    op: AtomicOp,
    p: ProgramView,
    m: Arithmetic<V>,
    k: Machine<V>,
    n1: nat,
    n2: nat,
    x: V,
    y: V,
)
    requires
        s.sound(),
        s1.sound(),
        s2.sound(),
        s.leads_to(s1),
        s1.leads_to(s2),
        s.depth <= s1.depth,
        s1.holds_result(a),
        s2.holds_result(b),
        s2.at(s.depth).assign(op).fits(),
        covers(s, s2.at(s.depth).assign(op), p),
        computes(s, s1, k, run(p, m, k, n1), a, x),
        computes(s1, s2, run(p, m, k, n1), run(p, m, run(p, m, k, n1), n2), b, y),
    ensures
        run(p, m, k, n1 + n2).var(p.slot_map, a) == x,
        run(p, m, k, n1 + n2).var(p.slot_map, b) == y,
        computes(
            s,
            s2.at(s.depth).assign(op),
            k,
            run(p, m, k, n1 + n2 + 1),
            s2.tmp(),
            op_value(m, p.slot_map, run(p, m, k, n1 + n2), op),
        ),
{
    lemma_run_adds(p, m, k, n1, n2);
    lowering::lemma_leads_to_transitive(s, s1, s2);
    let (mid, end) = (run(p, m, k, n1), run(p, m, k, n1 + n2));
    assert(end.slots[s1.slot(a)] == mid.slots[s1.slot(a)]);
    assert forall|i: u8| s.wants(i) implies #[trigger] end.slots[i]
        == k.slots[i] by {
        assert(mid.slots[i] == k.slots[i]);
    }
    assert(computes(s, s2, k, end, b, y));
    lemma_after_one(s, s2, b, op, p, m, k, n1 + n2, y);
    let s0 = s2.at(s.depth);
    lowering::lemma_at(s2, s.depth);
    lowering::lemma_compute(s0, op);
    lowering::lemma_leads_to_transitive(s1, s2, s0);
    lowering::lemma_leads_to_transitive(s1, s0, s0.assign(op));
    lemma_slot_in_program(s1, p, a);
}

/// A look at a history.
proof fn lemma_look_back<V>(
    s: Lowering,
    module: CirModule,
    var: VarId,
    reach: nat,
    op: spec_fn(u8) -> AtomicOp,
    p: ProgramView,
    m: Arithmetic<V>,
    r: Readings<V>,
    k: Machine<V>,
)
    requires
        begins(s, module, k, r),
        reach > 0,
        retains(module, var, reach),
        s.look_back(module, var, reach, op).0.fits(),
        covers(s, s.look_back(module, var, reach, op).0, p),
    ensures
        computes(
            s,
            s.look_back(module, var, reach, op).0,
            k,
            run(p, m, k, 1),
            s.look_back(module, var, reach, op).1->Ok_0,
            op_value(m, p.slot_map, k, op(s.history(module, var))),
        ),
        s.history(module, var) + reach <= 255,
        forall|n: nat|
            n <= reach ==> k.slots[#[trigger] ((s.history(module, var) + n) as u8)] == r(var, n),
{
    let slot = s.history(module, var);
    assert(in_buffer(s, module, var));
    lowering::lemma_look_back(s, module, var, reach, op);
    let t = s.demand(slot + reach <= 255);
    assert(s.after_history(module, var) == s);
    assert(t == s);
    lemma_assign(s, op(slot), p, m, k);
    assert forall|n: nat| n <= reach implies k.slots[#[trigger] ((slot + n) as u8)] == r(
        var,
        n,
    ) by {
        assert(retains(module, var, n));
        assert(sample_slot(s, module, var, n) == (slot + n) as u8);
    }
}

/// The blocks of a conditional in a program that holds its code: the
/// condition's block branches, each branch stores its value and jumps, and the
/// merge block loads what was stored.
#[verifier::rlimit(50)]
proof fn lemma_if_blocks(
    s: Lowering,
    module: CirModule,
    scope: Scope,
    cond: Expr,
    then_branch: Expr,
    else_branch: Expr,
    p: ProgramView,
    s1: Lowering,
    c: VarId,
    s2: Lowering,
    t: VarId,
    s4: Lowering,
    f: VarId,
)
    requires
        s.sound(),
        lowering::lower(s, module, scope, cond) == (s1, Ok::<VarId, GuardErrorView>(c)),
        lowering::lower(s1.at(s.depth).fork(c), module, scope, then_branch) == (s2, Ok::<
            VarId,
            GuardErrorView,
        >(t)),
        lowering::lower(
            s2.leave_then(t, s1.block_ahead(2), s1.block_ahead(1)).at(s.depth),
            module,
            scope,
            else_branch,
        ) == (s4, Ok::<VarId, GuardErrorView>(f)),
        ({
            let merge = s1.block_ahead(2);
            let end = s4.hand_over(f, s2.scratch(), merge, merge).at(s.depth).assign(
                AtomicOp::LoadSlot(s2.scratch()),
            );
            &&& end.fits()
            &&& covers(s, end, p)
        }),
    ensures
        ({
            let s0 = s1.at(s.depth);
            let fork = s0.fork(c);
            let merge = s1.block_ahead(2);
            let s3 = s2.leave_then(t, merge, s1.block_ahead(1));
            let s5 = s4.hand_over(f, s2.scratch(), merge, merge);
            let s6 = s5.at(s.depth);
            let end = s6.assign(AtomicOp::LoadSlot(s2.scratch()));
            let at1 = s1.builder.current_block.0 as int;
            let at2 = s2.builder.current_block.0 as int;
            let at4 = s4.builder.current_block.0 as int;
            &&& lowering::good_step(s, (s1, Ok::<VarId, GuardErrorView>(c)))
            &&& lowering::good_step(fork, (s2, Ok::<VarId, GuardErrorView>(t)))
            &&& lowering::good_step(s3.at(s.depth), (s4, Ok::<VarId, GuardErrorView>(f)))
            &&& fork.sound() && s3.at(s.depth).sound() && s6.sound()
            &&& s.leads_to(fork) && s.leads_to(s3.at(s.depth))
            &&& s2.leave_then(t, merge, s1.block_ahead(1)).fits()
            &&& s2.builder.program.slot_map.is_prefix_of(p.slot_map)
            &&& covers(s, s1, p)
            &&& p.blocks[at1] == fork.builder.program.blocks[at1]
            &&& covers(fork, s2, p)
            &&& p.blocks[at2] == s3.builder.program.blocks[at2]
            &&& covers(s3.at(s.depth), s4, p)
            &&& p.blocks[at4] == s5.builder.program.blocks[at4]
            &&& covers(s6, end, p)
            &&& fork.builder.current().stmts.len() == 0
            &&& s3.builder.current().stmts.len() == 0
            &&& s5.builder.current().stmts.len() == 0
            &&& s1.block_ahead(0).0 == s1.builder.next_block
            &&& s1.block_ahead(1).0 == s1.builder.next_block + 1
            &&& merge.0 == s1.builder.next_block + 2
        }),
{
    let s0 = s1.at(s.depth);
    let fork = s0.fork(c);
    let (otherwise, merge) = (s1.block_ahead(1), s1.block_ahead(2));
    let slot = s2.scratch();
    let s3 = s2.leave_then(t, merge, otherwise);
    let s3a = s3.at(s.depth);
    let s5 = s4.hand_over(f, slot, merge, merge);
    let s6 = s5.at(s.depth);
    let end = s6.assign(AtomicOp::LoadSlot(slot));
    lowering::lemma_lower_grows(fork, module, scope, then_branch);
    lowering::lemma_lower_grows(s3a, module, scope, else_branch);
    lowering::lemma_lower(s, module, scope, cond);
    lowering::lemma_at(s1, s.depth);
    lowering::lemma_leads_to_transitive(s, s1, s0);
    lowering::lemma_fork(s0, c);
    lowering::lemma_leads_to_transitive(s, s0, fork);
    lowering::lemma_lower(fork, module, scope, then_branch);
    lowering::lemma_leads_to_transitive(s0, fork, s2);
    lowering::lemma_compute(s2, AtomicOp::Const(ConstValue::Bool(true)));
    lowering::lemma_leave_then(s0, s2, t, merge, otherwise);
    lowering::lemma_at(s3, s.depth);
    lowering::lemma_leads_to_transitive(s0, s3, s3a);
    lowering::lemma_leads_to_transitive(s, s0, s3a);
    lowering::lemma_lower(s3a, module, scope, else_branch);
    lowering::lemma_leads_to_transitive(s0, s3a, s4);
    lowering::lemma_hand_over(s0, s4, f, slot, merge, merge);
    lowering::lemma_at(s5, s.depth);
    lowering::lemma_compute(s6, AtomicOp::LoadSlot(slot));
    let (b1, bf, b2, b3) = (
        s1.builder.program.blocks,
        fork.builder.program.blocks,
        s2.builder.program.blocks,
        s3.builder.program.blocks,
    );
    let (b4, b5, b6) = (
        s4.builder.program.blocks,
        s5.builder.program.blocks,
        end.builder.program.blocks,
    );
    let at2 = s2.builder.current_block.0 as int;
    let at4 = s4.builder.current_block.0 as int;
    let (top, e, mg) = (
        s1.builder.next_block,
        s1.builder.next_block + 1,
        s1.builder.next_block + 2,
    );
    // What was there before the conditional keeps what the fork made of it.
    assert forall|i: int| 0 <= i < b1.len() implies #[trigger] b6[i] == bf[i] by {
        assert(b2[i] == bf[i]);
        assert(b3[i] == b2[i]);
        assert(b4[i] == b3[i]);
    }
    // The code of the first branch is complete when the second one begins.
    assert forall|i: int| (i == top || bf.len() <= i < b2.len()) implies #[trigger] b6[i]
        == b3[i] by {
        assert(b4[i] == b3[i]);
    }
    assert forall|i: int| 0 <= i < b2.len() && i != at2 implies #[trigger] b3[i] == b2[i] by {}
    assert(b2[e] == bf[e] && b3[e] == b2[e]);
    assert(b2[mg] == bf[mg] && b3[mg] == b2[mg] && b4[mg] == b3[mg] && b5[mg] == b4[mg]);
    assert forall|i: int| (i == e || b3.len() <= i < b4.len()) implies #[trigger] b6[i]
        == b5[i] by {}
    assert(covers(s, s1, p)) by {
        let b = s.builder.program.blocks;
        assert forall|i: int|
            i == s.builder.current_block.0 || b.len() <= i < b1.len() implies in_part(
            b1[i],
            #[trigger] p.blocks[i],
            i == s1.builder.current_block.0,
        ) by {
            assert(in_part(b6[i], p.blocks[i], i == end.builder.current_block.0));
            assert(b6[i] == bf[i]);
        }
    }
    assert(covers(fork, s2, p)) by {
        assert forall|i: int| i == top || bf.len() <= i < b2.len() implies in_part(
            b2[i],
            #[trigger] p.blocks[i],
            i == at2,
        ) by {
            assert(in_part(b6[i], p.blocks[i], i == end.builder.current_block.0));
            assert(b6[i] == b3[i]);
        }
    }
    assert(covers(s3a, s4, p)) by {
        assert forall|i: int| i == e || b3.len() <= i < b4.len() implies in_part(
            b4[i],
            #[trigger] p.blocks[i],
            i == at4,
        ) by {
            assert(in_part(b6[i], p.blocks[i], i == end.builder.current_block.0));
            assert(b6[i] == b5[i]);
        }
    }
    let at1 = s1.builder.current_block.0 as int;
    assert(in_part(b6[at1], p.blocks[at1], at1 == end.builder.current_block.0));
    assert(in_part(b6[at2], p.blocks[at2], at2 == end.builder.current_block.0));
    assert(in_part(b6[at4], p.blocks[at4], at4 == end.builder.current_block.0));
    assert(in_part(b6[mg], p.blocks[mg], mg == end.builder.current_block.0));
}

/// The machine leaves a block.
pub proof fn lemma_branch<V>(s: Lowering, p: ProgramView, m: Arithmetic<V>, k: Machine<V>)
    requires
        positioned(k, s),
        p.blocks[s.builder.current_block.0 as int].stmts == s.builder.current().stmts,
    ensures
        run(p, m, k, 1) == leave(
            m,
            p.slot_map,
            k,
            p.blocks[s.builder.current_block.0 as int].terminator,
        ),
{
    reveal_with_fuel(run, 2);
}

/// The machine stores a value and jumps.
proof fn lemma_store_and_jump<V>(
    s: Lowering,
    value: VarId,
    slot: u8,
    target: BlockId,
    next: BlockId,
    p: ProgramView,
    m: Arithmetic<V>,
    k: Machine<V>,
)
    requires
        s.sound(),
        positioned(k, s),
        table::lookup(p.slot_map, value.0) is Some,
        p.blocks[s.builder.current_block.0 as int] == s.hand_over(
            value,
            slot,
            target,
            next,
        ).builder.program.blocks[s.builder.current_block.0 as int],
    ensures
        run(p, m, k, 2) == (Machine {
            block: target.0 as int,
            at: 0,
            slots: k.slots.insert(slot, k.var(p.slot_map, value)),
            ..k
        }),
{
    let stmt = StmtView::Store { src: value, slot, span: lowering::lower_span() };
    lemma_perform(s, stmt, p, m, k);
    lemma_branch(s.emit(stmt), p, m, run(p, m, k, 1));
    lemma_run_adds(p, m, k, 1, 1);
}

/// The machine ends the first branch of a conditional.
proof fn lemma_run_leave_then<V>(
    s: Lowering,
    value: VarId,
    merge: BlockId,
    next: BlockId,
    p: ProgramView,
    m: Arithmetic<V>,
    k: Machine<V>,
)
    requires
        s.sound(),
        s.leave_then(value, merge, next).fits(),
        positioned(k, s),
        s.holds_result(value),
        s.builder.program.slot_map.is_prefix_of(p.slot_map),
        s.leave_then(value, merge, next).builder.program.slot_map.is_prefix_of(p.slot_map),
        table::keys_distinct(p.slot_map),
        p.blocks[s.builder.current_block.0 as int] == s.leave_then(
            value,
            merge,
            next,
        ).builder.program.blocks[s.builder.current_block.0 as int],
    ensures
        ({
            let end = run(p, m, k, 3);
            &&& end.block == merge.0
            &&& end.at == 0
            &&& end.slots[s.scratch()] == k.slots[s.slot(value)]
            &&& keeps(s, k, end)
        }),
{
    let op = AtomicOp::Const(ConstValue::Bool(true));
    let set = s.after_out();
    lowering::lemma_compute(s, op);
    lemma_slot_in_program(s, p, value);
    lemma_slot_in_program(set, p, s.tmp());
    let stmt = StmtView::Assign { dest: s.tmp(), op, span: lowering::lower_span() };
    let at = s.builder.current_block.0 as int;
    let stmts = p.blocks[at].stmts;
    assert(set.builder.current().stmts.is_prefix_of(stmts));
    assert(s.emit(stmt).builder.current().stmts == set.builder.current().stmts);
    lemma_perform(s, stmt, p, m, k);
    let mid = run(p, m, k, 1);
    lemma_store_and_jump(set, value, s.scratch(), merge, next, p, m, mid);
    lemma_run_adds(p, m, k, 1, 2);
}

/// The states on the way through two operands and the operation on them.
proof fn lemma_both_covers(
    s: Lowering,
    module: CirModule,
    scope: Scope,
    op: BinOp,
    left: Expr,
    right: Expr,
    p: ProgramView,
)
    requires
        s.sound(),
        lowering::lower(s, module, scope, left).1 is Ok,
        ({
            let (s1, r1) = lowering::lower(s, module, scope, left);
            let second = lowering::lower(s1, module, scope, right);
            let (t, v) = lowering::on_both(s.depth, op, r1->Ok_0, second);
            t.fits() && v is Ok && covers(s, t, p)
        }),
    ensures
        ({
            let (s1, r1) = lowering::lower(s, module, scope, left);
            let (s2, r2) = lowering::lower(s1, module, scope, right);
            &&& s1.fits() && s2.fits() && r2 is Ok
            &&& lowering::good_step(s, (s1, r1))
            &&& lowering::good_step(s1, (s2, r2))
            &&& covers(s, s1, p)
            &&& covers(s1, s2, p)
        }),
{
    let (s1, r1) = lowering::lower(s, module, scope, left);
    let (s2, r2) = lowering::lower(s1, module, scope, right);
    let atomic = lowering::binary_op(op, r1->Ok_0, r2->Ok_0);
    let s0 = s2.at(s.depth);
    lowering::lemma_lower_grows(s1, module, scope, right);
    lowering::lemma_lower(s, module, scope, left);
    lowering::lemma_lower(s1, module, scope, right);
    lowering::lemma_leads_to_transitive(s, s1, s2);
    lowering::lemma_at(s2, s.depth);
    lowering::lemma_compute(s0, atomic);
    lowering::lemma_leads_to_transitive(s2, s0, s0.assign(atomic));
    lemma_covers_split(s, s2, s0.assign(atomic), p);
    lemma_covers_split(s, s1, s2, p);
}

/// After a readable expression the readings are still there.
proof fn lemma_begins_again<V>(
    s: Lowering,
    module: CirModule,
    scope: Scope,
    e: Expr,
    k: Machine<V>,
    mid: Machine<V>,
    r: Readings<V>,
    x: V,
)
    requires
        begins(s, module, k, r),
        readable(module, scope, e),
        lowering::lower(s, module, scope, e).1 is Ok,
        lowering::good_step(s, lowering::lower(s, module, scope, e)),
        computes(
            s,
            lowering::lower(s, module, scope, e).0,
            k,
            mid,
            lowering::lower(s, module, scope, e).1->Ok_0,
            x,
        ),
    ensures
        begins(lowering::lower(s, module, scope, e).0, module, mid, r),
{
    let s1 = lowering::lower(s, module, scope, e).0;
    lemma_map_unchanged(s, module, scope, e);
    lemma_still_holds(s, s1, module, k, mid, r);
}

/// The state between an operand and the operation on it.
proof fn lemma_one_covers(
    s: Lowering,
    module: CirModule,
    scope: Scope,
    op: UnOp,
    operand: Expr,
    p: ProgramView,
)
    requires
        s.sound(),
        lowering::lower(s, module, scope, operand).1 is Ok,
        ({
            let (s1, r1) = lowering::lower(s, module, scope, operand);
            let t = s1.at(s.depth).assign(lowering::unary_op(op, r1->Ok_0));
            t.fits() && covers(s, t, p)
        }),
    ensures
        lowering::lower(s, module, scope, operand).0.fits(),
        lowering::good_step(s, lowering::lower(s, module, scope, operand)),
        covers(s, lowering::lower(s, module, scope, operand).0, p),
{
    let (s1, r1) = lowering::lower(s, module, scope, operand);
    let atomic = lowering::unary_op(op, r1->Ok_0);
    let s0 = s1.at(s.depth);
    lowering::lemma_lower(s, module, scope, operand);
    lowering::lemma_at(s1, s.depth);
    lowering::lemma_compute(s0, atomic);
    lowering::lemma_leads_to_transitive(s1, s0, s0.assign(atomic));
    lemma_covers_split(s, s1, s0.assign(atomic), p);
}

/// [`lemma_value`] for one operand, given the run through it.
proof fn lemma_value_one<V>(
    s: Lowering,
    module: CirModule,
    scope: Scope,
    op: UnOp,
    operand: Expr,
    p: ProgramView,
    m: Arithmetic<V>,
    r: Readings<V>,
    k: Machine<V>,
    n: nat,
)
    requires
        s.sound(),
        lowering::lower(s, module, scope, operand).1 is Ok,
        ({
            let (s1, r1) = lowering::lower(s, module, scope, operand);
            let t = s1.at(s.depth).assign(lowering::unary_op(op, r1->Ok_0));
            &&& t.fits() && covers(s, t, p)
            &&& lowering::good_step(s, (s1, r1))
            &&& computes(
                s,
                s1,
                k,
                run(p, m, k, n),
                r1->Ok_0,
                value(m, module, r, scope, operand),
            )
        }),
    ensures
        ({
            let (s1, r1) = lowering::lower(s, module, scope, operand);
            let t = s1.at(s.depth).assign(lowering::unary_op(op, r1->Ok_0));
            computes(
                s,
                t,
                k,
                run(p, m, k, n + 1),
                s1.tmp(),
                (m.unary)(op, value(m, module, r, scope, operand)),
            )
        }),
{
    let (s1, r1) = lowering::lower(s, module, scope, operand);
    let a = r1->Ok_0;
    lemma_after_one(
        s,
        s1,
        a,
        lowering::unary_op(op, a),
        p,
        m,
        k,
        n,
        value(m, module, r, scope, operand),
    );
}

/// [`lemma_value`] for a sample from a history.
#[verifier::rlimit(40)]
#[verifier::spinoff_prover]
proof fn lemma_value_sample<V>(
    s: Lowering,
    module: CirModule,
    scope: Scope,
    e: Expr,
    p: ProgramView,
    m: Arithmetic<V>,
    r: Readings<V>,
    k: Machine<V>,
)
    requires
        e is Old || (e matches Expr::Var(v) && scope.age > 0 && lowering::bound_value(
            scope.bound,
            v,
        ) is None),
        begins(s, module, k, r),
        lowering::lower(s, module, scope, e).0.fits(),
        lowering::lower(s, module, scope, e).1 is Ok,
        readable(module, scope, e),
        covers(s, lowering::lower(s, module, scope, e).0, p),
    ensures
        computes(
            s,
            lowering::lower(s, module, scope, e).0,
            k,
            run(p, m, k, 1),
            lowering::lower(s, module, scope, e).1->Ok_0,
            value(m, module, r, scope, e),
        ),
{
    let age = scope.age;
    match e {
        Expr::Var(v) => {
            let slot = s.history(module, v);
            let op = |slot: u8| AtomicOp::Old { buffer: slot, depth: scope.age as usize };
            assert(lowering::lower(s, module, scope, e) == s.look_back(module, v, age, op));
            lemma_look_back(s, module, v, age, op, p, m, r, k);
            assert(k.slots[(slot + age) as u8] == r(v, age));
        },
        Expr::Old(v, ty) => {
            let slot = s.history(module, v);
            let op = |slot: u8|
                AtomicOp::Old { buffer: slot, depth: (scope.age + 1) as usize };
            assert(lowering::lower(s, module, scope, e) == s.look_back(module, v, age + 1, op));
            lemma_look_back(s, module, v, age + 1, op, p, m, r, k);
            assert(k.slots[(slot + (age + 1)) as u8] == r(v, age + 1));
        },
        _ => {},
    }
}

/// [`lemma_value`] for a change in a history.
#[verifier::rlimit(40)]
#[verifier::spinoff_prover]
proof fn lemma_value_change<V>(
    s: Lowering,
    module: CirModule,
    scope: Scope,
    e: Expr,
    p: ProgramView,
    m: Arithmetic<V>,
    r: Readings<V>,
    k: Machine<V>,
)
    requires
        e is RateOf || e is Delta,
        begins(s, module, k, r),
        lowering::lower(s, module, scope, e).0.fits(),
        lowering::lower(s, module, scope, e).1 is Ok,
        readable(module, scope, e),
        covers(s, lowering::lower(s, module, scope, e).0, p),
    ensures
        computes(
            s,
            lowering::lower(s, module, scope, e).0,
            k,
            run(p, m, k, 1),
            lowering::lower(s, module, scope, e).1->Ok_0,
            value(m, module, r, scope, e),
        ),
{
    let age = scope.age;
    match e {
        Expr::RateOf(v, ty) => {
            let slot = s.history(module, v);
            let op = |slot: u8|
                AtomicOp::RateOf {
                    buffer: (slot + scope.age) as u8,
                    dt: binary64::real_thousandth(module.sample_period_ms),
                };
            assert(lowering::lower(s, module, scope, e) == s.look_back(module, v, age + 1, op));
            lemma_look_back(s, module, v, age + 1, op, p, m, r, k);
            assert(k.slots[(slot + age) as u8] == r(v, age));
            assert(k.slots[(slot + (age + 1)) as u8] == r(v, age + 1));
        },
        Expr::Delta(v, ty) => {
            let slot = s.history(module, v);
            let op = |slot: u8| AtomicOp::Delta { buffer: (slot + scope.age) as u8 };
            assert(lowering::lower(s, module, scope, e) == s.look_back(module, v, age + 1, op));
            lemma_look_back(s, module, v, age + 1, op, p, m, r, k);
            assert(k.slots[(slot + age) as u8] == r(v, age));
            assert(k.slots[(slot + (age + 1)) as u8] == r(v, age + 1));
        },
        _ => {},
    }
}

/// Lowered code computes the value of its expression.
#[verifier::rlimit(60)]
#[verifier::spinoff_prover]
pub proof fn lemma_value<V>(
    s: Lowering,
    module: CirModule,
    scope: Scope,
    e: Expr,
    p: ProgramView,
    m: Arithmetic<V>,
    r: Readings<V>,
    k: Machine<V>,
) -> (n: nat)
    requires
        begins(s, module, k, r),
        lowering::lower(s, module, scope, e).0.fits(),
        lowering::lower(s, module, scope, e).1 is Ok,
        readable(module, scope, e),
        covers(s, lowering::lower(s, module, scope, e).0, p),
    ensures
        computes(
            s,
            lowering::lower(s, module, scope, e).0,
            k,
            run(p, m, k, n),
            lowering::lower(s, module, scope, e).1->Ok_0,
            value(m, module, r, scope, e),
        ),
    decreases e, 1nat,
{
    match e {
        Expr::Const(c) => {
            lemma_assign(s, AtomicOp::Const(c), p, m, k);
            1
        },
        Expr::Var(v) => match lowering::bound_value(scope.bound, v) {
            Some(x) => {
                lemma_assign(s, AtomicOp::Const(ConstValue::Integer(x)), p, m, k);
                1
            },
            None => if scope.age == 0 {
                assert(table::lookup(module.symbol_table.vars@, v.0) is Some);
                assert(table::lookup(s.var_map, v.0) is Some);
                lowering::lemma_map(s, module, v);
                0
            } else {
                lemma_value_sample(s, module, scope, e, p, m, r, k);
                1
            },
        },
        Expr::Unary { op, operand, ty } => {
            lemma_one_covers(s, module, scope, op, *operand, p);
            let n = lemma_value(s, module, scope, *operand, p, m, r, k);
            lemma_value_one(s, module, scope, op, *operand, p, m, r, k, n);
            n + 1
        },
        Expr::Next(inner, ty) => lemma_value(s, module, scope, *inner, p, m, r, k),
        Expr::After { duration, body, ty } => lemma_value(s, module, scope, *body, p, m, r, k),
        Expr::Binary { op, left, right, ty } => {
            let s1 = lowering::lower(s, module, scope, *left).0;
            lemma_both_covers(s, module, scope, op, *left, *right, p);
            let n1 = lemma_value(s, module, scope, *left, p, m, r, k);
            let mid = run(p, m, k, n1);
            let x = value(m, module, r, scope, *left);
            lemma_begins_again(s, module, scope, *left, k, mid, r, x);
            let n2 = lemma_value(s1, module, scope, *right, p, m, r, mid);
            lemma_value_both(s, module, scope, op, *left, *right, p, m, r, k, n1, n2);
            n1 + n2 + 1
        },
        Expr::Until { left, right, ty } => {
            let s1 = lowering::lower(s, module, scope, *left).0;
            lemma_both_covers(s, module, scope, BinOp::Or, *left, *right, p);
            let n1 = lemma_value(s, module, scope, *left, p, m, r, k);
            let mid = run(p, m, k, n1);
            let x = value(m, module, r, scope, *left);
            lemma_begins_again(s, module, scope, *left, k, mid, r, x);
            let n2 = lemma_value(s1, module, scope, *right, p, m, r, mid);
            lemma_value_both(s, module, scope, BinOp::Or, *left, *right, p, m, r, k, n1, n2);
            n1 + n2 + 1
        },
        Expr::Since { left, right, ty } => {
            let s1 = lowering::lower(s, module, scope, *left).0;
            lemma_both_covers(s, module, scope, BinOp::And, *left, *right, p);
            let n1 = lemma_value(s, module, scope, *left, p, m, r, k);
            let mid = run(p, m, k, n1);
            let x = value(m, module, r, scope, *left);
            lemma_begins_again(s, module, scope, *left, k, mid, r, x);
            let n2 = lemma_value(s1, module, scope, *right, p, m, r, mid);
            lemma_value_both(s, module, scope, BinOp::And, *left, *right, p, m, r, k, n1, n2);
            n1 + n2 + 1
        },
        Expr::Old(v, ty) => {
            lemma_value_sample(s, module, scope, e, p, m, r, k);
            1
        },
        Expr::RateOf(v, ty) => {
            lemma_value_change(s, module, scope, e, p, m, r, k);
            1
        },
        Expr::Delta(v, ty) => {
            lemma_value_change(s, module, scope, e, p, m, r, k);
            1
        },
        Expr::If { .. } => lemma_value_if(s, module, scope, e, p, m, r, k),
        Expr::Forall { var, domain, body, ty } => lemma_value_combined(
            s,
            module,
            scope,
            Over::Members(var, domain),
            *body,
            true,
            domain.size(),
            p,
            m,
            r,
            k,
        ),
        Expr::Exists { var, domain, body, ty } => lemma_value_combined(
            s,
            module,
            scope,
            Over::Members(var, domain),
            *body,
            false,
            domain.size(),
            p,
            m,
            r,
            k,
        ),
        Expr::Always(inner, ty) => lemma_value_combined(
            s,
            module,
            scope,
            Over::Samples,
            *inner,
            true,
            lowering::samples(module, scope, *inner),
            p,
            m,
            r,
            k,
        ),
        Expr::Eventually(inner, ty) => lemma_value_combined(
            s,
            module,
            scope,
            Over::Samples,
            *inner,
            false,
            lowering::samples(module, scope, *inner),
            p,
            m,
            r,
            k,
        ),
        Expr::For { duration, body, ty } => lemma_value_combined(
            s,
            module,
            scope,
            Over::Samples,
            *body,
            true,
            duration as nat,
            p,
            m,
            r,
            k,
        ),
        Expr::Index { .. } => 0,
        Expr::Field { .. } => 0,
    }
}

/// [`lemma_value`] for two operands, given the runs through each.
proof fn lemma_value_both<V>(
    s: Lowering,
    module: CirModule,
    scope: Scope,
    op: BinOp,
    left: Expr,
    right: Expr,
    p: ProgramView,
    m: Arithmetic<V>,
    r: Readings<V>,
    k: Machine<V>,
    n1: nat,
    n2: nat,
)
    requires
        s.sound(),
        lowering::lower(s, module, scope, left).1 is Ok,
        ({
            let (s1, r1) = lowering::lower(s, module, scope, left);
            let (s2, r2) = lowering::lower(s1, module, scope, right);
            let (t, v) = lowering::on_both(s.depth, op, r1->Ok_0, (s2, r2));
            &&& t.fits() && v is Ok && covers(s, t, p) && r2 is Ok
            &&& lowering::good_step(s, (s1, r1))
            &&& lowering::good_step(s1, (s2, r2))
            &&& computes(
                s,
                s1,
                k,
                run(p, m, k, n1),
                r1->Ok_0,
                value(m, module, r, scope, left),
            )
            &&& computes(
                s1,
                s2,
                run(p, m, k, n1),
                run(p, m, run(p, m, k, n1), n2),
                r2->Ok_0,
                value(m, module, r, scope, right),
            )
        }),
    ensures
        ({
            let (s1, r1) = lowering::lower(s, module, scope, left);
            let (t, v) = lowering::on_both(
                s.depth,
                op,
                r1->Ok_0,
                lowering::lower(s1, module, scope, right),
            );
            computes(
                s,
                t,
                k,
                run(p, m, k, n1 + n2 + 1),
                v->Ok_0,
                (m.binary)(
                    op,
                    value(m, module, r, scope, left),
                    value(m, module, r, scope, right),
                ),
            )
        }),
{
    let (s1, r1) = lowering::lower(s, module, scope, left);
    let (s2, r2) = lowering::lower(s1, module, scope, right);
    let (a, b) = (r1->Ok_0, r2->Ok_0);
    lemma_after_two(
        s,
        s1,
        s2,
        a,
        b,
        lowering::binary_op(op, a, b),
        p,
        m,
        k,
        n1,
        n2,
        value(m, module, r, scope, left),
        value(m, module, r, scope, right),
    );
}

/// [`lemma_value`] for a conditional.
#[verifier::rlimit(100)]
#[verifier::spinoff_prover]
proof fn lemma_value_if<V>(
    s: Lowering,
    module: CirModule,
    scope: Scope,
    e: Expr,
    p: ProgramView,
    m: Arithmetic<V>,
    r: Readings<V>,
    k: Machine<V>,
) -> (n: nat)
    requires
        e is If,
        begins(s, module, k, r),
        lowering::lower(s, module, scope, e).0.fits(),
        lowering::lower(s, module, scope, e).1 is Ok,
        readable(module, scope, e),
        covers(s, lowering::lower(s, module, scope, e).0, p),
    ensures
        computes(
            s,
            lowering::lower(s, module, scope, e).0,
            k,
            run(p, m, k, n),
            lowering::lower(s, module, scope, e).1->Ok_0,
            value(m, module, r, scope, e),
        ),
    decreases e, 0nat,
{
    if let Expr::If { cond, then_branch, else_branch, ty } = e {
        let (s1, r1) = lowering::lower(s, module, scope, *cond);
        let c = r1->Ok_0;
        let s0 = s1.at(s.depth);
        let fork = s0.fork(c);
        let (s2, r2) = lowering::lower(fork, module, scope, *then_branch);
        let t = r2->Ok_0;
        let (otherwise, merge) = (s1.block_ahead(1), s1.block_ahead(2));
        let slot = s2.scratch();
        let s3 = s2.leave_then(t, merge, otherwise).at(s.depth);
        let (s4, r4) = lowering::lower(s3, module, scope, *else_branch);
        let f = r4->Ok_0;
        let s5 = s4.hand_over(f, slot, merge, merge);
        let s6 = s5.at(s.depth);
        let result = s6.compute(AtomicOp::LoadSlot(slot));
        assert(lowering::lower(s, module, scope, e) == result);
        lemma_if_blocks(
            s,
            module,
            scope,
            *cond,
            *then_branch,
            *else_branch,
            p,
            s1,
            c,
            s2,
            t,
            s4,
            f,
        );
        lowering::lemma_compute(s2, AtomicOp::Const(ConstValue::Bool(true)));
        lowering::lemma_lower_grows(s3, module, scope, *else_branch);
        let n1 = lemma_value(s, module, scope, *cond, p, m, r, k);
        let k1 = run(p, m, k, n1);
        lemma_map_unchanged(s, module, scope, *cond);
        lemma_slot_in_program(s1, p, c);
        lemma_branch(s1, p, m, k1);
        lemma_run_adds(p, m, k, n1, 1);
        let k2 = run(p, m, k, n1 + 1);
        assert(keeps(s, k, k2));
        lemma_map_unchanged(fork, module, scope, *then_branch);
        let n5: nat = if (m.truth)(value(m, module, r, scope, *cond)) {
            lemma_still_holds(s, fork, module, k, k2, r);
            let n2 = lemma_value(fork, module, scope, *then_branch, p, m, r, k2);
            let k3 = run(p, m, k2, n2);
            lemma_run_leave_then(s2, t, merge, otherwise, p, m, k3);
            lemma_run_adds(p, m, k2, n2, 3);
            lemma_run_adds(p, m, k, n1 + 1, n2 + 3);
            let k5 = run(p, m, k, n1 + 1 + (n2 + 3));
            assert forall|i: u8| s.wants(i) implies #[trigger] k5.slots[i]
                == k.slots[i] by {
                assert(k3.slots[i] == k2.slots[i]);
                assert(k2.slots[i] == k.slots[i]);
            }
            n1 + 1 + (n2 + 3)
        } else {
            lemma_still_holds(s, s3, module, k, k2, r);
            let n2 = lemma_value(s3, module, scope, *else_branch, p, m, r, k2);
            let k3 = run(p, m, k2, n2);
            lemma_slot_in_program(s4, p, f);
            lemma_store_and_jump(s4, f, slot, merge, merge, p, m, k3);
            lemma_run_adds(p, m, k2, n2, 2);
            lemma_run_adds(p, m, k, n1 + 1, n2 + 2);
            let k5 = run(p, m, k, n1 + 1 + (n2 + 2));
            assert forall|i: u8| s.wants(i) implies #[trigger] k5.slots[i]
                == k.slots[i] by {
                assert(k3.slots[i] == k2.slots[i]);
                assert(k2.slots[i] == k.slots[i]);
            }
            n1 + 1 + (n2 + 2)
        };
        let k5 = run(p, m, k, n5);
        assert(positioned(k5, s6));
        assert(k5.slots[slot] == value(m, module, r, scope, e));
        assert(keeps(s, k, k5));
        lemma_assign(s6, AtomicOp::LoadSlot(slot), p, m, k5);
        lemma_run_adds(p, m, k, n5, 1);
        let end = run(p, m, k, n5 + 1);
        assert forall|i: u8| s.wants(i) implies #[trigger] end.slots[i]
            == k.slots[i] by {
            assert(k5.slots[i] == k.slots[i]);
        }
        n5 + 1
    } else {
        0
    }
}

/// [`lemma_value`] for joined instances.
proof fn lemma_value_combined<V>(
    s: Lowering,
    module: CirModule,
    scope: Scope,
    over: Over,
    body: Expr,
    all: bool,
    count: nat,
    p: ProgramView,
    m: Arithmetic<V>,
    r: Readings<V>,
    k: Machine<V>,
) -> (n: nat)
    requires
        begins(s, module, k, r),
        all_readable(module, scope, over, body, count),
        ({
            let (t, v) = lowering::conclude(
                lowering::copies(s, module, scope, over, body, all, count),
                all,
            );
            t.fits() && v is Ok && covers(s, t, p)
        }),
    ensures
        ({
            let (t, v) = lowering::conclude(
                lowering::copies(s, module, scope, over, body, all, count),
                all,
            );
            computes(
                s,
                t,
                k,
                run(p, m, k, n),
                v->Ok_0,
                combined(m, module, r, scope, over, body, all, count),
            )
        }),
    decreases body, count + 3,
{
    if count == 0 {
        lemma_assign(s, AtomicOp::Const(ConstValue::Bool(all)), p, m, k);
        1
    } else {
        lemma_copies_some(s, module, scope, over, body, all, count);
        lemma_value_copies(s, module, scope, over, body, all, count, p, m, r, k)
    }
}

/// Instances of a body, if there are any, have a variable.
proof fn lemma_copies_some(
    s: Lowering,
    module: CirModule,
    scope: Scope,
    over: Over,
    body: Expr,
    all: bool,
    n: nat,
)
    ensures
        lowering::copies(s, module, scope, over, body, all, n).1 matches Ok(v) ==> (v is Some
            <==> n > 0),
    decreases n,
{
    if n > 0 {
        lemma_copies_some(s, module, scope, over, body, all, (n - 1) as nat);
    }
}

/// One more instance, joined with those before it.
proof fn lemma_copies_step<V>(
    s: Lowering,
    module: CirModule,
    scope: Scope,
    over: Over,
    body: Expr,
    all: bool,
    count: nat,
    m: Arithmetic<V>,
    r: Readings<V>,
)
    requires
        count > 1,
        lowering::copies(s, module, scope, over, body, all, count).1 is Ok,
    ensures
        ({
            let one_less = (count - 1) as nat;
            let inner = scope.instance(over, one_less);
            let (s1, r1) = lowering::copies(s, module, scope, over, body, all, one_less);
            let (s2, r2) = lowering::lower(
                s1.demand(inner.age <= u32::MAX),
                module,
                inner,
                body,
            );
            let op = lowering::join_op(all, r1->Ok_0->0, r2->Ok_0);
            &&& r1 is Ok && r1->Ok_0 is Some && r2 is Ok
            &&& lowering::copies(s, module, scope, over, body, all, count) == (
                s2.at(s.depth).assign(op),
                Ok::<Option<VarId>, GuardErrorView>(Some(s2.tmp())),
            )
            &&& combined(m, module, r, scope, over, body, all, count) == (m.binary)(
                join(all),
                combined(m, module, r, scope, over, body, all, one_less),
                value(m, module, r, inner, body),
            )
        }),
{
    lemma_copies_some(s, module, scope, over, body, all, (count - 1) as nat);
}

/// The instances of a body compute its values, joined.
#[verifier::rlimit(60)]
#[verifier::spinoff_prover]
proof fn lemma_value_copies<V>(
    s: Lowering,
    module: CirModule,
    scope: Scope,
    over: Over,
    body: Expr,
    all: bool,
    count: nat,
    p: ProgramView,
    m: Arithmetic<V>,
    r: Readings<V>,
    k: Machine<V>,
) -> (n: nat)
    requires
        count > 0,
        begins(s, module, k, r),
        all_readable(module, scope, over, body, count),
        ({
            let (t, v) = lowering::copies(s, module, scope, over, body, all, count);
            t.fits() && v is Ok && covers(s, t, p)
        }),
    ensures
        ({
            let (t, v) = lowering::copies(s, module, scope, over, body, all, count);
            computes(
                s,
                t,
                k,
                run(p, m, k, n),
                v->Ok_0->0,
                combined(m, module, r, scope, over, body, all, count),
            )
        }),
    decreases body, count + 2,
{
    let one_less = (count - 1) as nat;
    let inner = scope.instance(over, one_less);
    let (s1, r1) = lowering::copies(s, module, scope, over, body, all, one_less);
    let s0 = s1.demand(inner.age <= u32::MAX);
    let (s2, r2) = lowering::lower(s0, module, inner, body);
    lemma_copies_some(s, module, scope, over, body, all, one_less);
    lowering::lemma_copies_grow(s, module, scope, over, body, all, one_less, count);
    lowering::lemma_lower_grows(s0, module, inner, body);
    assert(s0 == s1);
    if one_less == 0 {
        lemma_value(s, module, inner, body, p, m, r, k)
    } else {
        let (a, b) = (r1->Ok_0->0, r2->Ok_0);
        let op = lowering::join_op(all, a, b);
        let later = s2.at(s.depth);
        lemma_copies_step(s, module, scope, over, body, all, count, m, r);
        lowering::lemma_copies(s, module, scope, over, body, all, one_less);
        lowering::lemma_lower(s1, module, inner, body);
        lowering::lemma_leads_to_transitive(s, s1, s2);
        lowering::lemma_at(s2, s.depth);
        lowering::lemma_compute(later, op);
        lowering::lemma_leads_to_transitive(s2, later, later.assign(op));
        lemma_covers_split(s, s2, later.assign(op), p);
        lemma_covers_split(s, s1, s2, p);
        let n1 = lemma_value_copies(
            s,
            module,
            scope,
            over,
            body,
            all,
            one_less,
            p,
            m,
            r,
            k,
        );
        let mid = run(p, m, k, n1);
        lemma_map_unchanged_copies(s, module, scope, over, body, all, one_less);
        lemma_still_holds(s, s1, module, k, mid, r);
        let n2 = lemma_value(s1, module, inner, body, p, m, r, mid);
        let x = combined(m, module, r, scope, over, body, all, one_less);
        let y = value(m, module, r, inner, body);
        lemma_after_two(s, s1, s2, a, b, op, p, m, k, n1, n2, x, y);
        n1 + n2 + 1
    }
}

/// Lowered code computes the value of its expression, whatever the arithmetic
/// is: a machine that holds the readings and enters the code arrives at its end,
/// and there the variable of the expression holds the value.
pub proof fn law_lowered_code_computes_the_value<V>(
    s: Lowering,
    module: CirModule,
    scope: Scope,
    e: Expr,
    p: ProgramView,
    m: Arithmetic<V>,
    r: Readings<V>,
    k: Machine<V>,
)
    requires
        begins(s, module, k, r),
        lowering::lower(s, module, scope, e).0.fits(),
        lowering::lower(s, module, scope, e).1 is Ok,
        readable(module, scope, e),
        covers(s, lowering::lower(s, module, scope, e).0, p),
    ensures
        exists|n: nat|
            computes(
                s,
                lowering::lower(s, module, scope, e).0,
                k,
                #[trigger] run(p, m, k, n),
                lowering::lower(s, module, scope, e).1->Ok_0,
                value(m, module, r, scope, e),
            ),
{
    let n = lemma_value(s, module, scope, e, p, m, r, k);
    assert(computes(
        s,
        lowering::lower(s, module, scope, e).0,
        k,
        run(p, m, k, n),
        lowering::lower(s, module, scope, e).1->Ok_0,
        value(m, module, r, scope, e),
    ));
}

/// The value of an operation is what the operation makes of the values of its
/// operands, in their order. A conditional has the value of the branch that its
/// condition selects.
pub proof fn law_values_of_operations<V>(
    m: Arithmetic<V>,
    module: CirModule,
    r: Readings<V>,
    scope: Scope,
    a: Expr,
    b: Expr,
    c: Expr,
    op: UnOp,
    on_two: BinOp,
    ty: CirType,
)
    ensures
        ({
            let of = |e: Expr| value(m, module, r, scope, e);
            &&& of(Expr::Unary { op, operand: Box::new(a), ty }) == (m.unary)(op, of(a))
            &&& of(Expr::Binary { op: on_two, left: Box::new(a), right: Box::new(b), ty }) == (
            m.binary)(on_two, of(a), of(b))
            &&& (m.truth)(of(a)) ==> of(
                Expr::If {
                    cond: Box::new(a),
                    then_branch: Box::new(b),
                    else_branch: Box::new(c),
                    ty,
                },
            ) == of(b)
            &&& !(m.truth)(of(a)) ==> of(
                Expr::If {
                    cond: Box::new(a),
                    then_branch: Box::new(b),
                    else_branch: Box::new(c),
                    ty,
                },
            ) == of(c)
        }),
{
}

/// What `next`, `after`, `until` and `since` are checked for at a sampling instant.
pub proof fn law_values_in_a_single_step<V>(
    m: Arithmetic<V>,
    module: CirModule,
    r: Readings<V>,
    scope: Scope,
    a: Expr,
    b: Expr,
    duration: usize,
    ty: CirType,
)
    ensures
        ({
            let of = |e: Expr| value(m, module, r, scope, e);
            &&& of(Expr::Next(Box::new(a), ty)) == of(a)
            &&& of(Expr::After { duration, body: Box::new(a), ty }) == of(a)
            &&& of(Expr::Until { left: Box::new(a), right: Box::new(b), ty }) == (m.binary)(
                BinOp::Or,
                of(a),
                of(b),
            )
            &&& of(Expr::Since { left: Box::new(a), right: Box::new(b), ty }) == (m.binary)(
                BinOp::And,
                of(a),
                of(b),
            )
        }),
{
}

/// A constant has its own value. A variable has that of the innermost quantifier that
/// binds it, and where none does, that of its sample; `old` has that of the sample
/// before, `delta` the change between the two, and `rate_of` the change over the
/// sampling period in seconds.
pub proof fn law_values_of_readings<V>(
    m: Arithmetic<V>,
    module: CirModule,
    r: Readings<V>,
    scope: Scope,
    c: ConstValue,
    v: VarId,
    w: VarId,
    x: i64,
    ty: CirType,
)
    ensures
        ({
            let of = |e: Expr| value(m, module, r, scope, e);
            let inner = Scope { bound: scope.bound.push((w, x)), age: scope.age };
            let free = forall|i: int|
                0 <= i < scope.bound.len() ==> (#[trigger] scope.bound[i]).0 != v;
            &&& of(Expr::Const(c)) == (m.constant)(c)
            &&& free ==> of(Expr::Var(v)) == r(v, scope.age)
            &&& value(m, module, r, inner, Expr::Var(w)) == (m.constant)(ConstValue::Integer(x))
            &&& v != w ==> value(m, module, r, inner, Expr::Var(v)) == of(Expr::Var(v))
            &&& of(Expr::Old(v, ty)) == r(v, scope.age + 1)
            &&& of(Expr::Delta(v, ty)) == (m.binary)(
                BinOp::Sub,
                r(v, scope.age),
                r(v, scope.age + 1),
            )
            &&& of(Expr::RateOf(v, ty)) == (m.binary)(
                BinOp::Div,
                (m.binary)(BinOp::Sub, r(v, scope.age), r(v, scope.age + 1)),
                (m.real)(binary64::real_thousandth(module.sample_period_ms)),
            )
        }),
{
    let inner = scope.bound.push((w, x));
    assert(inner.last() == (w, x));
    assert(inner.drop_last() =~= scope.bound);
    if forall|i: int| 0 <= i < scope.bound.len() ==> (#[trigger] scope.bound[i]).0 != v {
        lemma_free(scope.bound, v);
    }
}

/// A variable that nothing binds has no bound value.
proof fn lemma_free(bound: Seq<(VarId, i64)>, v: VarId)
    requires
        forall|i: int| 0 <= i < bound.len() ==> (#[trigger] bound[i]).0 != v,
    ensures
        lowering::bound_value(bound, v) is None,
    decreases bound.len(),
{
    if bound.len() > 0 {
        assert(bound.last() == bound[bound.len() - 1]);
        lemma_free(bound.drop_last(), v);
    }
}

/// A sample that lies back is refused exactly where no buffer retains it. What is
/// read at the sampling instant itself is never refused.
pub proof fn law_refused_samples(s: Lowering, module: CirModule, scope: Scope, v: VarId, ty: CirType)
    ensures
        ({
            let refused = |e: Expr| lowering::lower(s, module, scope, e).1 is Err;
            let depth = lowering::retained(module.symbol_table.buffers@, v, 0);
            let free = forall|i: int|
                0 <= i < scope.bound.len() ==> (#[trigger] scope.bound[i]).0 != v;
            &&& free ==> (refused(Expr::Var(v)) <==> scope.age > 0 && scope.age > depth)
            &&& refused(Expr::Old(v, ty)) <==> scope.age > 0 && scope.age + 1 > depth
            &&& refused(Expr::Delta(v, ty)) <==> scope.age > 0 && scope.age + 1 > depth
            &&& refused(Expr::RateOf(v, ty)) <==> scope.age > 0 && scope.age + 1 > depth
        }),
{
    if forall|i: int| 0 <= i < scope.bound.len() ==> (#[trigger] scope.bound[i]).0 != v {
        lemma_free(scope.bound, v);
    }
}

/// An operation of a program does to the values in its operands' slots what the operation
/// of the same name does.
pub proof fn law_operations_do_what_they_are_named_for<V>(
    m: Arithmetic<V>,
    map: Seq<(u32, u8)>,
    k: Machine<V>,
    a: VarId,
    b: VarId,
)
    ensures
        ({
            let (x, y) = (k.slots[codegen::slot_of(map, a)], k.slots[codegen::slot_of(map, b)]);
            let of = |op: AtomicOp| op_value(m, map, k, op);
            &&& of(AtomicOp::Neg(a)) == (m.unary)(UnOp::Neg, x)
            &&& of(AtomicOp::Abs(a)) == (m.unary)(UnOp::Abs, x)
            &&& of(AtomicOp::Not(a)) == (m.unary)(UnOp::Not, x)
            &&& of(AtomicOp::Add(a, b)) == (m.binary)(BinOp::Add, x, y)
            &&& of(AtomicOp::Sub(a, b)) == (m.binary)(BinOp::Sub, x, y)
            &&& of(AtomicOp::Mul(a, b)) == (m.binary)(BinOp::Mul, x, y)
            &&& of(AtomicOp::Div(a, b)) == (m.binary)(BinOp::Div, x, y)
            &&& of(AtomicOp::Mod(a, b)) == (m.binary)(BinOp::Mod, x, y)
            &&& of(AtomicOp::Eq(a, b)) == (m.binary)(BinOp::Eq, x, y)
            &&& of(AtomicOp::Neq(a, b)) == (m.binary)(BinOp::Neq, x, y)
            &&& of(AtomicOp::Lt(a, b)) == (m.binary)(BinOp::Lt, x, y)
            &&& of(AtomicOp::Gt(a, b)) == (m.binary)(BinOp::Gt, x, y)
            &&& of(AtomicOp::Lte(a, b)) == (m.binary)(BinOp::Lte, x, y)
            &&& of(AtomicOp::Gte(a, b)) == (m.binary)(BinOp::Gte, x, y)
            &&& of(AtomicOp::And(a, b)) == (m.binary)(BinOp::And, x, y)
            &&& of(AtomicOp::Or(a, b)) == (m.binary)(BinOp::Or, x, y)
            &&& of(AtomicOp::Implies(a, b)) == (m.binary)(BinOp::Implies, x, y)
        }),
{
}

} // verus!
