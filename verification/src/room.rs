//! That there is room for what is lowered.

use crate::binary64;
use crate::cir::BinOp;
use crate::cir::CirInvariant;
use crate::cir::CirModule;
use crate::cir::ConstValue;
use crate::cir::Expr;
use crate::cir::VarId;
use crate::cir::VarKind;
use crate::cycle::checkable;
use crate::layout::is_free;
use crate::layout::law_lowest_free_slot_is_given;
use crate::lcir::AtomicOp;
use crate::lcir::BlockId;
use crate::lowering;
use crate::lowering::Lowering;
use crate::lowering::Over;
use crate::lowering::Scope;
use crate::lowering::conclude;
use crate::lowering::copies;
use crate::lowering::guard;
use crate::lowering::lower;
use crate::lowering::lower_all;
use crate::lowering::lower_check;
use crate::lowering::lower_checks;
use crate::lowering::map_all;
use crate::lowering::mapped_all;
use crate::lowering::place_buffers;
use crate::lowering::place_constants;
use crate::lowering::prepared;
use crate::lowering::retained;
use crate::lowering::samples;
use crate::meaning::all_readable;
use crate::meaning::buffered;
use crate::meaning::declared;
use crate::meaning::in_buffer;
use crate::meaning::readable;
use crate::table;
use vstd::prelude::*;

verus! {

/// The larger of two numbers.
pub open spec fn larger(a: nat, b: nat) -> nat {
    if a < b {
        b
    } else {
        a
    }
}

/// How many temporaries an expression may want at once: while the right one of two
/// operands is computed, the value of the left one is wanted, and while an instance of
/// a body is, that of those before it.
pub open spec fn levels(e: Expr) -> nat
    decreases e,
{
    match e {
        Expr::Unary { op, operand, ty } => levels(*operand),
        Expr::Binary { op, left, right, ty } => larger(levels(*left), levels(*right) + 1),
        Expr::Until { left, right, ty } => larger(levels(*left), levels(*right) + 1),
        Expr::Since { left, right, ty } => larger(levels(*left), levels(*right) + 1),
        Expr::If { cond, then_branch, else_branch, ty } => larger(
            levels(*cond),
            larger(levels(*then_branch) + 1, levels(*else_branch)),
        ),
        Expr::Forall { var, domain, body, ty } => levels(*body) + 1,
        Expr::Exists { var, domain, body, ty } => levels(*body) + 1,
        Expr::Always(inner, ty) => levels(*inner) + 1,
        Expr::Eventually(inner, ty) => levels(*inner) + 1,
        Expr::For { duration, body, ty } => levels(*body) + 1,
        Expr::Next(inner, ty) => levels(*inner),
        Expr::After { duration, body, ty } => levels(*body),
        _ => 1,
    }
}

/// How far back the durations in an expression reach together.
pub open spec fn reach(e: Expr) -> nat
    decreases e,
{
    match e {
        Expr::Unary { op, operand, ty } => reach(*operand),
        Expr::Binary { op, left, right, ty } => larger(reach(*left), reach(*right)),
        Expr::Until { left, right, ty } => larger(reach(*left), reach(*right)),
        Expr::Since { left, right, ty } => larger(reach(*left), reach(*right)),
        Expr::If { cond, then_branch, else_branch, ty } => larger(
            reach(*cond),
            larger(reach(*then_branch), reach(*else_branch)),
        ),
        Expr::Forall { var, domain, body, ty } => reach(*body),
        Expr::Exists { var, domain, body, ty } => reach(*body),
        Expr::Always(inner, ty) => reach(*inner),
        Expr::Eventually(inner, ty) => reach(*inner),
        Expr::For { duration, body, ty } => duration as nat + reach(*body),
        Expr::Next(inner, ty) => reach(*inner),
        Expr::After { duration, body, ty } => reach(*body),
        _ => 0,
    }
}

/// Every variable of the symbol table has its LCIR variable, that one its slot, and
/// every buffer that retains samples lies in the slots for histories.
pub open spec fn settled(s: Lowering, module: CirModule) -> bool {
    &&& declared(s, module)
    &&& buffered(s, module)
    &&& forall|v: u32|
        #[trigger] table::lookup(s.var_map, v) matches Some(id) ==> table::lookup(
            s.builder.program.slot_map,
            id.0,
        ) is Some
}

/// The second state has the room that the first has, and what it has settled.
pub open spec fn as_roomy(s: Lowering, t: Lowering, module: CirModule) -> bool {
    &&& t.room == s.room
    &&& t.floor == s.floor
    &&& settled(t, module)
}

/// What lowering does to room: none is lost, and a result takes one slot at most.
pub open spec fn roomy_step(s: Lowering, step: lowering::Step, module: CirModule) -> bool {
    &&& as_roomy(s, step.0, module)
    &&& step.1 is Ok ==> s.depth <= step.0.depth <= s.depth + 1
}

/// States with the same tables are as settled.
proof fn lemma_settled(s: Lowering, t: Lowering, module: CirModule)
    requires
        settled(s, module),
        t.var_map == s.var_map,
        t.buffer_slots == s.buffer_slots,
        forall|v: u32| #[trigger]
            table::lookup(s.builder.program.slot_map, v) is Some ==> table::lookup(
                t.builder.program.slot_map,
                v,
            ) is Some,
    ensures
        settled(t, module),
{
    let buffers = module.symbol_table.buffers@;
    assert forall|v: VarId| retained(buffers, v, 0) > 0 implies #[trigger] in_buffer(
        t,
        module,
        v,
    ) by {
        assert(in_buffer(s, module, v));
    }
    assert forall|v: u32| (#[trigger] table::lookup(t.var_map, v) matches Some(id) ==> table::lookup(
        t.builder.program.slot_map,
        id.0,
    ) is Some) by {
        assert(table::lookup(s.var_map, v) == table::lookup(t.var_map, v));
    }
}

/// A temporary.
proof fn lemma_assign_room(s: Lowering, module: CirModule, op: AtomicOp)
    requires
        settled(s, module),
        s.floor + s.depth + 1 <= 256,
    ensures
        as_roomy(s, s.assign(op), module),
        s.assign(op).depth == s.depth + 1,
        roomy_step(s, s.compute(op), module),
{
    let t = s.assign(op);
    let (a, b) = (s.builder.program.slot_map, t.builder.program.slot_map);
    assert forall|v: u32| #[trigger] table::lookup(a, v) is Some implies table::lookup(
        b,
        v,
    ) is Some by {
        table::lemma_place_of(a, v);
        table::lemma_place_of(b, v);
        let i = table::place_of(a, v);
        if table::lookup(a, s.tmp().0) is None {
            assert(b[i] == a[i]);
        }
    }
    lemma_settled(s, t, module);
}

/// A look at a history.
proof fn lemma_look_back_room(
    s: Lowering,
    module: CirModule,
    v: VarId,
    far: nat,
    op: spec_fn(u8) -> AtomicOp,
)
    requires
        settled(s, module),
        s.floor + s.depth + 1 <= 256,
        0 < far <= retained(module.symbol_table.buffers@, v, 0),
    ensures
        roomy_step(s, s.look_back(module, v, far, op), module),
{
    assert(in_buffer(s, module, v));
    let slot = s.history(module, v);
    let t = s.after_history(module, v).demand(slot + far <= 255);
    lemma_settled(s, t, module);
    lemma_assign_room(t, module, op(slot));
}

/// [`law_expressions_have_room`], with what is left.
#[verifier::rlimit(40)]
proof fn lemma_room(s: Lowering, module: CirModule, scope: Scope, e: Expr)
    requires
        settled(s, module),
        readable(module, scope, e),
        s.floor + s.depth + levels(e) <= 256,
        larger(scope.age, 255) + reach(e) <= u32::MAX,
    ensures
        roomy_step(s, lower(s, module, scope, e), module),
    decreases e, 1nat,
{
    match e {
        Expr::Const(c) => lemma_assign_room(s, module, AtomicOp::Const(c)),
        Expr::Var(v) => match lowering::bound_value(scope.bound, v) {
            Some(x) => lemma_assign_room(
                s,
                module,
                AtomicOp::Const(ConstValue::Integer(x)),
            ),
            None => if scope.age == 0 {
                assert(table::lookup(s.var_map, v.0) is Some);
            } else if !lowering::forgotten(module, scope, v, scope.age) {
                lemma_look_back_room(
                    s,
                    module,
                    v,
                    scope.age,
                    |slot: u8| AtomicOp::Old { buffer: slot, depth: scope.age as usize },
                );
            },
        },
        Expr::Unary { op, operand, ty } => {
            let (s1, r1) = lower(s, module, scope, *operand);
            lemma_levels(*operand);
            lemma_room(s, module, scope, *operand);
            if let Ok(v) = r1 {
                lemma_settled(s1, s1.at(s.depth), module);
                lemma_assign_room(s1.at(s.depth), module, lowering::unary_op(op, v));
            }
        },
        Expr::Binary { op, left, right, ty } => lemma_both_room(
            s,
            module,
            scope,
            e,
            op,
            *left,
            *right,
        ),
        Expr::Until { left, right, ty } => lemma_both_room(
            s,
            module,
            scope,
            e,
            BinOp::Or,
            *left,
            *right,
        ),
        Expr::Since { left, right, ty } => lemma_both_room(
            s,
            module,
            scope,
            e,
            BinOp::And,
            *left,
            *right,
        ),
        Expr::If { .. } => lemma_if_room(s, module, scope, e),
        Expr::Forall { var, domain, body, ty } => lemma_concluded_room(
            s,
            module,
            scope,
            Over::Members(var, domain),
            *body,
            true,
            domain.size(),
        ),
        Expr::Exists { var, domain, body, ty } => lemma_concluded_room(
            s,
            module,
            scope,
            Over::Members(var, domain),
            *body,
            false,
            domain.size(),
        ),
        Expr::Always(inner, ty) => {
            lemma_samples(s, module, scope, *inner);
            lemma_concluded_room(
                s,
                module,
                scope,
                Over::Samples,
                *inner,
                true,
                samples(module, scope, *inner),
            );
        },
        Expr::Eventually(inner, ty) => {
            lemma_samples(s, module, scope, *inner);
            lemma_concluded_room(
                s,
                module,
                scope,
                Over::Samples,
                *inner,
                false,
                samples(module, scope, *inner),
            );
        },
        Expr::For { duration, body, ty } => lemma_concluded_room(
            s,
            module,
            scope,
            Over::Samples,
            *body,
            true,
            duration as nat,
        ),
        Expr::Next(inner, ty) => lemma_room(s, module, scope, *inner),
        Expr::After { duration, body, ty } => lemma_room(s, module, scope, *body),
        Expr::Old(v, ty) => if !lowering::forgotten(module, scope, v, scope.age + 1) {
            lemma_look_back_room(
                s,
                module,
                v,
                scope.age + 1,
                |slot: u8| AtomicOp::Old { buffer: slot, depth: (scope.age + 1) as usize },
            );
        },
        Expr::RateOf(v, ty) => if !lowering::forgotten(module, scope, v, scope.age + 1) {
            lemma_look_back_room(
                s,
                module,
                v,
                scope.age + 1,
                |slot: u8|
                    AtomicOp::RateOf {
                        buffer: (slot + scope.age) as u8,
                        dt: binary64::real_thousandth(module.sample_period_ms),
                    },
            );
        },
        Expr::Delta(v, ty) => if !lowering::forgotten(module, scope, v, scope.age + 1) {
            lemma_look_back_room(
                s,
                module,
                v,
                scope.age + 1,
                |slot: u8| AtomicOp::Delta { buffer: (slot + scope.age) as u8 },
            );
        },
        Expr::Index { .. } => {},
        Expr::Field { .. } => {},
    }
}

/// Every expression may want a temporary.
proof fn lemma_levels(e: Expr)
    ensures
        levels(e) >= 1,
    decreases e,
{
    match e {
        Expr::Unary { op, operand, ty } => lemma_levels(*operand),
        Expr::Next(inner, ty) => lemma_levels(*inner),
        Expr::After { duration, body, ty } => lemma_levels(*body),
        _ => {},
    }
}

/// The samples that are retained are not older than what the buffers have room for.
proof fn lemma_samples(s: Lowering, module: CirModule, scope: Scope, e: Expr)
    requires
        settled(s, module),
    ensures
        samples(module, scope, e) > 1 ==> scope.age + samples(module, scope, e) <= 256,
{
    let buffers = module.symbol_table.buffers@;
    let bound = lowering::bound_vars(scope.bound);
    lemma_horizon_bounded(s, module, bound, e);
}

/// An expression can be read back no further than the buffers have room for.
proof fn lemma_horizon_bounded(s: Lowering, module: CirModule, bound: Seq<VarId>, e: Expr)
    requires
        settled(s, module),
    ensures
        lowering::horizon(module.symbol_table.buffers@, bound, e) matches Some(h) ==> h < 224,
    decreases e,
{
    let buffers = module.symbol_table.buffers@;
    match e {
        Expr::Var(v) => lemma_retained_bounded(s, module, v),
        Expr::Old(v, ty) => lemma_retained_bounded(s, module, v),
        Expr::RateOf(v, ty) => lemma_retained_bounded(s, module, v),
        Expr::Delta(v, ty) => lemma_retained_bounded(s, module, v),
        Expr::Unary { op, operand, ty } => lemma_horizon_bounded(s, module, bound, *operand),
        Expr::Binary { op, left, right, ty } => {
            lemma_horizon_bounded(s, module, bound, *left);
            lemma_horizon_bounded(s, module, bound, *right);
        },
        Expr::Until { left, right, ty } => {
            lemma_horizon_bounded(s, module, bound, *left);
            lemma_horizon_bounded(s, module, bound, *right);
        },
        Expr::Since { left, right, ty } => {
            lemma_horizon_bounded(s, module, bound, *left);
            lemma_horizon_bounded(s, module, bound, *right);
        },
        Expr::If { cond, then_branch, else_branch, ty } => {
            lemma_horizon_bounded(s, module, bound, *cond);
            lemma_horizon_bounded(s, module, bound, *then_branch);
            lemma_horizon_bounded(s, module, bound, *else_branch);
        },
        Expr::Forall { var, domain, body, ty } => {
            lemma_horizon_bounded(s, module, bound.push(var), *body);
        },
        Expr::Exists { var, domain, body, ty } => {
            lemma_horizon_bounded(s, module, bound.push(var), *body);
        },
        Expr::Always(inner, ty) => lemma_horizon_bounded(s, module, bound, *inner),
        Expr::Eventually(inner, ty) => lemma_horizon_bounded(s, module, bound, *inner),
        Expr::Next(inner, ty) => lemma_horizon_bounded(s, module, bound, *inner),
        Expr::For { duration, body, ty } => lemma_horizon_bounded(s, module, bound, *body),
        Expr::After { duration, body, ty } => lemma_horizon_bounded(s, module, bound, *body),
        _ => {},
    }
}

/// No more samples are retained than the buffers have room for.
proof fn lemma_retained_bounded(s: Lowering, module: CirModule, v: VarId)
    requires
        settled(s, module),
    ensures
        retained(module.symbol_table.buffers@, v, 0) < 224,
{
    if retained(module.symbol_table.buffers@, v, 0) > 0 {
        assert(in_buffer(s, module, v));
    }
}

/// [`lemma_room`] for two operands.
proof fn lemma_both_room(
    s: Lowering,
    module: CirModule,
    scope: Scope,
    e: Expr,
    op: BinOp,
    left: Expr,
    right: Expr,
)
    requires
        decreases_to!(e => left),
        decreases_to!(e => right),
        settled(s, module),
        readable(module, scope, left),
        readable(module, scope, right),
        s.floor + s.depth + larger(levels(left), levels(right) + 1) <= 256,
        larger(scope.age, 255) + larger(reach(left), reach(right)) <= u32::MAX,
    ensures
        ({
            let (s1, r1) = lower(s, module, scope, left);
            match r1 {
                Ok(l) => roomy_step(
                    s,
                    lowering::on_both(s.depth, op, l, lower(s1, module, scope, right)),
                    module,
                ),
                Err(_) => as_roomy(s, s1, module),
            }
        }),
    decreases e, 0nat,
{
    let (s1, r1) = lower(s, module, scope, left);
    lemma_room(s, module, scope, left);
    if let Ok(l) = r1 {
        let (s2, r2) = lower(s1, module, scope, right);
        lemma_room(s1, module, scope, right);
        if let Ok(r) = r2 {
            let later = s2.at(s.depth);
            lemma_settled(s2, later, module);
            lemma_assign_room(later, module, lowering::binary_op(op, l, r));
        }
    }
}

/// [`lemma_room`] for a conditional.
proof fn lemma_if_room(s: Lowering, module: CirModule, scope: Scope, e: Expr)
    requires
        e is If,
        settled(s, module),
        readable(module, scope, e),
        s.floor + s.depth + levels(e) <= 256,
        larger(scope.age, 255) + reach(e) <= u32::MAX,
    ensures
        roomy_step(s, lower(s, module, scope, e), module),
    decreases e, 0nat,
{
    if let Expr::If { cond, then_branch, else_branch, ty } = e {
        let (s1, r1) = lower(s, module, scope, *cond);
        lemma_levels(*cond);
        lemma_levels(*then_branch);
        lemma_levels(*else_branch);
        lemma_room(s, module, scope, *cond);
        if let Ok(c) = r1 {
            let fork = s1.at(s.depth).fork(c);
            let (otherwise, merge) = (s1.block_ahead(1), s1.block_ahead(2));
            lemma_settled(s1, fork, module);
            let (s2, r2) = lower(fork, module, scope, *then_branch);
            lemma_room(fork, module, scope, *then_branch);
            if let Ok(t) = r2 {
                let slot = s2.scratch();
                let set = s2.after_out();
                lemma_assign_room(
                    s2,
                    module,
                    AtomicOp::Const(ConstValue::Bool(true)),
                );
                let s3 = s2.leave_then(t, merge, otherwise).at(s.depth);
                lemma_settled(set, s3, module);
                let (s4, r4) = lower(s3, module, scope, *else_branch);
                lemma_room(s3, module, scope, *else_branch);
                if let Ok(f) = r4 {
                    let last = s4.hand_over(f, slot, merge, merge).at(s.depth);
                    lemma_settled(s4, last, module);
                    lemma_assign_room(last, module, AtomicOp::LoadSlot(slot));
                }
            }
        }
    }
}

/// [`lemma_room`] for joined instances.
proof fn lemma_concluded_room(
    s: Lowering,
    module: CirModule,
    scope: Scope,
    over: Over,
    body: Expr,
    all: bool,
    n: nat,
)
    requires
        settled(s, module),
        all_readable(module, scope, over, body, n),
        s.floor + s.depth + levels(body) + 1 <= 256,
        larger(scope.age, 255) + reach(body) <= u32::MAX,
        over is Samples && n > 1 ==> larger((scope.age + n - 1) as nat, 255) + reach(body)
            <= u32::MAX,
    ensures
        roomy_step(s, conclude(copies(s, module, scope, over, body, all, n), all), module),
    decreases body, n + 3,
{
    lemma_copies_room(s, module, scope, over, body, all, n);
    let (s1, r1) = copies(s, module, scope, over, body, all, n);
    lemma_levels(body);
    if r1 matches Ok(None) {
        lemma_assign_room(s1, module, AtomicOp::Const(ConstValue::Bool(all)));
    }
}

/// [`lemma_room`] for instances of a body.
proof fn lemma_copies_room(
    s: Lowering,
    module: CirModule,
    scope: Scope,
    over: Over,
    body: Expr,
    all: bool,
    n: nat,
)
    requires
        settled(s, module),
        all_readable(module, scope, over, body, n),
        s.floor + s.depth + levels(body) + 1 <= 256,
        larger(scope.age, 255) + reach(body) <= u32::MAX,
        over is Samples && n > 1 ==> larger((scope.age + n - 1) as nat, 255) + reach(body)
            <= u32::MAX,
    ensures
        ({
            let (t, r) = copies(s, module, scope, over, body, all, n);
            &&& as_roomy(s, t, module)
            &&& r matches Ok(Some(_)) ==> s.depth <= t.depth <= s.depth + 1
            &&& r matches Ok(None) ==> n == 0 && t.depth == s.depth
        }),
    decreases body, n + 2,
{
    if n > 0 {
        let one_less = (n - 1) as nat;
        let inner = scope.instance(over, one_less);
        let (s1, r1) = copies(s, module, scope, over, body, all, one_less);
        lemma_copies_room(s, module, scope, over, body, all, one_less);
        lemma_levels(body);
        if let Ok(joined) = r1 {
            let s0 = s1.demand(inner.age <= u32::MAX);
            lemma_settled(s1, s0, module);
            assert(readable(module, inner, body));
            lemma_room(s0, module, inner, body);
            let (s2, r2) = lower(s0, module, inner, body);
            if let Ok(v) = r2 {
                if let Some(previous) = joined {
                    let later = s2.at(s.depth);
                    lemma_settled(s2, later, module);
                    lemma_assign_room(later, module, lowering::join_op(all, previous, v));
                }
            }
        }
    }
}

/// An expression that can be read has room: as long as it does not want more
/// temporaries at once than there are slots above those of local variables, it is
/// lowered or refused, and memory does not run out.
pub proof fn law_expressions_have_room(s: Lowering, module: CirModule, scope: Scope, e: Expr)
    requires
        settled(s, module),
        readable(module, scope, e),
        s.floor + s.depth + levels(e) <= 256,
        larger(scope.age, 255) + reach(e) <= u32::MAX,
    ensures
        lower(s, module, scope, e).0.room == s.room,
        lower(s, module, scope, e).0.floor == s.floor,
        lower(s, module, scope, e).1 is Ok ==> lower(s, module, scope, e).0.depth <= s.depth + 1,
{
    lemma_room(s, module, scope, e);
}

/// The expressions of the invariant want no more temporaries at once than there are.
pub open spec fn modest(inv: CirInvariant, slots: int) -> bool {
    &&& levels(inv.ensure) <= slots
    &&& 255 + reach(inv.ensure) <= u32::MAX
    &&& inv.when matches Some(when) ==> levels(when) <= slots && 255 + reach(when) <= u32::MAX
}

/// The checks of invariants have room: memory runs out for none of them, whatever
/// their number is.
pub proof fn law_checks_have_room(
    s: Lowering,
    module: CirModule,
    invariants: Seq<CirInvariant>,
    n: nat,
)
    requires
        settled(s, module),
        n <= invariants.len(),
        forall|i: int|
            0 <= i < n ==> checkable(module, #[trigger] invariants[i]) && modest(
                invariants[i],
                256 - s.floor - s.depth,
            ),
    ensures
        as_roomy(s, lower_checks(s, module, invariants, n).0, module),
        lower_checks(s, module, invariants, n).1 is Ok ==> lower_checks(
            s,
            module,
            invariants,
            n,
        ).0.depth == s.depth,
    decreases n,
{
    if n > 0 {
        let (s1, r1) = lower_checks(s, module, invariants, (n - 1) as nat);
        law_checks_have_room(s, module, invariants, (n - 1) as nat);
        if r1 is Ok {
            let inv = invariants[n - 1];
            assert(checkable(module, inv) && modest(inv, 256 - s.floor - s.depth));
            if let Some(when) = inv.when {
                lemma_room(s1, module, Scope::top(), when);
            }
            let (g, r2) = guard(s1, module, inv);
            if let Ok(cond) = r2 {
                let opened = g.at(s1.depth).open_check(inv.name@, cond);
                lemma_settled(g, opened, module);
                lemma_room(opened, module, Scope::top(), inv.ensure);
                let (s2, r3) = lower(opened, module, Scope::top(), inv.ensure);
                if let Ok(holds) = r3 {
                    lemma_settled(s2, lower_check(s1, module, inv).0, module);
                }
            }
        }
    }
}

/// There is room where no counter has outgrown its field and memory had room: there
/// are as many variables and blocks as fit in 32 bits, and as many slots as fit in
/// eight.
pub proof fn law_what_fits(s: Lowering)
    ensures
        s.fits() <==> {
            &&& s.builder.next_var < 0x1_0000_0000
            &&& s.builder.next_block < 0x1_0000_0000
            &&& s.tmp_counter < 0x1_0000_0000
            &&& s.builder.program.slot_count < 0x100
            &&& s.room
        },
{
}

// ---------------------------------------------------------------------------
// Modules
// ---------------------------------------------------------------------------

/// Every variable of the symbol table has its LCIR variable, and that one its slot.
pub open spec fn placed(s: Lowering, module: CirModule) -> bool {
    forall|i: int|
        0 <= i < module.symbol_table.vars@.len() ==> (table::lookup(
            s.var_map,
            (#[trigger] module.symbol_table.vars@[i]).0,
        ) matches Some(id) ==> table::lookup(s.builder.program.slot_map, id.0) is Some)
            && table::lookup(s.var_map, module.symbol_table.vars@[i].0) is Some
}

/// Placing buffers and storing constants, the blocks of the loop and its end take no
/// room: where the variables have their slots, nothing more is needed.
pub proof fn law_preparation_takes_no_room(s: Lowering, module: CirModule, n: nat)
    requires
        placed(s, module),
        n <= module.symbol_table.vars@.len(),
    ensures
        place_buffers(s, module, module.symbol_table.buffers@.len()).room == s.room,
        place_constants(s, module, n).room == s.room,
        place_constants(s, module, n).floor == s.floor,
        place_constants(s, module, n).var_map == s.var_map,
        place_constants(s, module, n).builder.program.slot_map == s.builder.program.slot_map,
        s.enter_loop().room == s.room,
        forall|a: BlockId, b: BlockId| (#[trigger] s.close_loop(a, b)).room == s.room,
    decreases n,
{
    lemma_buffers_room(s, module, module.symbol_table.buffers@.len());
    if n > 0 {
        law_preparation_takes_no_room(s, module, (n - 1) as nat);
        let entry = module.symbol_table.vars@[n - 1];
        assert(table::lookup(s.var_map, entry.0) is Some);
    }
}

/// Placing buffers takes no room.
proof fn lemma_buffers_room(s: Lowering, module: CirModule, n: nat)
    ensures
        place_buffers(s, module, n).room == s.room,
    decreases n,
{
    if n > 0 {
        lemma_buffers_room(s, module, (n - 1) as nat);
    }
}

/// A module has room where its variables have, and where its invariants want no more
/// temporaries at once than there are slots above those of its local variables: memory
/// does not run out, whatever their number is.
pub proof fn law_modules_have_room(module: CirModule)
    requires
        settled(prepared(module), module),
        forall|i: int|
            0 <= i < module.invariants@.len() ==> checkable(
                module,
                #[trigger] module.invariants@[i],
            ) && modest(
                module.invariants@[i],
                256 - prepared(module).floor - prepared(module).depth,
            ),
    ensures
        lower_all(module).0.room == prepared(module).room,
{
    let s = prepared(module);
    let entered = s.enter_loop();
    lemma_settled(s, entered, module);
    law_checks_have_room(entered, module, module.invariants@, module.invariants@.len());
}

/// The first slot for variables of a kind, and how many there are.
pub open spec fn slots_for(kind: VarKind) -> (int, int) {
    match kind {
        VarKind::Constant => (0, 32),
        VarKind::State => (32, 96),
        VarKind::Temporal => (128, 96),
        VarKind::Local => (224, 32),
    }
}

/// The number of variables of a kind among the first `n` of the symbol table.
pub open spec fn count_of(module: CirModule, kind: VarKind, n: nat) -> nat
    decreases n,
{
    if n == 0 {
        0
    } else {
        count_of(module, kind, (n - 1) as nat) + if module.symbol_table.vars@[n - 1].1.kind
            == kind {
            1nat
        } else {
            0nat
        }
    }
}

/// The slot of the variable with the number `i`: those of a kind have theirs one after
/// the other.
pub open spec fn slot_in_turn(module: CirModule, i: int) -> int {
    let kind = module.symbol_table.vars@[i].1.kind;
    slots_for(kind).0 + count_of(module, kind, i as nat)
}

/// The first `n` variables have the slots that it is their turn to have.
pub open spec fn in_turn(s: Lowering, module: CirModule, n: nat) -> bool {
    let (ids, map) = (s.var_map, s.builder.program.slot_map);
    &&& ids.len() == n
    &&& map.len() == n
    &&& s.builder.next_var == 1000 + n
    &&& s.depth == 0
    &&& s.room
    &&& forall|i: int|
        0 <= i < n ==> {
            &&& (#[trigger] ids[i]) == (
                module.symbol_table.vars@[i].0,
                VarId((1000 + i) as u32),
            )
            &&& map[i] == ((1000 + i) as u32, slot_in_turn(module, i) as u8)
        }
}

/// More variables of a kind come later.
proof fn lemma_count_grows(module: CirModule, kind: VarKind, m: nat, n: nat)
    requires
        m <= n,
    ensures
        count_of(module, kind, m) <= count_of(module, kind, n),
        m < n && module.symbol_table.vars@[m as int].1.kind == kind ==> count_of(module, kind, m)
            < count_of(module, kind, n),
    decreases n,
{
    if m < n {
        lemma_count_grows(module, kind, m, (n - 1) as nat);
    }
}

/// Each turn up to the count is that of a variable of the kind.
proof fn lemma_turn(module: CirModule, kind: VarKind, n: nat, turn: nat) -> (i: int)
    requires
        turn < count_of(module, kind, n),
    ensures
        0 <= i < n,
        module.symbol_table.vars@[i].1.kind == kind,
        count_of(module, kind, i as nat) == turn,
    decreases n,
{
    let before = (n - 1) as nat;
    if turn < count_of(module, kind, before) {
        lemma_turn(module, kind, before, turn)
    } else {
        n - 1
    }
}

/// [`law_variables_have_their_turn`] for the first `n` variables.
#[verifier::rlimit(40)]
proof fn lemma_in_turn(module: CirModule, n: nat)
    requires
        n <= module.symbol_table.vars@.len() <= 0xffff_0000,
        table::keys_distinct(module.symbol_table.vars@),
        module.symbol_table.buffers@.len() == 0,
        forall|kind: VarKind| #[trigger]
            count_of(module, kind, module.symbol_table.vars@.len()) <= slots_for(kind).1,
    ensures
        in_turn(map_all(Lowering::new(module.name@, module.version@), module, n), module, n),
    decreases n,
{
    let start = Lowering::new(module.name@, module.version@);
    if n > 0 {
        let k = (n - 1) as nat;
        let vars = module.symbol_table.vars@;
        let all = vars.len();
        lemma_in_turn(module, k);
        let s = map_all(start, module, k);
        let (v, kind) = (VarId(vars[n - 1].0), vars[n - 1].1.kind);
        let map = s.builder.program.slot_map;
        let turn = count_of(module, kind, k);
        let slot = slot_in_turn(module, n - 1);
        lemma_count_grows(module, kind, k, all);
        assert(count_of(module, kind, all) <= slots_for(kind).1);
        // The variable is new.
        table::lemma_place_of(s.var_map, v.0);
        if table::lookup(s.var_map, v.0) is Some {
            let i = table::place_of(s.var_map, v.0);
            assert(s.var_map[i].0 == vars[i].0);
        }
        table::lemma_place_of_distinct(vars, n - 1);
        assert(lowering::kind_of(module, v) == kind);
        let id = s.builder.new_var();
        let later = Lowering {
            builder: s.builder.after_var(),
            var_map: table::put(s.var_map, v.0, id),
            ..s
        };
        table::lemma_place_of(map, id.0);
        assert forall|i: int| 0 <= i < map.len() implies (#[trigger] map[i]).0 != id.0 by {
            assert(s.var_map[i].1 == VarId((1000 + i) as u32));
        }
        // The slots before are taken.
        assert forall|y: int| slots_for(kind).0 <= y < slot implies !(#[trigger] is_free(
            later,
            module,
            y,
        )) by {
            let i = lemma_turn(module, kind, k, (y - slots_for(kind).0) as nat);
            assert(s.var_map[i].1 == VarId((1000 + i) as u32));
            assert(slot_in_turn(module, i) == y);
            assert(later.builder.program.slot_map[i].1 == y);
        }
        // The slot is not.
        assert forall|i: int| 0 <= i < map.len() implies (#[trigger] map[i]).1 != slot by {
            let other = vars[i].1.kind;
            assert(s.var_map[i].1 == VarId((1000 + i) as u32));
            lemma_count_grows(module, other, i as nat, k);
            lemma_count_grows(module, other, i as nat, all);
            assert(count_of(module, other, all) <= slots_for(other).1);
        }
        assert(is_free(later, module, slot));
        law_lowest_free_slot_is_given(later, module, id, kind, slot);
        let t = map_all(start, module, n);
        assert(t == later.settle(module, id, kind));
        assert(t.builder.program.slot_map =~= map.push((id.0, slot as u8)));
        assert(t.var_map =~= s.var_map.push((v.0, id)));
        assert(t.var_map.len() == n && t.builder.program.slot_map.len() == n);
        assert(t.builder.next_var == 1000 + n);
        assert(t.depth == 0);
        assert(t.room);
        assert forall|i: int| 0 <= i < n implies (#[trigger] t.var_map[i]) == (
            vars[i].0,
            VarId((1000 + i) as u32),
        ) && t.builder.program.slot_map[i] == (
            (1000 + i) as u32,
            slot_in_turn(module, i) as u8,
        ) by {
            if i < k {
                assert(s.var_map[i] == (vars[i].0, VarId((1000 + i) as u32)));
            }
        }
        assert(in_turn(t, module, n));
    } else {
        assert(in_turn(start, module, 0));
    }
}

/// Without history buffers, the variables of each kind have the slots for the kind, one
/// after the other in the order of the symbol table, and there is room for 32
/// constants, 96 state variables, 96 temporal ones and 32 locals.
pub proof fn law_variables_have_their_turn(module: CirModule, i: int)
    requires
        module.symbol_table.vars@.len() <= 0xffff_0000,
        table::keys_distinct(module.symbol_table.vars@),
        module.symbol_table.buffers@.len() == 0,
        count_of(module, VarKind::Constant, module.symbol_table.vars@.len()) <= 32,
        count_of(module, VarKind::State, module.symbol_table.vars@.len()) <= 96,
        count_of(module, VarKind::Temporal, module.symbol_table.vars@.len()) <= 96,
        count_of(module, VarKind::Local, module.symbol_table.vars@.len()) <= 32,
        0 <= i < module.symbol_table.vars@.len(),
    ensures
        mapped_all(module).room,
        mapped_all(module).builder.program.slot_map[i] == (
            (1000 + i) as u32,
            slot_in_turn(module, i) as u8,
        ),
        0 <= slot_in_turn(module, i) <= 255,
{
    let all = module.symbol_table.vars@.len();
    assert forall|kind: VarKind| #[trigger] count_of(module, kind, all) <= slots_for(kind).1 by {
        match kind {
            VarKind::Constant => {},
            VarKind::State => {},
            VarKind::Temporal => {},
            VarKind::Local => {},
        }
    }
    lemma_in_turn(module, all);
    let kind = module.symbol_table.vars@[i].1.kind;
    assert(mapped_all(module).var_map[i].1 == VarId((1000 + i) as u32));
    lemma_count_grows(module, kind, i as nat, all);
    assert(count_of(module, kind, all) <= slots_for(kind).1);
}

} // verus!
