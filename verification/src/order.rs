//! That lowered programs read only slots that exist, assign every variable once,
//! and read only variables that have a value; and that the code of one expression
//! is made of its own results.

use crate::binary64;
use crate::cir::BinOp;
use crate::cir::CirInvariant;
use crate::cir::CirModule;
use crate::cir::ConstValue;
use crate::cir::Expr;
use crate::cir::VarId;
use crate::codegen;
use crate::lcir::AtomicOp;
use crate::lcir::BlockId;
use crate::lcir::BuilderView;
use crate::lcir::ProgramView;
use crate::lcir::StmtView;
use crate::lcir::TerminatorView;
use crate::lowering::Lowering;
use crate::lowering::Over;
use crate::lowering::Scope;
use crate::lowering::Step;
use crate::lowering::binary_op;
use crate::lowering::bound_value;
use crate::lowering::bound_vars;
use crate::lowering::conclude;
use crate::lowering::copies;
use crate::lowering::forgotten;
use crate::lowering::guard;
use crate::lowering::in_entry;
use crate::lowering::init_span;
use crate::lowering::join_op;
use crate::lowering::lemma_at;
use crate::lowering::lemma_check;
use crate::lowering::lemma_check_grows;
use crate::lowering::lemma_checks;
use crate::lowering::lemma_checks_grow;
use crate::lowering::lemma_compute;
use crate::lowering::lemma_copies;
use crate::lowering::lemma_copies_grow;
use crate::lowering::lemma_enter_loop;
use crate::lowering::lemma_fork;
use crate::lowering::lemma_hand_over;
use crate::lowering::lemma_history;
use crate::lowering::lemma_leads_to_transitive;
use crate::lowering::lemma_leave_then;
use crate::lowering::lemma_lower;
use crate::lowering::lemma_lower_grows;
use crate::lowering::lemma_map;
use crate::lowering::lemma_module;
use crate::lowering::lemma_module_grows;
use crate::lowering::lemma_open_check;
use crate::lowering::lemma_preparation;
use crate::lowering::lemma_preparation_grows;
use crate::lowering::lower;
use crate::lowering::lower_all;
use crate::lowering::lower_check;
use crate::lowering::lower_checks;
use crate::lowering::lower_span;
use crate::lowering::map_all;
use crate::lowering::mapped_all;
use crate::lowering::meta_of;
use crate::lowering::on_both;
use crate::lowering::place_buffers;
use crate::lowering::place_constants;
use crate::lowering::placed_all;
use crate::lowering::prepared;
use crate::lowering::samples;
use crate::lowering::unary_op;
use crate::table;
use vstd::prelude::*;

verus! {

/// The variable that a statement assigns, if it assigns one.
pub open spec fn assigned(stmt: StmtView) -> Option<u32> {
    match stmt {
        StmtView::Assign { dest, op, span } => Some(dest.0),
        _ => None,
    }
}

/// The operation reads the variable.
pub open spec fn reads(op: AtomicOp, v: VarId) -> bool {
    match op {
        AtomicOp::Neg(a) => v == a,
        AtomicOp::Abs(a) => v == a,
        AtomicOp::Not(a) => v == a,
        AtomicOp::Add(a, b) => v == a || v == b,
        AtomicOp::Sub(a, b) => v == a || v == b,
        AtomicOp::Mul(a, b) => v == a || v == b,
        AtomicOp::Div(a, b) => v == a || v == b,
        AtomicOp::Mod(a, b) => v == a || v == b,
        AtomicOp::Eq(a, b) => v == a || v == b,
        AtomicOp::Neq(a, b) => v == a || v == b,
        AtomicOp::Lt(a, b) => v == a || v == b,
        AtomicOp::Gt(a, b) => v == a || v == b,
        AtomicOp::Lte(a, b) => v == a || v == b,
        AtomicOp::Gte(a, b) => v == a || v == b,
        AtomicOp::And(a, b) => v == a || v == b,
        AtomicOp::Or(a, b) => v == a || v == b,
        AtomicOp::Implies(a, b) => v == a || v == b,
        _ => false,
    }
}

/// Since when code is looked at.
pub struct Origin {
    /// The state from which lowering goes on.
    pub base: Lowering,
    /// Nothing is read but what was assigned since then.
    pub pure: bool,
}

/// The place, given by the number of a block and that of a statement in it, is one
/// where statements go that are emitted since the origin: in a new block, or behind
/// the statements of the block that was current.
pub open spec fn is_new(o: Origin, i: int, j: int) -> bool {
    ||| i >= o.base.builder.program.blocks.len()
    ||| i == o.base.builder.current_block.0 && j >= o.base.builder.current().stmts.len()
}

/// There is a statement in the place, and it was emitted since the origin.
pub open spec fn emitted(o: Origin, p: ProgramView, i: int, j: int) -> bool {
    &&& 0 <= i < p.blocks.len()
    &&& 0 <= j < p.blocks[i].stmts.len()
    &&& is_new(o, i, j)
}

/// A statement since the origin assigns the variable.
pub open spec fn is_assigned(o: Origin, p: ProgramView, v: VarId) -> bool {
    exists|i: int, j: int|
        emitted(o, p, i, j) && assigned(#[trigger] p.blocks[i].stmts[j]) == Some(v.0)
}

/// A statement since the origin, in the given block and before the place `end`,
/// assigns the variable.
pub open spec fn is_assigned_in(o: Origin, p: ProgramView, v: VarId, i: int, end: int) -> bool {
    exists|j: int|
        emitted(o, p, i, j) && j < end && assigned(#[trigger] p.blocks[i].stmts[j]) == Some(v.0)
}

/// A statement of the current block since the origin assigns the variable.
pub open spec fn here(o: Origin, s: Lowering, v: VarId) -> bool {
    is_assigned_in(
        o,
        s.builder.program,
        v,
        s.builder.current_block.0 as int,
        s.builder.current().stmts.len() as int,
    )
}

/// The variable is that of a CIR variable.
pub open spec fn is_mapped(s: Lowering, v: VarId) -> bool {
    exists|i: int| 0 <= i < s.var_map.len() && (#[trigger] s.var_map[i]).1 == v
}

/// The variable was given out, has its slot, and has a value: it is that of a CIR
/// variable, or a statement since the origin assigns it.
pub open spec fn ready(o: Origin, s: Lowering, v: VarId) -> bool {
    &&& v.0 < s.builder.next_var
    &&& table::lookup(s.builder.program.slot_map, v.0) is Some
    &&& !o.pure && is_mapped(s, v) || is_assigned(o, s.builder.program, v)
}

/// What the operation reads is ready.
pub open spec fn op_ready(o: Origin, s: Lowering, op: AtomicOp) -> bool {
    forall|v: VarId| #[trigger] reads(op, v) ==> ready(o, s, v)
}

/// What the statement reads is ready, and was given out before what it assigns.
pub open spec fn grounded(o: Origin, s: Lowering, stmt: StmtView) -> bool {
    match stmt {
        StmtView::Assign { dest, op, span } => forall|v: VarId| #[trigger]
            reads(op, v) ==> ready(o, s, v) && v.0 < dest.0,
        StmtView::Store { src, slot, span } => ready(o, s, src),
        StmtView::Assert { cond, invariant_name, span } => !o.pure && ready(o, s, cond),
        _ => true,
    }
}

/// No two statements since the origin assign the same variable.
pub open spec fn assigned_once(o: Origin, p: ProgramView) -> bool {
    forall|i: int, j: int, k: int, l: int|
        emitted(o, p, i, j) && emitted(o, p, k, l) && assigned(#[trigger] p.blocks[i].stmts[j])
            is Some && assigned(p.blocks[i].stmts[j]) == assigned(
            #[trigger] p.blocks[k].stmts[l],
        ) ==> i == k && j == l
}

/// Where a block assigns two variables since the origin, the later one has the
/// greater number.
pub open spec fn counts_up(o: Origin, p: ProgramView) -> bool {
    forall|i: int, j: int, k: int|
        #![trigger p.blocks[i].stmts[j], p.blocks[i].stmts[k]]
        emitted(o, p, i, j) && emitted(o, p, i, k) && j < k && assigned(p.blocks[i].stmts[j])
            is Some && assigned(p.blocks[i].stmts[k]) is Some ==> assigned(
            p.blocks[i].stmts[j],
        )->0 < assigned(p.blocks[i].stmts[k])->0
}

/// Every variable that is assigned since the origin was given out since then.
pub open spec fn assigned_known(o: Origin, b: BuilderView) -> bool {
    forall|i: int, j: int|
        emitted(o, b.program, i, j) ==> (assigned(
            #[trigger] b.program.blocks[i].stmts[j],
        ) matches Some(v) ==> o.base.builder.next_var <= v < b.next_var)
}

/// The statements since the origin are grounded.
pub open spec fn all_grounded(o: Origin, s: Lowering) -> bool {
    forall|i: int, j: int|
        emitted(o, s.builder.program, i, j) ==> grounded(
            o,
            s,
            #[trigger] s.builder.program.blocks[i].stmts[j],
        )
}

/// What the statement stores was assigned before it, in the same block.
pub open spec fn follows(o: Origin, p: ProgramView, i: int, j: int) -> bool {
    p.blocks[i].stmts[j] matches StmtView::Store { src, slot, span } ==> is_assigned_in(
        o,
        p,
        src,
        i,
        j,
    )
}

/// What the statements since the origin store was assigned before them.
pub open spec fn all_follow(o: Origin, p: ProgramView) -> bool {
    forall|i: int, j: int| emitted(o, p, i, j) ==> #[trigger] follows(o, p, i, j)
}

/// The condition on which the block branches was assigned in it.
pub open spec fn branch_follows(o: Origin, p: ProgramView, i: int) -> bool {
    p.blocks[i].terminator matches TerminatorView::Branch { cond, .. } ==> is_assigned_in(
        o,
        p,
        cond,
        i,
        p.blocks[i].stmts.len() as int,
    )
}

/// The way out of the block was set since the origin.
pub open spec fn leaves_anew(o: Origin, p: ProgramView, i: int) -> bool {
    &&& 0 <= i < p.blocks.len()
    &&& i >= o.base.builder.program.blocks.len() || (i == o.base.builder.current_block.0
        && p.blocks[i].terminator != o.base.builder.current().terminator)
}

/// Every condition since the origin was assigned in the block that branches on it.
pub open spec fn ways(o: Origin, p: ProgramView) -> bool {
    forall|i: int| leaves_anew(o, p, i) ==> #[trigger] branch_follows(o, p, i)
}

/// Every slot that the code since the origin reads exists.
pub open spec fn new_addressable(o: Origin, p: ProgramView) -> bool {
    forall|i: int, j: int|
        emitted(o, p, i, j) ==> codegen::stmt_addressable(#[trigger] p.blocks[i].stmts[j])
}

/// The state goes on from the origin, and the next statement will be one since then.
pub open spec fn goes_on(o: Origin, s: Lowering) -> bool {
    &&& o.base.builder.next_var <= s.builder.next_var
    &&& o.base.builder.program.blocks.len() <= s.builder.program.blocks.len()
    &&& is_new(
        o,
        s.builder.current_block.0 as int,
        s.builder.current().stmts.len() as int,
    )
}

/// The code since the origin reads only slots that exist, assigns no variable twice,
/// and reads only variables that are ready. In pure code, what is stored and what
/// is branched on was assigned before, in the same block.
pub open spec fn orderly(o: Origin, s: Lowering) -> bool {
    &&& goes_on(o, s)
    &&& new_addressable(o, s.builder.program)
    &&& assigned_once(o, s.builder.program)
    &&& counts_up(o, s.builder.program)
    &&& assigned_known(o, s.builder)
    &&& all_grounded(o, s)
    &&& o.pure ==> all_follow(o, s.builder.program)
    &&& o.pure ==> ways(o, s.builder.program)
}

/// The second state has what the first has: the statements of the first are those
/// at the beginning of its blocks, and variables keep what they have.
pub open spec fn extends(s: Lowering, t: Lowering) -> bool {
    let (b, c) = (s.builder.program.blocks, t.builder.program.blocks);
    &&& s.builder.next_var <= t.builder.next_var
    &&& b.len() <= c.len()
    &&& forall|i: int| 0 <= i < b.len() ==> (#[trigger] b[i]).stmts.is_prefix_of(c[i].stmts)
    &&& s.var_map.is_prefix_of(t.var_map)
    &&& s.builder.program.slot_map.is_prefix_of(t.builder.program.slot_map)
    &&& table::keys_distinct(t.builder.program.slot_map)
}

/// What is ready stays ready.
proof fn lemma_ready_kept(o: Origin, s: Lowering, t: Lowering, v: VarId)
    requires
        extends(s, t),
        ready(o, s, v),
    ensures
        ready(o, t, v),
{
    table::lemma_lookup_prefix(
        s.builder.program.slot_map,
        t.builder.program.slot_map,
        v.0,
    );
    let (b, c) = (s.builder.program.blocks, t.builder.program.blocks);
    if !o.pure && is_mapped(s, v) {
        let i = choose|i: int| 0 <= i < s.var_map.len() && (#[trigger] s.var_map[i]).1 == v;
        assert(t.var_map[i] == s.var_map[i]);
    } else {
        let (i, j) = choose|i: int, j: int|
            emitted(o, s.builder.program, i, j) && assigned(#[trigger] b[i].stmts[j]) == Some(
                v.0,
            );
        assert(b[i].stmts.is_prefix_of(c[i].stmts));
        assert(c[i].stmts[j] == b[i].stmts[j]);
        assert(emitted(o, t.builder.program, i, j));
    }
}

/// A grounded statement stays grounded.
proof fn lemma_grounded_kept(o: Origin, s: Lowering, t: Lowering, stmt: StmtView)
    requires
        extends(s, t),
        grounded(o, s, stmt),
    ensures
        grounded(o, t, stmt),
{
    match stmt {
        StmtView::Assign { dest, op, span } => {
            assert forall|v: VarId| #[trigger] reads(op, v) implies ready(o, t, v) && v.0
                < dest.0 by {
                lemma_ready_kept(o, s, t, v);
            }
        },
        StmtView::Store { src, slot, span } => lemma_ready_kept(o, s, t, src),
        StmtView::Assert { cond, invariant_name, span } => lemma_ready_kept(o, s, t, cond),
        _ => {},
    }
}

/// A step that leaves older code alone extends the state.
proof fn lemma_extends(s: Lowering, t: Lowering)
    requires
        s.leads_to(t),
        t.sound(),
    ensures
        extends(s, t),
{
    let (b, c) = (s.builder.program.blocks, t.builder.program.blocks);
    assert forall|i: int| 0 <= i < b.len() implies (#[trigger] b[i]).stmts.is_prefix_of(
        c[i].stmts,
    ) by {
        if i != s.builder.current_block.0 {
            assert(c[i] == b[i]);
        }
    }
}

/// What was assigned in a block stays assigned there.
proof fn lemma_assigned_kept(o: Origin, s: Lowering, t: Lowering, v: VarId, i: int, end: int)
    requires
        extends(s, t),
        is_assigned_in(o, s.builder.program, v, i, end),
    ensures
        is_assigned_in(o, t.builder.program, v, i, end),
{
    let (b, c) = (s.builder.program.blocks, t.builder.program.blocks);
    let j = choose|j: int|
        emitted(o, s.builder.program, i, j) && j < end && assigned(#[trigger] b[i].stmts[j])
            == Some(v.0);
    assert(b[i].stmts.is_prefix_of(c[i].stmts));
    assert(c[i].stmts[j] == b[i].stmts[j]);
    assert(emitted(o, t.builder.program, i, j));
}

/// A statement that assigns no variable but one with a greater number than those
/// that were assigned before.
pub open spec fn new_assignment(o: Origin, b: BuilderView, stmt: StmtView) -> bool {
    assigned(stmt) matches Some(v) ==> o.base.builder.next_var <= v < b.next_var && forall|
        i: int,
        j: int,
    |
        emitted(o, b.program, i, j) ==> (assigned(
            #[trigger] b.program.blocks[i].stmts[j],
        ) matches Some(u) ==> u < v)
}

/// One more statement.
#[verifier::rlimit(40)]
proof fn lemma_emit_orderly(o: Origin, s: Lowering, stmt: StmtView)
    requires
        orderly(o, s),
        s.builder.current_block.0 < s.builder.program.blocks.len(),
        codegen::stmt_addressable(stmt),
        new_assignment(o, s.builder, stmt),
        grounded(o, s, stmt),
        o.pure ==> (stmt matches StmtView::Store { src, slot, span } ==> here(o, s, src)),
        table::keys_distinct(s.builder.program.slot_map),
    ensures
        orderly(o, s.emit(stmt)),
        extends(s, s.emit(stmt)),
{
    let t = s.emit(stmt);
    let (p, q) = (s.builder.program, t.builder.program);
    let (b, c) = (p.blocks, q.blocks);
    let at = s.builder.current_block.0 as int;
    let last = b[at].stmts.len() as int;
    assert(extends(s, t)) by {
        assert forall|i: int| 0 <= i < b.len() implies (#[trigger] b[i]).stmts.is_prefix_of(
            c[i].stmts,
        ) by {
            if i != at {
                assert(c[i] == b[i]);
            }
        }
    }
    assert forall|i: int, j: int| emitted(o, q, i, j) && (i != at || j != last) implies emitted(
        o,
        p,
        i,
        j,
    ) && #[trigger] c[i].stmts[j] == b[i].stmts[j] by {}
    assert(c[at].stmts[last] == stmt);
    assert forall|i: int, j: int| emitted(o, q, i, j) implies {
        &&& grounded(o, t, #[trigger] c[i].stmts[j])
        &&& codegen::stmt_addressable(c[i].stmts[j])
        &&& (assigned(c[i].stmts[j]) matches Some(v) ==> o.base.builder.next_var <= v
            < t.builder.next_var)
    } by {
        if i != at || j != last {
            assert(c[i].stmts[j] == b[i].stmts[j]);
        }
        lemma_grounded_kept(o, s, t, c[i].stmts[j]);
    }
    assert forall|i: int, j: int, k: int, l: int|
        emitted(o, q, i, j) && emitted(o, q, k, l) && assigned(#[trigger] c[i].stmts[j]) is Some
            && assigned(c[i].stmts[j]) == assigned(#[trigger] c[k].stmts[l]) implies i == k && j
        == l by {
        if i != at || j != last {
            assert(c[i].stmts[j] == b[i].stmts[j]);
        }
        if k != at || l != last {
            assert(c[k].stmts[l] == b[k].stmts[l]);
        }
    }
    assert forall|i: int, j: int, k: int|
        #![trigger c[i].stmts[j], c[i].stmts[k]]
        emitted(o, q, i, j) && emitted(o, q, i, k) && j < k && assigned(c[i].stmts[j]) is Some
            && assigned(c[i].stmts[k]) is Some implies assigned(c[i].stmts[j])->0 < assigned(
        c[i].stmts[k],
    )->0 by {
        assert(c[i].stmts[j] == b[i].stmts[j]);
        if i != at || k != last {
            assert(c[i].stmts[k] == b[i].stmts[k]);
        }
    }
    if o.pure {
        assert forall|i: int, j: int| emitted(o, q, i, j) implies #[trigger] follows(
            o,
            q,
            i,
            j,
        ) by {
            if i != at || j != last {
                assert(c[i].stmts[j] == b[i].stmts[j]);
                assert(follows(o, p, i, j));
                if let StmtView::Store { src, slot, span } = c[i].stmts[j] {
                    lemma_assigned_kept(o, s, t, src, i, j);
                }
            } else if let StmtView::Store { src, slot, span } = stmt {
                lemma_assigned_kept(o, s, t, src, at, last);
            }
        }
        assert forall|i: int| leaves_anew(o, q, i) implies #[trigger] branch_follows(
            o,
            q,
            i,
        ) by {
            assert(c[i].terminator == b[i].terminator);
            assert(leaves_anew(o, p, i));
            assert(branch_follows(o, p, i));
            if let TerminatorView::Branch { cond, .. } = c[i].terminator {
                lemma_assigned_kept(o, s, t, cond, i, b[i].stmts.len() as int);
                let j = choose|j: int|
                    emitted(o, q, i, j) && j < b[i].stmts.len() && assigned(
                        #[trigger] c[i].stmts[j],
                    ) == Some(cond.0);
                assert(j < c[i].stmts.len());
            }
        }
    }
}

/// The same statements in the same blocks, and possibly empty blocks after them.
#[verifier::rlimit(40)]
proof fn lemma_same_statements(o: Origin, s: Lowering, t: Lowering)
    requires
        orderly(o, s),
        s.builder.next_var <= t.builder.next_var,
        s.var_map.is_prefix_of(t.var_map),
        s.builder.program.slot_map.is_prefix_of(t.builder.program.slot_map),
        table::keys_distinct(t.builder.program.slot_map),
        s.builder.program.blocks.len() <= t.builder.program.blocks.len(),
        s.builder.current_block.0 < s.builder.program.blocks.len(),
        t.builder.current_block == s.builder.current_block || t.builder.current_block.0
            >= o.base.builder.program.blocks.len(),
        o.pure ==> ways(o, t.builder.program),
        forall|i: int|
            0 <= i < t.builder.program.blocks.len() ==> (
            #[trigger] t.builder.program.blocks[i]).stmts == (if i
                < s.builder.program.blocks.len() {
                s.builder.program.blocks[i].stmts
            } else {
                Seq::empty()
            }),
    ensures
        orderly(o, t),
        extends(s, t),
{
    let (p, q) = (s.builder.program, t.builder.program);
    let (b, c) = (p.blocks, q.blocks);
    assert forall|i: int| 0 <= i < b.len() implies (#[trigger] b[i]).stmts.is_prefix_of(
        c[i].stmts,
    ) by {
        assert(c[i].stmts == b[i].stmts);
    }
    let at = s.builder.current_block.0 as int;
    assert(c[at].stmts == b[at].stmts);
    assert forall|i: int, j: int| emitted(o, q, i, j) implies emitted(o, p, i, j)
        && #[trigger] c[i].stmts[j] == b[i].stmts[j] by {
        assert(c[i].stmts == (if i < b.len() {
            b[i].stmts
        } else {
            Seq::empty()
        }));
    }
    assert forall|i: int, j: int| emitted(o, q, i, j) implies {
        &&& grounded(o, t, #[trigger] c[i].stmts[j])
        &&& codegen::stmt_addressable(c[i].stmts[j])
        &&& (assigned(c[i].stmts[j]) matches Some(v) ==> o.base.builder.next_var <= v
            < t.builder.next_var)
    } by {
        assert(c[i].stmts[j] == b[i].stmts[j]);
        lemma_grounded_kept(o, s, t, c[i].stmts[j]);
    }
    assert forall|i: int, j: int, k: int, l: int|
        emitted(o, q, i, j) && emitted(o, q, k, l) && assigned(#[trigger] c[i].stmts[j]) is Some
            && assigned(c[i].stmts[j]) == assigned(#[trigger] c[k].stmts[l]) implies i == k && j
        == l by {
        assert(c[i].stmts[j] == b[i].stmts[j]);
        assert(c[k].stmts[l] == b[k].stmts[l]);
    }
    assert forall|i: int, j: int, k: int|
        #![trigger c[i].stmts[j], c[i].stmts[k]]
        emitted(o, q, i, j) && emitted(o, q, i, k) && j < k && assigned(c[i].stmts[j]) is Some
            && assigned(c[i].stmts[k]) is Some implies assigned(c[i].stmts[j])->0 < assigned(
        c[i].stmts[k],
    )->0 by {
        assert(c[i].stmts[j] == b[i].stmts[j]);
        assert(c[i].stmts[k] == b[i].stmts[k]);
    }
    if o.pure {
        assert forall|i: int, j: int| emitted(o, q, i, j) implies #[trigger] follows(
            o,
            q,
            i,
            j,
        ) by {
            assert(c[i].stmts[j] == b[i].stmts[j]);
            assert(follows(o, p, i, j));
            if let StmtView::Store { src, slot, span } = c[i].stmts[j] {
                lemma_assigned_kept(o, s, t, src, i, j);
            }
        }
    }
}

/// An assignment to the next temporary is new.
proof fn lemma_tmp_is_new(o: Origin, s: Lowering, t: Lowering, op: AtomicOp)
    requires
        orderly(o, s),
        0 <= s.builder.next_var <= u32::MAX,
        t.builder.program.blocks == s.builder.program.blocks,
        t.builder.next_var == s.builder.next_var + 1,
    ensures
        new_assignment(
            o,
            t.builder,
            (StmtView::Assign { dest: s.tmp(), op, span: lower_span() }),
        ),
{
    let b = s.builder.program.blocks;
    assert forall|i: int, j: int| emitted(o, t.builder.program, i, j) implies (assigned(
        #[trigger] b[i].stmts[j],
    ) matches Some(u) ==> u < s.tmp().0) by {
        assert(emitted(o, s.builder.program, i, j));
    }
}

/// The same blocks.
proof fn lemma_same_blocks(o: Origin, s: Lowering, t: Lowering)
    requires
        s.builder.program.blocks == t.builder.program.blocks,
        ways(o, s.builder.program),
    ensures
        ways(o, t.builder.program),
{
    let (p, q) = (s.builder.program, t.builder.program);
    assert forall|i: int| leaves_anew(o, q, i) implies #[trigger] branch_follows(o, q, i) by {
        assert(branch_follows(o, p, i));
        if let TerminatorView::Branch { cond, .. } = p.blocks[i].terminator {
            let j = choose|j: int|
                emitted(o, p, i, j) && j < p.blocks[i].stmts.len() && assigned(
                    #[trigger] p.blocks[i].stmts[j],
                ) == Some(cond.0);
            assert(emitted(o, q, i, j));
            assert(assigned(q.blocks[i].stmts[j]) == Some(cond.0));
        }
    }
}

/// An operation whose slots exist.
proof fn lemma_assign_orderly(o: Origin, s: Lowering, op: AtomicOp)
    requires
        s.sound(),
        s.assign(op).fits(),
        orderly(o, s),
        codegen::addressable(op),
        op_ready(o, s, op),
    ensures
        orderly(o, s.assign(op)),
        ready(o, s.assign(op), s.tmp()),
        here(o, s.assign(op), s.tmp()),
        extends(s, s.assign(op)),
{
    let t = s.after_scratch();
    let stmt = StmtView::Assign { dest: s.tmp(), op, span: lower_span() };
    lemma_compute(s, op);
    assert(t.builder.program.slot_map == s.assign(op).builder.program.slot_map);
    if o.pure {
        lemma_same_blocks(o, s, t);
    }
    lemma_same_statements(o, s, t);
    lemma_tmp_is_new(o, s, t, op);
    assert forall|v: VarId| #[trigger] reads(op, v) implies ready(o, t, v) && v.0 < s.tmp().0 by {
        assert(ready(o, s, v));
        lemma_ready_kept(o, s, t, v);
    }
    lemma_emit_orderly(o, t, stmt);
    lemma_extends(s, s.assign(op));
    let c = s.assign(op).builder.program.blocks;
    let (at, last) = (
        s.builder.current_block.0 as int,
        s.builder.current().stmts.len() as int,
    );
    assert(emitted(o, s.assign(op).builder.program, at, last));
    assert(assigned(c[at].stmts[last]) == Some(s.tmp().0));
}

/// An operation after the code before it.
proof fn lemma_then_orderly(o: Origin, s1: Lowering, depth: int, op: AtomicOp)
    requires
        s1.sound(),
        orderly(o, s1),
        0 <= depth <= s1.depth,
        s1.at(depth).assign(op).fits(),
        codegen::addressable(op),
        op_ready(o, s1, op),
    ensures
        orderly(o, s1.at(depth).assign(op)),
        ready(o, s1.at(depth).assign(op), s1.tmp()),
        here(o, s1.at(depth).assign(op), s1.tmp()),
{
    lemma_at(s1, depth);
    lemma_same_statements(o, s1, s1.at(depth));
    assert forall|v: VarId| #[trigger] reads(op, v) implies ready(o, s1.at(depth), v) by {
        lemma_ready_kept(o, s1, s1.at(depth), v);
    }
    lemma_assign_orderly(o, s1.at(depth), op);
}

/// A look at a history.
proof fn lemma_look_back_orderly(
    o: Origin,
    s: Lowering,
    module: CirModule,
    var: VarId,
    reach: nat,
    op: spec_fn(u8) -> AtomicOp,
)
    requires
        s.sound(),
        orderly(o, s),
        s.look_back(module, var, reach, op).0.fits(),
        forall|slot: u8| slot + reach <= 255 ==> codegen::addressable(#[trigger] op(slot)),
        forall|slot: u8, v: VarId| !(#[trigger] reads(op(slot), v)),
    ensures
        orderly(o, s.look_back(module, var, reach, op).0),
        ready(
            o,
            s.look_back(module, var, reach, op).0,
            s.look_back(module, var, reach, op).1->Ok_0,
        ),
        here(
            o,
            s.look_back(module, var, reach, op).0,
            s.look_back(module, var, reach, op).1->Ok_0,
        ),
{
    let slot = s.history(module, var);
    let t = s.after_history(module, var).demand(slot + reach <= 255);
    lemma_history(s, module, var);
    assert(t.sound());
    if o.pure {
        lemma_same_blocks(o, s, t);
    }
    lemma_same_statements(o, s, t);
    lemma_assign_orderly(o, t, op(slot));
}

/// The blocks of a conditional.
proof fn lemma_fork_orderly(o: Origin, s: Lowering, cond: VarId)
    requires
        s.sound(),
        orderly(o, s),
        s.fork(cond).fits(),
        o.pure ==> here(o, s, cond),
    ensures
        orderly(o, s.fork(cond)),
{
    let t = s.fork(cond);
    let (p, q) = (s.builder.program, t.builder.program);
    let at = s.builder.current_block.0 as int;
    lemma_fork(s, cond);
    lemma_extends(s, t);
    if o.pure {
        assert forall|i: int| leaves_anew(o, q, i) implies #[trigger] branch_follows(
            o,
            q,
            i,
        ) by {
            if i == at {
                assert(q.blocks[i].stmts =~= p.blocks[i].stmts);
                lemma_assigned_kept(o, s, t, cond, at, p.blocks[at].stmts.len() as int);
            } else if i < p.blocks.len() {
                assert(q.blocks[i] == p.blocks[i]);
                assert(branch_follows(o, p, i));
                if let TerminatorView::Branch { cond: c, .. } = p.blocks[i].terminator {
                    lemma_assigned_kept(o, s, t, c, i, p.blocks[i].stmts.len() as int);
                }
            }
        }
    }
    lemma_same_statements(o, s, t);
}

/// A branch of a conditional ends.
proof fn lemma_hand_over_orderly(
    o: Origin,
    s: Lowering,
    value: VarId,
    slot: u8,
    target: BlockId,
    next: BlockId,
)
    requires
        s.sound(),
        orderly(o, s),
        ready(o, s, value),
        o.pure ==> here(o, s, value),
        next.0 >= o.base.builder.program.blocks.len(),
    ensures
        orderly(o, s.hand_over(value, slot, target, next)),
{
    let stmt = StmtView::Store { src: value, slot, span: lower_span() };
    let (t, u) = (s.emit(stmt), s.hand_over(value, slot, target, next));
    lemma_emit_orderly(o, s, stmt);
    lemma_jump_orderly(o, t, u);
}

/// The current block is left for another one, under no condition.
proof fn lemma_jump_orderly(o: Origin, t: Lowering, u: Lowering)
    requires
        orderly(o, t),
        t.builder.current_block.0 < t.builder.program.blocks.len(),
        table::keys_distinct(t.builder.program.slot_map),
        u.builder.next_var == t.builder.next_var,
        u.var_map == t.var_map,
        u.builder.program.slot_map == t.builder.program.slot_map,
        u.builder.current_block.0 >= o.base.builder.program.blocks.len(),
        u.builder.program.blocks.len() == t.builder.program.blocks.len(),
        ({
            let at = t.builder.current_block.0 as int;
            let (b, c) = (t.builder.program.blocks, u.builder.program.blocks);
            &&& c[at].stmts == b[at].stmts
            &&& c[at].terminator is Jump
            &&& forall|i: int| 0 <= i < b.len() && i != at ==> #[trigger] c[i] == b[i]
        }),
    ensures
        orderly(o, u),
{
    let (p, q) = (t.builder.program, u.builder.program);
    let at = t.builder.current_block.0 as int;
    assert forall|i: int| 0 <= i < q.blocks.len() implies (#[trigger] q.blocks[i]).stmts
        == p.blocks[i].stmts by {}
    if o.pure {
        assert forall|i: int| leaves_anew(o, q, i) implies #[trigger] branch_follows(
            o,
            q,
            i,
        ) by {
            if i != at {
                assert(q.blocks[i] == p.blocks[i]);
                assert(branch_follows(o, p, i));
                if let TerminatorView::Branch { cond, .. } = q.blocks[i].terminator {
                    let j = choose|j: int|
                        emitted(o, p, i, j) && j < p.blocks[i].stmts.len() && assigned(
                            #[trigger] p.blocks[i].stmts[j],
                        ) == Some(cond.0);
                    assert(emitted(o, q, i, j));
                    assert(assigned(q.blocks[i].stmts[j]) == Some(cond.0));
                }
            }
        }
    }
    lemma_same_statements(o, t, u);
}

/// The first branch of a conditional ends.
proof fn lemma_leave_then_orderly(
    o: Origin,
    s: Lowering,
    value: VarId,
    merge: BlockId,
    next: BlockId,
)
    requires
        s.sound(),
        orderly(o, s),
        ready(o, s, value),
        o.pure ==> here(o, s, value),
        next.0 >= o.base.builder.program.blocks.len(),
        s.leave_then(value, merge, next).fits(),
    ensures
        orderly(o, s.leave_then(value, merge, next)),
{
    let set = s.after_out();
    let op = AtomicOp::Const(ConstValue::Bool(true));
    lemma_compute(s, op);
    lemma_assign_orderly(o, s, op);
    lemma_ready_kept(o, s, set, value);
    if o.pure {
        lemma_here_kept(o, s, set, value);
    }
    lemma_hand_over_orderly(o, set, value, s.scratch(), merge, next);
}

/// What was assigned in the current block stays assigned there, while it is current.
proof fn lemma_here_kept(o: Origin, s: Lowering, t: Lowering, v: VarId)
    requires
        extends(s, t),
        t.builder.current_block == s.builder.current_block,
        s.builder.current_block.0 < s.builder.program.blocks.len(),
        here(o, s, v),
    ensures
        here(o, t, v),
{
    let at = s.builder.current_block.0 as int;
    let last = s.builder.current().stmts.len() as int;
    let c = t.builder.program.blocks;
    assert(s.builder.program.blocks[at].stmts.is_prefix_of(c[at].stmts));
    lemma_assigned_kept(o, s, t, v, at, last);
    let j = choose|j: int|
        emitted(o, t.builder.program, at, j) && j < last && assigned(#[trigger] c[at].stmts[j])
            == Some(v.0);
    assert(j < c[at].stmts.len());
}

/// Every variable that the expression reads is among the bound ones.
pub open spec fn is_closed(bound: Seq<VarId>, e: Expr) -> bool
    decreases e,
{
    match e {
        Expr::Var(v) => bound.contains(v),
        Expr::Unary { op, operand, ty } => is_closed(bound, *operand),
        Expr::Binary { op, left, right, ty } => is_closed(bound, *left) && is_closed(
            bound,
            *right,
        ),
        Expr::If { cond, then_branch, else_branch, ty } => is_closed(bound, *cond) && is_closed(
            bound,
            *then_branch,
        ) && is_closed(bound, *else_branch),
        Expr::Forall { var, domain, body, ty } => is_closed(bound.push(var), *body),
        Expr::Exists { var, domain, body, ty } => is_closed(bound.push(var), *body),
        Expr::Always(inner, ty) => is_closed(bound, *inner),
        Expr::Eventually(inner, ty) => is_closed(bound, *inner),
        Expr::Next(inner, ty) => is_closed(bound, *inner),
        Expr::Until { left, right, ty } => is_closed(bound, *left) && is_closed(bound, *right),
        Expr::Since { left, right, ty } => is_closed(bound, *left) && is_closed(bound, *right),
        Expr::For { duration, body, ty } => is_closed(bound, *body),
        Expr::After { duration, body, ty } => is_closed(bound, *body),
        _ => true,
    }
}

/// A bound variable has a value.
proof fn lemma_bound_has_value(bound: Seq<(VarId, i64)>, v: VarId)
    requires
        bound_vars(bound).contains(v),
    ensures
        bound_value(bound, v) is Some,
    decreases bound.len(),
{
    let i = choose|i: int| 0 <= i < bound_vars(bound).len() && bound_vars(bound)[i] == v;
    if bound.last().0 != v {
        let front = bound.drop_last();
        assert(bound_vars(front)[i] == v);
        assert(bound_vars(front).contains(v));
        lemma_bound_has_value(front, v);
    }
}

/// The variables that are bound for an instance.
pub open spec fn bound_for(scope: Scope, over: Over) -> Seq<VarId> {
    match over {
        Over::Members(var, domain) => bound_vars(scope.bound).push(var),
        Over::Samples => bound_vars(scope.bound),
    }
}

/// The instances of a body bind one more variable, or read another sample.
proof fn lemma_bound_for(scope: Scope, over: Over, i: nat)
    ensures
        bound_vars(scope.instance(over, i).bound) == bound_for(scope, over),
{
    assert(bound_vars(scope.instance(over, i).bound) =~= bound_for(scope, over));
}

/// What lowering a step does: the code stays in order, and the result is ready.
pub open spec fn orderly_step(o: Origin, step: Step) -> bool {
    &&& orderly(o, step.0)
    &&& step.1 matches Ok(v) ==> {
        &&& ready(o, step.0, v)
        &&& o.pure ==> here(o, step.0, v)
    }
}

/// Lowered code reads only slots that exist.
#[verifier::rlimit(40)]
pub proof fn lemma_lower_orderly(o: Origin, s: Lowering, module: CirModule, scope: Scope, e: Expr)
    requires
        s.sound(),
        orderly(o, s),
        o.pure ==> is_closed(bound_vars(scope.bound), e),
        lower(s, module, scope, e).0.fits(),
    ensures
        orderly_step(o, lower(s, module, scope, e)),
    decreases e, 1nat,
{
    match e {
        Expr::Const(c) => lemma_assign_orderly(o, s, AtomicOp::Const(c)),
        Expr::Var(v) => match bound_value(scope.bound, v) {
            Some(x) => lemma_assign_orderly(o, s, AtomicOp::Const(ConstValue::Integer(x))),
            None => if o.pure {
                lemma_bound_has_value(scope.bound, v);
            } else if forgotten(module, scope, v, scope.age) {
            } else if scope.age == 0 {
                lemma_map(s, module, v);
                lemma_same_statements(o, s, s.after_map(module, v));
                let t = s.after_map(module, v);
                table::lemma_place_of(t.var_map, v.0);
                assert(t.var_map[table::place_of(t.var_map, v.0)].1 == s.mapped(v));
            } else {
                lemma_look_back_orderly(
                    o,
                    s,
                    module,
                    v,
                    scope.age,
                    |slot: u8| AtomicOp::Old { buffer: slot, depth: scope.age as usize },
                );
            },
        },
        Expr::Unary { op, operand, ty } => {
            let (s1, r1) = lower(s, module, scope, *operand);
            lemma_lower(s, module, scope, *operand);
            lemma_lower_orderly(o, s, module, scope, *operand);
            if let Ok(v) = r1 {
                lemma_then_orderly(o, s1, s.depth, unary_op(op, v));
            }
        },
        Expr::Binary { op, left, right, ty } => lemma_both_orderly(
            o,
            s,
            module,
            scope,
            e,
            op,
            *left,
            *right,
        ),
        Expr::Until { left, right, ty } => lemma_both_orderly(
            o,
            s,
            module,
            scope,
            e,
            BinOp::Or,
            *left,
            *right,
        ),
        Expr::Since { left, right, ty } => lemma_both_orderly(
            o,
            s,
            module,
            scope,
            e,
            BinOp::And,
            *left,
            *right,
        ),
        Expr::If { .. } => lemma_if_orderly(o, s, module, scope, e),
        Expr::Forall { var, domain, body, ty } => lemma_concluded_orderly(
            o,
            s,
            module,
            scope,
            Over::Members(var, domain),
            *body,
            true,
            domain.size(),
        ),
        Expr::Exists { var, domain, body, ty } => lemma_concluded_orderly(
            o,
            s,
            module,
            scope,
            Over::Members(var, domain),
            *body,
            false,
            domain.size(),
        ),
        Expr::Always(inner, ty) => lemma_concluded_orderly(
            o,
            s,
            module,
            scope,
            Over::Samples,
            *inner,
            true,
            samples(module, scope, *inner),
        ),
        Expr::Eventually(inner, ty) => lemma_concluded_orderly(
            o,
            s,
            module,
            scope,
            Over::Samples,
            *inner,
            false,
            samples(module, scope, *inner),
        ),
        Expr::For { duration, body, ty } => lemma_concluded_orderly(
            o,
            s,
            module,
            scope,
            Over::Samples,
            *body,
            true,
            duration as nat,
        ),
        Expr::Next(inner, ty) => lemma_lower_orderly(o, s, module, scope, *inner),
        Expr::After { duration, body, ty } => lemma_lower_orderly(o, s, module, scope, *body),
        Expr::Old(v, ty) => if !forgotten(module, scope, v, scope.age + 1) {
            lemma_look_back_orderly(
                o,
                s,
                module,
                v,
                scope.age + 1,
                |slot: u8| AtomicOp::Old { buffer: slot, depth: (scope.age + 1) as usize },
            );
        },
        Expr::RateOf(v, ty) => if !forgotten(module, scope, v, scope.age + 1) {
            lemma_look_back_orderly(
                o,
                s,
                module,
                v,
                scope.age + 1,
                |slot: u8|
                    AtomicOp::RateOf {
                        buffer: (slot + scope.age) as u8,
                        dt: binary64::real_thousandth(module.sample_period_ms),
                    },
            );
        },
        Expr::Delta(v, ty) => if !forgotten(module, scope, v, scope.age + 1) {
            lemma_look_back_orderly(
                o,
                s,
                module,
                v,
                scope.age + 1,
                |slot: u8| AtomicOp::Delta { buffer: (slot + scope.age) as u8 },
            );
        },
        Expr::Index { .. } => {},
        Expr::Field { .. } => {},
    }
}

/// [`lemma_lower_orderly`] for two operands.
proof fn lemma_both_orderly(
    o: Origin,
    s: Lowering,
    module: CirModule,
    scope: Scope,
    e: Expr,
    op: BinOp,
    left: Expr,
    right: Expr,
)
    requires
        decreases_to!(e => left),
        decreases_to!(e => right),
        o.pure ==> is_closed(bound_vars(scope.bound), left) && is_closed(
            bound_vars(scope.bound),
            right,
        ),
        s.sound(),
        orderly(o, s),
        ({
            let (s1, r1) = lower(s, module, scope, left);
            match r1 {
                Ok(l) => on_both(s.depth, op, l, lower(s1, module, scope, right)).0.fits(),
                Err(_) => s1.fits(),
            }
        }),
    ensures
        ({
            let (s1, r1) = lower(s, module, scope, left);
            match r1 {
                Ok(l) => orderly_step(
                    o,
                    on_both(s.depth, op, l, lower(s1, module, scope, right)),
                ),
                Err(_) => orderly(o, s1),
            }
        }),
    decreases e, 0nat,
{
    let (s1, r1) = lower(s, module, scope, left);
    lemma_lower_grows(s1, module, scope, right);
    if let Ok(l) = r1 {
        let (s2, r2) = lower(s1, module, scope, right);
        lemma_lower(s, module, scope, left);
        lemma_lower_orderly(o, s, module, scope, left);
        lemma_lower(s1, module, scope, right);
        lemma_lower_orderly(o, s1, module, scope, right);
        if let Ok(r) = r2 {
            lemma_extends(s1, s2);
            lemma_ready_kept(o, s1, s2, l);
            lemma_then_orderly(o, s2, s.depth, binary_op(op, l, r));
        }
    } else {
        lemma_lower_orderly(o, s, module, scope, left);
    }
}

/// [`lemma_lower_orderly`] for a conditional.
proof fn lemma_if_orderly(o: Origin, s: Lowering, module: CirModule, scope: Scope, e: Expr)
    requires
        e is If,
        o.pure ==> is_closed(bound_vars(scope.bound), e),
        s.sound(),
        orderly(o, s),
        lower(s, module, scope, e).0.fits(),
    ensures
        orderly_step(o, lower(s, module, scope, e)),
    decreases e, 0nat,
{
    if let Expr::If { cond, then_branch, else_branch, ty } = e {
        let (s1, r1) = lower(s, module, scope, *cond);
        if let Ok(c) = r1 {
            let s0 = s1.at(s.depth);
            let fork = s0.fork(c);
            let (s2, r2) = lower(fork, module, scope, *then_branch);
            let (otherwise, merge) = (s1.block_ahead(1), s1.block_ahead(2));
            lemma_lower_grows(fork, module, scope, *then_branch);
            let s3 = s2.leave_then(r2->Ok_0, merge, otherwise);
            let s3a = s3.at(s.depth);
            if r2 is Ok {
                lemma_lower_grows(s3a, module, scope, *else_branch);
            }
            lemma_lower(s, module, scope, *cond);
            lemma_lower_orderly(o, s, module, scope, *cond);
            lemma_at(s1, s.depth);
            lemma_same_statements(o, s1, s0);
            lemma_fork(s0, c);
            lemma_fork_orderly(o, s0, c);
            lemma_lower(fork, module, scope, *then_branch);
            lemma_lower_orderly(o, fork, module, scope, *then_branch);
            if let Ok(t) = r2 {
                let (s4, r4) = lower(s3a, module, scope, *else_branch);
                let slot = s2.scratch();
                lemma_leads_to_transitive(s0, fork, s2);
                lemma_leave_then(s0, s2, t, merge, otherwise);
                lemma_leave_then_orderly(o, s2, t, merge, otherwise);
                lemma_at(s3, s.depth);
                lemma_same_statements(o, s3, s3a);
                lemma_leads_to_transitive(s0, s3, s3a);
                lemma_lower(s3a, module, scope, *else_branch);
                lemma_lower_orderly(o, s3a, module, scope, *else_branch);
                lemma_leads_to_transitive(s0, s3a, s4);
                if let Ok(f) = r4 {
                    lemma_hand_over(s0, s4, f, slot, merge, merge);
                    lemma_hand_over_orderly(o, s4, f, slot, merge, merge);
                    lemma_then_orderly(
                        o,
                        s4.hand_over(f, slot, merge, merge),
                        s.depth,
                        AtomicOp::LoadSlot(slot),
                    );
                }
            }
        } else {
            lemma_lower_orderly(o, s, module, scope, *cond);
        }
    }
}

/// [`lemma_lower_orderly`] for joined instances.
proof fn lemma_concluded_orderly(
    o: Origin,
    s: Lowering,
    module: CirModule,
    scope: Scope,
    over: Over,
    body: Expr,
    all: bool,
    n: nat,
)
    requires
        o.pure ==> is_closed(bound_for(scope, over), body),
        s.sound(),
        orderly(o, s),
        conclude(copies(s, module, scope, over, body, all, n), all).0.fits(),
    ensures
        orderly_step(o, conclude(copies(s, module, scope, over, body, all, n), all)),
    decreases body, n + 3,
{
    lemma_copies(s, module, scope, over, body, all, n);
    lemma_copies_orderly(o, s, module, scope, over, body, all, n);
    let (s1, r1) = copies(s, module, scope, over, body, all, n);
    if r1 matches Ok(None) {
        lemma_assign_orderly(o, s1, AtomicOp::Const(ConstValue::Bool(all)));
    }
}

/// [`lemma_lower_orderly`] for instances of a body.
proof fn lemma_copies_orderly(
    o: Origin,
    s: Lowering,
    module: CirModule,
    scope: Scope,
    over: Over,
    body: Expr,
    all: bool,
    n: nat,
)
    requires
        o.pure ==> is_closed(bound_for(scope, over), body),
        s.sound(),
        orderly(o, s),
        copies(s, module, scope, over, body, all, n).0.fits(),
    ensures
        orderly(o, copies(s, module, scope, over, body, all, n).0),
        copies(s, module, scope, over, body, all, n).1 matches Ok(Some(v)) ==> {
            &&& ready(o, copies(s, module, scope, over, body, all, n).0, v)
            &&& o.pure ==> here(o, copies(s, module, scope, over, body, all, n).0, v)
        },
    decreases body, n + 2,
{
    if n > 0 {
        let one_less = (n - 1) as nat;
        let (s1, r1) = copies(s, module, scope, over, body, all, one_less);
        lemma_copies_grow(s, module, scope, over, body, all, one_less, n);
        lemma_copies(s, module, scope, over, body, all, one_less);
        lemma_copies_orderly(o, s, module, scope, over, body, all, one_less);
        if let Ok(joined) = r1 {
            let inner = scope.instance(over, one_less);
            let s0 = s1.demand(inner.age <= u32::MAX);
            let (s2, r2) = lower(s0, module, inner, body);
            lemma_lower_grows(s0, module, inner, body);
            assert(s0 == s1);
            lemma_bound_for(scope, over, one_less);
            lemma_lower(s1, module, inner, body);
            lemma_lower_orderly(o, s1, module, inner, body);
            if let Ok(v) = r2 {
                if let Some(previous) = joined {
                    lemma_extends(s1, s2);
                    lemma_ready_kept(o, s1, s2, previous);
                    lemma_then_orderly(o, s2, s.depth, join_op(all, previous, v));
                }
            }
        }
    }
}

/// The preparation reads no history.
proof fn lemma_preparation_orderly(o: Origin, s: Lowering, module: CirModule, n: nat)
    requires
        !o.pure,
        o.base.builder.program.blocks.len() == 1,
        in_entry(s),
        orderly(o, s),
    ensures
        map_all(s, module, n).fits() ==> orderly(o, map_all(s, module, n)),
        place_buffers(s, module, n).fits() ==> orderly(o, place_buffers(s, module, n)),
        place_constants(s, module, n).fits() ==> orderly(o, place_constants(s, module, n)),
    decreases n,
{
    if n > 0 {
        let k = (n - 1) as nat;
        lemma_preparation_grows(s, module, k, n);
        lemma_preparation(s, module, k);
        lemma_preparation_orderly(o, s, module, k);
        if map_all(s, module, n).fits() {
            lemma_map(
                map_all(s, module, k),
                module,
                VarId(module.symbol_table.vars@[n - 1].0),
            );
            lemma_same_statements(o, map_all(s, module, k), map_all(s, module, n));
        }
        if place_buffers(s, module, n).fits() {
            lemma_same_statements(o, place_buffers(s, module, k), place_buffers(s, module, n));
        }
        let (id, info) = module.symbol_table.vars@[n - 1];
        if place_constants(s, module, n).fits() && info.kind is Constant {
            let t = place_constants(s, module, k);
            let later = t.after_map(module, VarId(id));
            lemma_map(t, module, VarId(id));
            lemma_same_statements(o, t, later);
            table::lemma_place_of(later.var_map, id);
            assert(later.var_map[table::place_of(later.var_map, id)].1 == t.mapped(VarId(id)));
            lemma_emit_orderly(
                o,
                later,
                StmtView::Store {
                    src: t.mapped(VarId(id)),
                    slot: later.slot(t.mapped(VarId(id))),
                    span: init_span(),
                },
            );
        }
    }
}

/// A check reads only slots that exist.
proof fn lemma_check_orderly(o: Origin, s: Lowering, module: CirModule, inv: CirInvariant)
    requires
        !o.pure,
        s.sound(),
        orderly(o, s),
        lower_check(s, module, inv).0.fits(),
    ensures
        orderly(o, lower_check(s, module, inv).0),
{
    lemma_check_grows(s, module, inv);
    let (s1, r1) = guard(s, module, inv);
    if let Some(when) = inv.when {
        lemma_lower(s, module, Scope::top(), when);
        lemma_lower_orderly(o, s, module, Scope::top(), when);
    }
    if let Ok(cond) = r1 {
        let s0 = s1.at(s.depth);
        let opened = s0.open_check(inv.name@, cond);
        lemma_at(s1, s.depth);
        lemma_open_check(s0, inv.name@, cond);
        lemma_same_statements(o, s1, opened);
        let (s2, r2) = lower(opened, module, Scope::top(), inv.ensure);
        lemma_lower(opened, module, Scope::top(), inv.ensure);
        lemma_lower_orderly(o, opened, module, Scope::top(), inv.ensure);
        if let Ok(holds) = r2 {
            let stmt = StmtView::Assert {
                cond: holds,
                invariant_name: inv.name@,
                span: inv.source_span@,
            };
            lemma_emit_orderly(o, s2, stmt);
            lemma_same_statements(
                o,
                s2.emit(stmt),
                s2.close_check(inv, holds, s1.block_ahead(1)).at(s.depth),
            );
        }
    }
}

/// The checks read only slots that exist.
proof fn lemma_checks_orderly(
    o: Origin,
    s: Lowering,
    module: CirModule,
    invariants: Seq<CirInvariant>,
    n: nat,
)
    requires
        !o.pure,
        s.sound(),
        orderly(o, s),
        lower_checks(s, module, invariants, n).0.fits(),
    ensures
        orderly(o, lower_checks(s, module, invariants, n).0),
    decreases n,
{
    if n > 0 {
        let (s1, r1) = lower_checks(s, module, invariants, (n - 1) as nat);
        lemma_checks_grow(s, module, invariants, (n - 1) as nat, n);
        lemma_checks(s, module, invariants, (n - 1) as nat);
        lemma_checks_orderly(o, s, module, invariants, (n - 1) as nat);
        if r1 is Ok {
            lemma_check_orderly(o, s1, module, invariants[n - 1]);
        }
    }
}

/// Everything is since the start.
pub open spec fn since_start(module: CirModule) -> Origin {
    Origin { base: Lowering::new(module.name@, module.version@), pure: false }
}

/// The last state of lowering a module is in order.
#[verifier::rlimit(60)]
#[verifier::spinoff_prover]
proof fn lemma_module_orderly(module: CirModule)
    requires
        lower_all(module).0.fits(),
        lower_all(module).1 is Ok,
    ensures
        orderly(since_start(module), lower_all(module).0),
{
    let start = Lowering::new(module.name@, module.version@);
    let o = since_start(module);
    let n = module.invariants@.len();
    lemma_module_grows(module);
    lemma_module(module);
    assert(orderly(o, start));
    lemma_preparation_orderly(o, start, module, module.symbol_table.vars@.len());
    lemma_preparation_orderly(o, mapped_all(module), module, module.symbol_table.buffers@.len());
    lemma_preparation_orderly(o, placed_all(module), module, module.symbol_table.vars@.len());
    let s = prepared(module);
    let entered = s.enter_loop();
    lemma_enter_loop(s);
    // The head of the loop has one statement, which reads nothing.
    let trace = StmtView::Trace { label: "constraint_loop"@, span: lower_span() };
    let opened = s.with(
        s.builder.after_block("loop_head"@).after_block("loop_body"@).after_block(
            "loop_exit"@,
        ).terminate(TerminatorView::Jump(s.block_ahead(0))).switch(s.block_ahead(0)),
    );
    lemma_same_statements(o, s, opened);
    lemma_emit_orderly(o, opened, trace);
    lemma_same_statements(o, opened.emit(trace), entered);
    lemma_checks(entered, module, module.invariants@, n);
    lemma_checks_orderly(o, entered, module, module.invariants@, n);
    let s1 = lower_checks(entered, module, module.invariants@, n).0;
    lemma_same_statements(o, s1, s1.close_loop(s.block_ahead(0), s.block_ahead(2)));
}

/// In a program that was lowered from the start every statement is since then.
proof fn lemma_all_emitted(module: CirModule, p: ProgramView, i: int, j: int)
    requires
        0 <= i < p.blocks.len(),
        0 <= j < p.blocks[i].stmts.len(),
    ensures
        emitted(since_start(module), p, i, j),
{
}

/// A lowered program reads only slots that exist, so code can be generated for
/// it, and no two of its statements assign the same variable.
pub proof fn law_lowered_program_is_orderly(module: CirModule)
    requires
        lower_all(module).0.fits(),
        lower_all(module).1 is Ok,
    ensures
        codegen::all_addressable(lower_all(module).1->Ok_0),
        ({
            let p = lower_all(module).1->Ok_0;
            forall|i: int, j: int, k: int, l: int|
                0 <= i < p.blocks.len() && 0 <= j < p.blocks[i].stmts.len() && 0 <= k
                    < p.blocks.len() && 0 <= l < p.blocks[k].stmts.len() && assigned(
                    #[trigger] p.blocks[i].stmts[j],
                ) is Some && assigned(p.blocks[i].stmts[j]) == assigned(
                    #[trigger] p.blocks[k].stmts[l],
                ) ==> i == k && j == l
        }),
{
    lemma_module_orderly(module);
    let p = lower_all(module).1->Ok_0;
    assert forall|i: int, j: int|
        0 <= i < p.blocks.len() && 0 <= j
            < p.blocks[i].stmts.len() implies codegen::stmt_addressable(
        #[trigger] p.blocks[i].stmts[j],
    ) by {
        lemma_all_emitted(module, p, i, j);
    }
}

/// A lowered program reads only variables that have a value: an operand of an
/// operation has its slot, it was given out before the variable that the result
/// goes to, and it is that of a CIR variable or a statement of the program
/// assigns it.
pub proof fn law_operands_have_values(module: CirModule, i: int, j: int, v: VarId)
    requires
        lower_all(module).0.fits(),
        lower_all(module).1 is Ok,
        0 <= i < lower_all(module).1->Ok_0.blocks.len(),
        0 <= j < lower_all(module).1->Ok_0.blocks[i].stmts.len(),
        lower_all(module).1->Ok_0.blocks[i].stmts[j] is Assign,
        reads(lower_all(module).1->Ok_0.blocks[i].stmts[j]->Assign_op, v),
    ensures
        ({
            let p = lower_all(module).1->Ok_0;
            &&& v.0 < p.blocks[i].stmts[j]->Assign_dest.0
            &&& table::lookup(p.slot_map, v.0) is Some
            &&& is_mapped(lower_all(module).0, v) || is_assigned(since_start(module), p, v)
        }),
{
    lemma_module_orderly(module);
    let s = lower_all(module).0;
    lemma_all_emitted(module, s.builder.program, i, j);
    assert(grounded(since_start(module), s, s.builder.program.blocks[i].stmts[j]));
}

/// What a lowered program stores or checks has its slot and a value.
pub proof fn law_checked_variables_have_values(module: CirModule, i: int, j: int)
    requires
        lower_all(module).0.fits(),
        lower_all(module).1 is Ok,
        0 <= i < lower_all(module).1->Ok_0.blocks.len(),
        0 <= j < lower_all(module).1->Ok_0.blocks[i].stmts.len(),
    ensures
        ({
            let p = lower_all(module).1->Ok_0;
            let o = since_start(module);
            match p.blocks[i].stmts[j] {
                StmtView::Store { src, slot, span } => ready(o, lower_all(module).0, src),
                StmtView::Assert { cond, invariant_name, span } => ready(
                    o,
                    lower_all(module).0,
                    cond,
                ),
                _ => true,
            }
        }),
{
    lemma_module_orderly(module);
    let s = lower_all(module).0;
    lemma_all_emitted(module, s.builder.program, i, j);
    assert(grounded(since_start(module), s, s.builder.program.blocks[i].stmts[j]));
}

/// What comes after the state and reads nothing from before it.
pub open spec fn since(s: Lowering) -> Origin {
    Origin { base: s, pure: true }
}

/// What was emitted in the place is made of results of the same call: an operation
/// goes to a new variable and reads only variables that were assigned since the
/// call began, with smaller numbers, which count up along a block; what is stored
/// was assigned before it in the same block.
pub open spec fn own_statement(s: Lowering, p: ProgramView, i: int, j: int) -> bool {
    match p.blocks[i].stmts[j] {
        StmtView::Assign { dest, op, span } => {
            &&& s.builder.next_var <= dest.0
            &&& forall|v: VarId| #[trigger]
                reads(op, v) ==> is_assigned(since(s), p, v) && v.0 < dest.0
        },
        StmtView::Store { src, slot, span } => is_assigned_in(since(s), p, src, i, j),
        StmtView::Assert { .. } => false,
        _ => true,
    }
}

/// The code of an expression that reads no variable, but for those that its
/// quantifiers bind, is made of its own results: what a statement reads, and what is
/// branched on, was assigned earlier by the same call. Nothing is assigned twice.
/// The result is among what was assigned, and its number is new: no earlier call can
/// have returned it.
pub proof fn law_code_is_made_of_its_own_results(s: Lowering, module: CirModule, e: Expr)
    requires
        s.sound(),
        is_closed(Seq::empty(), e),
        lower(s, module, Scope::top(), e).0.fits(),
        lower(s, module, Scope::top(), e).1 is Ok,
    ensures
        ({
            let p = lower(s, module, Scope::top(), e).0.builder.program;
            let v = lower(s, module, Scope::top(), e).1->Ok_0;
            &&& 1000 <= s.builder.next_var <= v.0
            &&& is_assigned(since(s), p, v)
            &&& forall|i: int, j: int|
                emitted(since(s), p, i, j) ==> #[trigger] own_statement(s, p, i, j)
            &&& assigned_once(since(s), p)
            &&& counts_up(since(s), p)
            &&& ways(since(s), p)
        }),
{
    let o = since(s);
    let (t, r) = lower(s, module, Scope::top(), e);
    let p = t.builder.program;
    let v = r->Ok_0;
    assert(bound_vars(Scope::top().bound) =~= Seq::empty());
    assert(orderly(o, s)) by {
        assert forall|i: int| leaves_anew(o, s.builder.program, i) implies #[trigger]
            branch_follows(o, s.builder.program, i) by {}
    }
    lemma_lower_orderly(o, s, module, Scope::top(), e);
    assert forall|i: int, j: int| emitted(o, p, i, j) implies #[trigger] own_statement(
        s,
        p,
        i,
        j,
    ) by {
        let stmt = p.blocks[i].stmts[j];
        assert(grounded(o, t, stmt));
        assert(follows(o, p, i, j));
    }
    let (i, j) = choose|i: int, j: int|
        emitted(o, p, i, j) && assigned(#[trigger] p.blocks[i].stmts[j]) == Some(v.0);
    assert(assigned(p.blocks[i].stmts[j]) == Some(v.0));
}

/// A check of the invariant is there, and what it checks is in the slot.
pub open spec fn checked_in(p: ProgramView, inv: CirInvariant, slot: u8) -> bool {
    exists|i: int, j: int|
        0 <= i < p.blocks.len() && 0 <= j < p.blocks[i].stmts.len() && checks(
            #[trigger] p.blocks[i].stmts[j],
            p.slot_map,
            inv,
            slot,
        )
}

/// The statement checks the invariant, and what it checks is in the slot.
pub open spec fn checks(
    stmt: StmtView,
    slot_map: Seq<(u32, u8)>,
    inv: CirInvariant,
    slot: u8,
) -> bool {
    match stmt {
        StmtView::Assert { cond, invariant_name, span } => {
            &&& invariant_name == inv.name@
            &&& span == inv.source_span@
            &&& table::lookup(slot_map, cond.0) == Some(slot)
        },
        _ => false,
    }
}

/// A check that is there stays there.
proof fn lemma_check_kept(s: Lowering, t: Lowering, inv: CirInvariant, slot: u8)
    requires
        s.leads_to(t),
        t.sound(),
        checked_in(s.builder.program, inv, slot),
    ensures
        checked_in(t.builder.program, inv, slot),
{
    let (p, q) = (s.builder.program, t.builder.program);
    lemma_extends(s, t);
    let (i, j) = choose|i: int, j: int|
        0 <= i < p.blocks.len() && 0 <= j < p.blocks[i].stmts.len() && checks(
            #[trigger] p.blocks[i].stmts[j],
            p.slot_map,
            inv,
            slot,
        );
    let stmt = p.blocks[i].stmts[j];
    assert(p.blocks[i].stmts.is_prefix_of(q.blocks[i].stmts));
    assert(q.blocks[i].stmts[j] == stmt);
    table::lemma_lookup_prefix(p.slot_map, q.slot_map, stmt->Assert_cond.0);
    assert(checks(q.blocks[i].stmts[j], q.slot_map, inv, slot));
}

/// The checks of the first `n` invariants are there, where it is noted.
proof fn lemma_checks_in_place(
    s: Lowering,
    module: CirModule,
    invariants: Seq<CirInvariant>,
    n: nat,
)
    requires
        s.sound(),
        s.builder.program.invariant_metadata.len() == 0,
        lower_checks(s, module, invariants, n).0.fits(),
        lower_checks(s, module, invariants, n).1 is Ok,
        n <= invariants.len(),
    ensures
        ({
            let t = lower_checks(s, module, invariants, n).0;
            let noted = t.builder.program.invariant_metadata;
            &&& noted.len() == n
            &&& forall|i: int|
                0 <= i < n ==> checked_in(
                    t.builder.program,
                    invariants[i],
                    (#[trigger] noted[i]).assert_slot,
                )
        }),
    decreases n,
{
    if n > 0 {
        let before = (n - 1) as nat;
        let s1 = lower_checks(s, module, invariants, before).0;
        let inv = invariants[n - 1];
        let t = lower_checks(s, module, invariants, n).0;
        lemma_checks_grow(s, module, invariants, before, n);
        lemma_checks(s, module, invariants, before);
        lemma_checks_in_place(s, module, invariants, before);
        lemma_check(s1, module, inv);
        lemma_check_grows(s1, module, inv);
        let (g, r) = guard(s1, module, inv);
        if let Some(when) = inv.when {
            lemma_lower(s1, module, Scope::top(), when);
        }
        let s0 = g.at(s1.depth);
        let opened = s0.open_check(inv.name@, r->Ok_0);
        lemma_at(g, s1.depth);
        lemma_open_check(s0, inv.name@, r->Ok_0);
        let (s2, r2) = lower(opened, module, Scope::top(), inv.ensure);
        lemma_lower_grows(opened, module, Scope::top(), inv.ensure);
        lemma_lower(opened, module, Scope::top(), inv.ensure);
        let holds = r2->Ok_0;
        let at = s2.builder.current_block.0 as int;
        let last = s2.builder.current().stmts.len() as int;
        assert(t == s2.close_check(inv, holds, g.block_ahead(1)).at(s1.depth));
        let stmt = t.builder.program.blocks[at].stmts[last];
        assert(stmt == StmtView::Assert {
            cond: holds,
            invariant_name: inv.name@,
            span: inv.source_span@,
        });
        let noted = t.builder.program.invariant_metadata;
        assert(noted == s1.builder.program.invariant_metadata.push(
            meta_of(inv, s2.slot(holds)),
        ));
        assert(checks(stmt, t.builder.program.slot_map, inv, s2.slot(holds)));
        assert forall|i: int| 0 <= i < n implies checked_in(
            t.builder.program,
            invariants[i],
            (#[trigger] noted[i]).assert_slot,
        ) by {
            if i < before {
                let slot = s1.builder.program.invariant_metadata[i].assert_slot;
                assert(checked_in(s1.builder.program, invariants[i], slot));
                lemma_check_kept(s1, t, invariants[i], slot);
            }
        }
    }
}

/// What is noted of an invariant names the slot with the result of its check: there is
/// a check under the name of the invariant and at its place in the source, and what
/// it checks is in that slot.
pub proof fn law_noted_slots_hold_the_results(module: CirModule, i: int)
    requires
        lower_all(module).0.fits(),
        lower_all(module).1 is Ok,
        0 <= i < module.invariants@.len(),
    ensures
        ({
            let p = lower_all(module).1->Ok_0;
            &&& p.invariant_metadata.len() == module.invariants@.len()
            &&& checked_in(p, module.invariants@[i], p.invariant_metadata[i].assert_slot)
        }),
{
    let n = module.invariants@.len();
    let s = prepared(module);
    lemma_module_grows(module);
    lemma_module(module);
    lemma_enter_loop(s);
    lemma_checks(s.enter_loop(), module, module.invariants@, n);
    lemma_checks_in_place(s.enter_loop(), module, module.invariants@, n);
    let t = lower_checks(s.enter_loop(), module, module.invariants@, n).0;
    let (p, q) = (t.builder.program, lower_all(module).1->Ok_0);
    let inv = module.invariants@[i];
    let slot = p.invariant_metadata[i].assert_slot;
    assert(checked_in(p, inv, slot));
    let (b, j) = choose|b: int, j: int|
        0 <= b < p.blocks.len() && 0 <= j < p.blocks[b].stmts.len() && checks(
            #[trigger] p.blocks[b].stmts[j],
            p.slot_map,
            inv,
            slot,
        );
    assert(q.blocks[b].stmts == p.blocks[b].stmts);
    assert(checks(q.blocks[b].stmts[j], q.slot_map, inv, slot));
}

} // verus!
