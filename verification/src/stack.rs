//! What bytecode does on a stack machine with memory slots, and that the bytecode
//! of a program does what the program does.
//!
//! The machine is the one that code is generated for: `Load` and `Store` name
//! slots of its memory, `Branch` is taken where the condition is false, and `Cast`
//! changes how a number is kept, not the number. The `ConstraintVM` of `flux-isa`
//! is another one: it has no memory, its `Load` pushes the operand, and its `Branch`
//! is taken where the condition is true.

use crate::binary64;
use crate::binary64::Real;
use crate::cir::BinOp;
use crate::cir::CirModule;
use crate::cir::ConstValue;
use crate::cir::UnOp;
use crate::cir::VarId;
use crate::codegen;
use crate::cycle;
use crate::flux::InstructionView;
use crate::flux::Opcode;
use crate::lcir;
use crate::lcir::AtomicOp;
use crate::lcir::BlockId;
use crate::lcir::ProgramView;
use crate::lcir::StmtView;
use crate::lcir::TerminatorView;
use crate::lowering;
use crate::meaning;
use crate::meaning::Arithmetic;
use crate::meaning::Machine;
use crate::meaning::Readings;
use crate::table;
use vstd::prelude::*;

verus! {

/// What a machine holds: the memory slots, the stack, whose top is its last
/// value, and what was checked.
#[verifier::ext_equal]
#[verifier::reject_recursive_types(V)]
pub struct Memory<V> {
    pub slots: Map<u8, V>,
    pub stack: Seq<V>,
    pub checks: Seq<(Seq<char>, V)>,
}

/// A stack machine before the instruction with the number `at`.
#[verifier::ext_equal]
#[verifier::reject_recursive_types(V)]
pub struct Vm<V> {
    pub at: int,
    pub memory: Memory<V>,
}

impl<V> Memory<V> {
    /// With a value on top of the stack.
    pub open spec fn pushed(self, x: V) -> Memory<V> {
        Memory { stack: self.stack.push(x), ..self }
    }

    /// Without the top of the stack.
    pub open spec fn popped(self) -> Memory<V> {
        Memory { stack: self.stack.drop_last(), ..self }
    }
}

/// The binary operation of an instruction that takes two values.
pub open spec fn binary_of(op: Opcode) -> Option<BinOp> {
    match op {
        Opcode::Add => Some(BinOp::Add),
        Opcode::Sub => Some(BinOp::Sub),
        Opcode::Mul => Some(BinOp::Mul),
        Opcode::Div => Some(BinOp::Div),
        Opcode::Mod => Some(BinOp::Mod),
        Opcode::And => Some(BinOp::And),
        Opcode::Or => Some(BinOp::Or),
        Opcode::Eq => Some(BinOp::Eq),
        Opcode::Neq => Some(BinOp::Neq),
        Opcode::Lt => Some(BinOp::Lt),
        Opcode::Gt => Some(BinOp::Gt),
        Opcode::Lte => Some(BinOp::Lte),
        Opcode::Gte => Some(BinOp::Gte),
        _ => None,
    }
}

/// The slot that an instruction names.
pub open spec fn slot_named(inst: InstructionView) -> u8 {
    binary64::real_to_index(inst.operands[0]) as u8
}

/// After an instruction that loads, stores, pushes, computes or checks.
pub open spec fn after<V>(m: Arithmetic<V>, f: Memory<V>, inst: InstructionView) -> Memory<V> {
    let stack = f.stack;
    match binary_of(inst.opcode) {
        Some(op) => Memory {
            stack: stack.take(stack.len() - 2).push(
                (m.binary)(op, stack[stack.len() - 2], stack[stack.len() - 1]),
            ),
            ..f
        },
        None => match inst.opcode {
            Opcode::Load => f.pushed(f.slots[slot_named(inst)]),
            Opcode::Store => Memory {
                slots: f.slots.insert(slot_named(inst), stack.last()),
                ..f.popped()
            },
            Opcode::Push => Memory {
                stack: stack + inst.operands.map_values(|r: Real| (m.real)(r)),
                ..f
            },
            Opcode::Pop => f.popped(),
            Opcode::Not => f.popped().pushed((m.unary)(UnOp::Not, stack.last())),
            Opcode::Pabs => f.popped().pushed((m.unary)(UnOp::Abs, stack.last())),
            Opcode::Assert => Memory {
                checks: f.checks.push((inst.label->0, stack.last())),
                ..f.popped()
            },
            _ => f,
        },
    }
}

/// After instructions, one after the other.
pub open spec fn after_all<V>(
    m: Arithmetic<V>,
    f: Memory<V>,
    code: Seq<InstructionView>,
) -> Memory<V>
    decreases code.len(),
{
    if code.len() == 0 {
        f
    } else {
        after(m, after_all(m, f, code.drop_last()), code.last())
    }
}

/// The instruction leads to the next one.
pub open spec fn straight(inst: InstructionView) -> bool {
    &&& inst.opcode != Opcode::Jump
    &&& inst.opcode != Opcode::Branch
    &&& inst.opcode != Opcode::Halt
    &&& inst.opcode != Opcode::Return
}

/// After one instruction. A branch is taken where the top of the stack is not
/// true. A machine that has halted stays where it is.
pub open spec fn vm_step<V>(code: Seq<InstructionView>, m: Arithmetic<V>, v: Vm<V>) -> Vm<V> {
    let inst = code[v.at];
    if straight(inst) {
        Vm { at: v.at + 1, memory: after(m, v.memory, inst) }
    } else if inst.opcode == Opcode::Jump {
        Vm { at: binary64::real_to_index(inst.operands[0]) as int, ..v }
    } else if inst.opcode == Opcode::Branch {
        Vm {
            at: if (m.truth)(v.memory.stack.last()) {
                v.at + 1
            } else {
                binary64::real_to_index(inst.operands[0]) as int
            },
            memory: v.memory.popped(),
        }
    } else {
        v
    }
}

/// After `n` instructions.
pub open spec fn vm_run<V>(
    code: Seq<InstructionView>,
    m: Arithmetic<V>,
    v: Vm<V>,
    n: nat,
) -> Vm<V>
    decreases n,
{
    if n == 0 {
        v
    } else {
        vm_step(code, m, vm_run(code, m, v, (n - 1) as nat))
    }
}

/// Constants are the numbers that stand for them, a negation is a product with
/// minus one, and an implication is the disjunction with the denied premise.
pub open spec fn conventional<V>(m: Arithmetic<V>) -> bool {
    &&& forall|c: ConstValue| #[trigger]
        (m.constant)(c) == (m.real)(
            match c {
                ConstValue::Real(v) => v.value,
                ConstValue::Integer(n) => binary64::real_of_int(n as int),
                ConstValue::Bool(b) => binary64::real_of_int(
                    if b {
                        1
                    } else {
                        0
                    },
                ),
            },
        )
    &&& forall|a: V|
        #[trigger] (m.unary)(UnOp::Neg, a) == (m.binary)(
            BinOp::Mul,
            a,
            (m.real)(binary64::real_of_int(-1)),
        )
    &&& forall|a: V, b: V|
        #[trigger] (m.binary)(BinOp::Implies, a, b) == (m.binary)(
            BinOp::Or,
            (m.unary)(UnOp::Not, a),
            b,
        )
}

/// What a machine that runs a program holds.
pub open spec fn memory_of<V>(k: Machine<V>) -> Memory<V> {
    Memory { slots: k.slots, stack: k.stack, checks: k.checks }
}

// ---------------------------------------------------------------------------
// The code of a statement
// ---------------------------------------------------------------------------

/// One instruction.
proof fn lemma_one<V>(m: Arithmetic<V>, f: Memory<V>, a: InstructionView)
    ensures
        after_all(m, f, seq![a]) == after(m, f, a),
{
    reveal_with_fuel(after_all, 2);
    assert(seq![a].drop_last() =~= Seq::empty());
}

/// One instruction more.
proof fn lemma_more<V>(
    m: Arithmetic<V>,
    f: Memory<V>,
    code: Seq<InstructionView>,
    a: InstructionView,
)
    ensures
        after_all(m, f, code.push(a)) == after(m, after_all(m, f, code), a),
{
    assert(code.push(a).drop_last() =~= code);
}

/// A load pushes the value in the slot.
proof fn lemma_load<V>(m: Arithmetic<V>, f: Memory<V>, slot: u8)
    ensures
        after(m, f, codegen::on_slot(Opcode::Load, slot)) == f.pushed(f.slots[slot]),
{
    binary64::law_small_integers_are_exact(slot as nat);
}

/// A store keeps the top of the stack in the slot.
proof fn lemma_store<V>(m: Arithmetic<V>, f: Memory<V>, slot: u8)
    ensures
        after(m, f, codegen::on_slot(Opcode::Store, slot)) == (Memory {
            slots: f.slots.insert(slot, f.stack.last()),
            ..f.popped()
        }),
{
    binary64::law_small_integers_are_exact(slot as nat);
}

/// A push pushes its number.
proof fn lemma_push<V>(m: Arithmetic<V>, f: Memory<V>, r: Real)
    ensures
        after(m, f, codegen::push(r)) == f.pushed((m.real)(r)),
{
    assert(after(m, f, codegen::push(r)).stack =~= f.stack.push((m.real)(r)));
}

/// An operation on two pushed values.
proof fn lemma_operate<V>(m: Arithmetic<V>, f: Memory<V>, x: V, y: V, op: Opcode)
    requires
        binary_of(op) is Some,
    ensures
        after(m, f.pushed(x).pushed(y), codegen::plain(op)) == f.pushed(
            (m.binary)(binary_of(op)->0, x, y),
        ),
{
    let stack = f.stack.push(x).push(y);
    assert(stack.take(stack.len() - 2) =~= f.stack);
}

/// Two loads and an operation push the operation's value.
proof fn lemma_on_two<V>(m: Arithmetic<V>, f: Memory<V>, a: u8, b: u8, op: Opcode)
    requires
        binary_of(op) is Some,
    ensures
        after_all(
            m,
            f,
            seq![
                codegen::on_slot(Opcode::Load, a),
                codegen::on_slot(Opcode::Load, b),
                codegen::plain(op),
            ],
        ) == f.pushed((m.binary)(binary_of(op)->0, f.slots[a], f.slots[b])),
{
    let (x, y, z) = (
        codegen::on_slot(Opcode::Load, a),
        codegen::on_slot(Opcode::Load, b),
        codegen::plain(op),
    );
    lemma_load(m, f, a);
    lemma_load(m, f.pushed(f.slots[a]), b);
    lemma_one(m, f, x);
    lemma_more(m, f, seq![x], y);
    lemma_more(m, f, seq![x].push(y), z);
    assert(seq![x, y, z] =~= seq![x].push(y).push(z));
    lemma_operate(m, f, f.slots[a], f.slots[b], op);
}

/// The code of an operation leaves the operation's value on the stack and
/// nothing else.
pub proof fn law_operation_code_leaves_its_value<V>(
    m: Arithmetic<V>,
    map: Seq<(u32, u8)>,
    k: Machine<V>,
    op: AtomicOp,
)
    requires
        conventional(m),
    ensures
        after_all(m, memory_of(k), codegen::op_code(map, op)) == memory_of(k).pushed(
            meaning::op_value(m, map, k, op),
        ),
{
    let f = memory_of(k);
    match op {
        AtomicOp::Const(c) => {
            lemma_one(m, f, codegen::push(codegen::number(c)));
            lemma_push(m, f, codegen::number(c));
        },
        AtomicOp::Neg(a) => {
            let minus_one = binary64::real_of_int(-1);
            let (x, y, z, w) = (
                codegen::load(map, a),
                codegen::plain(Opcode::Push),
                codegen::push(minus_one),
                codegen::plain(Opcode::Mul),
            );
            let loaded = f.pushed(k.var(map, a));
            lemma_load(m, f, codegen::slot_of(map, a));
            lemma_one(m, f, x);
            lemma_more(m, f, seq![x], y);
            assert(after(m, loaded, y).stack =~= loaded.stack);
            lemma_more(m, f, seq![x].push(y), z);
            lemma_push(m, loaded, minus_one);
            lemma_more(m, f, seq![x].push(y).push(z), w);
            assert(seq![x, y, z, w] =~= seq![x].push(y).push(z).push(w));
            lemma_operate(m, f, k.var(map, a), (m.real)(minus_one), Opcode::Mul);
        },
        AtomicOp::Not(a) => {
            let (x, y) = (codegen::load(map, a), codegen::plain(Opcode::Not));
            lemma_load(m, f, codegen::slot_of(map, a));
            lemma_one(m, f, x);
            lemma_more(m, f, seq![x], y);
            assert(seq![x, y] =~= seq![x].push(y));
            assert(f.pushed(k.var(map, a)).popped().stack =~= f.stack);
        },
        AtomicOp::Implies(a, b) => {
            let (x, y, z, w) = (
                codegen::load(map, a),
                codegen::plain(Opcode::Not),
                codegen::load(map, b),
                codegen::plain(Opcode::Or),
            );
            let (va, vb) = (k.var(map, a), k.var(map, b));
            let denied = (m.unary)(UnOp::Not, va);
            lemma_load(m, f, codegen::slot_of(map, a));
            lemma_load(m, f.pushed(denied), codegen::slot_of(map, b));
            lemma_one(m, f, x);
            lemma_more(m, f, seq![x], y);
            assert(f.pushed(va).popped().stack =~= f.stack);
            lemma_more(m, f, seq![x].push(y), z);
            lemma_more(m, f, seq![x].push(y).push(z), w);
            assert(seq![x, y, z, w] =~= seq![x].push(y).push(z).push(w));
            lemma_operate(m, f, denied, vb, Opcode::Or);
        },
        AtomicOp::LoadSlot(slot) => {
            lemma_one(m, f, codegen::on_slot(Opcode::Load, slot));
            lemma_load(m, f, slot);
        },
        AtomicOp::Old { buffer, depth } => {
            let slot = (buffer + depth % 256) as u8;
            lemma_one(m, f, codegen::on_slot(Opcode::Load, slot));
            lemma_load(m, f, slot);
        },
        AtomicOp::Delta { buffer } => {
            lemma_on_two(m, f, buffer, (buffer + 1) as u8, Opcode::Sub);
        },
        AtomicOp::RateOf { buffer, dt } => {
            let (x, y, z) = (
                codegen::on_slot(Opcode::Load, buffer),
                codegen::on_slot(Opcode::Load, (buffer + 1) as u8),
                codegen::plain(Opcode::Sub),
            );
            let (p, q) = (codegen::push(dt), codegen::plain(Opcode::Div));
            let change = (m.binary)(BinOp::Sub, f.slots[buffer], f.slots[(buffer + 1) as u8]);
            lemma_on_two(m, f, buffer, (buffer + 1) as u8, Opcode::Sub);
            lemma_more(m, f, seq![x, y, z], p);
            lemma_push(m, f.pushed(change), dt);
            lemma_more(m, f, seq![x, y, z].push(p), q);
            assert(seq![x, y, z, p, q] =~= seq![x, y, z].push(p).push(q));
            lemma_operate(m, f, change, (m.real)(dt), Opcode::Div);
        },
        AtomicOp::Add(a, b) => lemma_vars(m, map, f, a, b, Opcode::Add),
        AtomicOp::Sub(a, b) => lemma_vars(m, map, f, a, b, Opcode::Sub),
        AtomicOp::Mul(a, b) => lemma_vars(m, map, f, a, b, Opcode::Mul),
        AtomicOp::Div(a, b) => lemma_vars(m, map, f, a, b, Opcode::Div),
        AtomicOp::Mod(a, b) => lemma_vars(m, map, f, a, b, Opcode::Mod),
        AtomicOp::Eq(a, b) => lemma_vars(m, map, f, a, b, Opcode::Eq),
        AtomicOp::Neq(a, b) => lemma_vars(m, map, f, a, b, Opcode::Neq),
        AtomicOp::Lt(a, b) => lemma_vars(m, map, f, a, b, Opcode::Lt),
        AtomicOp::Gt(a, b) => lemma_vars(m, map, f, a, b, Opcode::Gt),
        AtomicOp::Lte(a, b) => lemma_vars(m, map, f, a, b, Opcode::Lte),
        AtomicOp::Gte(a, b) => lemma_vars(m, map, f, a, b, Opcode::Gte),
        AtomicOp::And(a, b) => lemma_vars(m, map, f, a, b, Opcode::And),
        AtomicOp::Or(a, b) => lemma_vars(m, map, f, a, b, Opcode::Or),
        AtomicOp::Abs(a) => {
            let (x, y) = (codegen::load(map, a), codegen::plain(Opcode::Pabs));
            lemma_load(m, f, codegen::slot_of(map, a));
            lemma_one(m, f, x);
            lemma_more(m, f, seq![x], y);
            assert(seq![x, y] =~= seq![x].push(y));
            assert(f.pushed(k.var(map, a)).popped().stack =~= f.stack);
        },
    }
}

/// [`lemma_on_two`] for variables.
proof fn lemma_vars<V>(
    m: Arithmetic<V>,
    map: Seq<(u32, u8)>,
    f: Memory<V>,
    a: VarId,
    b: VarId,
    op: Opcode,
)
    requires
        binary_of(op) is Some,
    ensures
        after_all(m, f, codegen::on_two(map, a, b, op)) == f.pushed(
            (m.binary)(
                binary_of(op)->0,
                f.slots[codegen::slot_of(map, a)],
                f.slots[codegen::slot_of(map, b)],
            ),
        ),
{
    lemma_on_two(m, f, codegen::slot_of(map, a), codegen::slot_of(map, b), op);
}

/// The code of a statement does what the statement does.
pub proof fn law_statement_code_performs_it<V>(
    m: Arithmetic<V>,
    map: Seq<(u32, u8)>,
    k: Machine<V>,
    stmt: StmtView,
)
    requires
        conventional(m),
    ensures
        after_all(m, memory_of(k), codegen::stmt_code(map, stmt)) == memory_of(
            meaning::perform(m, map, k, stmt),
        ),
{
    let f = memory_of(k);
    let code = codegen::stmt_code(map, stmt);
    match stmt {
        StmtView::Assign { dest, op, span } => {
            law_operation_code_leaves_its_value(m, map, k, op);
            let x = meaning::op_value(m, map, k, op);
            lemma_keep(m, map, f, dest, codegen::op_code(map, op), x);
        },
        StmtView::LoadState { dest, slot, ty, span } => {
            let load = codegen::on_slot(Opcode::Load, slot);
            lemma_one(m, f, load);
            lemma_load(m, f, slot);
            if ty.kind is Integer {
                let cast = codegen::plain(Opcode::Cast);
                lemma_more(m, f, seq![load], cast);
                assert(seq![load, cast] =~= seq![load].push(cast));
            }
            lemma_keep(m, map, f, dest, codegen::state_code(slot, ty.kind), f.slots[slot]);
        },
        StmtView::Store { src, slot, span } => {
            let store = codegen::on_slot(Opcode::Store, slot);
            lemma_fetch(m, map, f, src, store);
            lemma_store(m, fetched(map, f, src), slot);
        },
        StmtView::PushConst { value, span } => {
            lemma_one(m, f, codegen::push(codegen::number(value)));
            lemma_push(m, f, codegen::number(value));
        },
        StmtView::Pop { dest, ty, span } => {
            lemma_one(m, f, code[0]);
            assert(code =~= seq![code[0]]);
            if let Some(slot) = table::lookup(map, dest.0) {
                lemma_store(m, f, slot);
            }
        },
        StmtView::Assert { cond, invariant_name, span } => {
            lemma_fetch(m, map, f, cond, code.last());
            assert(code =~= codegen::fetch(map, cond).push(code.last()));
        },
        StmtView::Trace { label, span } => {
            lemma_one(m, f, code[0]);
            assert(code =~= seq![code[0]]);
        },
    }
}

/// Code that leaves a value on the stack, and what keeps it for a variable.
proof fn lemma_keep<V>(
    m: Arithmetic<V>,
    map: Seq<(u32, u8)>,
    f: Memory<V>,
    var: VarId,
    code: Seq<InstructionView>,
    x: V,
)
    requires
        after_all(m, f, code) == f.pushed(x),
    ensures
        after_all(m, f, code + codegen::keep(map, var)) == match table::lookup(map, var.0) {
            Some(slot) => (Memory { slots: f.slots.insert(slot, x), ..f }),
            None => f.pushed(x),
        },
{
    match table::lookup(map, var.0) {
        Some(slot) => {
            let store = codegen::on_slot(Opcode::Store, slot);
            assert(code + codegen::keep(map, var) =~= code.push(store));
            lemma_more(m, f, code, store);
            lemma_store(m, f.pushed(x), slot);
            assert(f.pushed(x).popped().stack =~= f.stack);
        },
        None => {
            assert(code + codegen::keep(map, var) =~= code);
        },
    }
}

/// With the value of a variable on the stack.
pub open spec fn fetched<V>(map: Seq<(u32, u8)>, f: Memory<V>, var: VarId) -> Memory<V> {
    match table::lookup(map, var.0) {
        Some(slot) => f.pushed(f.slots[slot]),
        None => f,
    }
}

/// An instruction on the value of a variable.
proof fn lemma_fetch<V>(
    m: Arithmetic<V>,
    map: Seq<(u32, u8)>,
    f: Memory<V>,
    var: VarId,
    inst: InstructionView,
)
    ensures
        after_all(m, f, codegen::fetch(map, var) + seq![inst]) == after(
            m,
            fetched(map, f, var),
            inst,
        ),
        table::lookup(map, var.0) is Some ==> fetched(map, f, var).popped() == f,
{
    let fetch = codegen::fetch(map, var);
    assert(fetch + seq![inst] =~= fetch.push(inst));
    lemma_more(m, f, fetch, inst);
    match table::lookup(map, var.0) {
        Some(slot) => {
            lemma_one(m, f, codegen::on_slot(Opcode::Load, slot));
            lemma_load(m, f, slot);
            assert(f.pushed(f.slots[slot]).popped().stack =~= f.stack);
        },
        None => {},
    }
}

/// The code of a statement leads from each instruction to the next.
proof fn lemma_stmt_straight(map: Seq<(u32, u8)>, stmt: StmtView)
    ensures
        forall|i: int|
            0 <= i < codegen::stmt_code(map, stmt).len() ==> straight(
                #[trigger] codegen::stmt_code(map, stmt)[i],
            ),
{
    if let StmtView::Assign { dest, op, span } = stmt {
        let (code, front) = (codegen::stmt_code(map, stmt), codegen::op_code(map, op));
        lemma_op_straight(map, op);
        assert forall|i: int| 0 <= i < code.len() implies straight(#[trigger] code[i]) by {
            if i < front.len() {
                assert(code[i] == front[i]);
            }
        }
    }
}

/// The code of an operation leads from each instruction to the next.
proof fn lemma_op_straight(map: Seq<(u32, u8)>, op: AtomicOp)
    ensures
        forall|i: int|
            0 <= i < codegen::op_code(map, op).len() ==> straight(
                #[trigger] codegen::op_code(map, op)[i],
            ),
{
}

// ---------------------------------------------------------------------------
// The code of a program
// ---------------------------------------------------------------------------

/// Two runs in a row are one run.
pub proof fn lemma_vm_run_adds<V>(
    code: Seq<InstructionView>,
    m: Arithmetic<V>,
    v: Vm<V>,
    a: nat,
    b: nat,
)
    ensures
        vm_run(code, m, vm_run(code, m, v, a), b) == vm_run(code, m, v, a + b),
    decreases b,
{
    if b > 0 {
        lemma_vm_run_adds(code, m, v, a, (b - 1) as nat);
        assert((a + b - 1) as nat == a + (b - 1) as nat);
    }
}

/// The code has the part `part` from `at` on.
pub open spec fn has_part(
    code: Seq<InstructionView>,
    part: Seq<InstructionView>,
    at: int,
) -> bool {
    &&& 0 <= at
    &&& at + part.len() <= code.len()
    &&& forall|i: int| 0 <= i < part.len() ==> code[at + i] == #[trigger] part[i]
}

/// A machine goes through a straight part of the code.
proof fn lemma_straight<V>(
    code: Seq<InstructionView>,
    part: Seq<InstructionView>,
    m: Arithmetic<V>,
    v: Vm<V>,
)
    requires
        has_part(code, part, v.at),
        forall|i: int| 0 <= i < part.len() ==> straight(#[trigger] part[i]),
    ensures
        vm_run(code, m, v, part.len()) == (Vm {
            at: v.at + part.len(),
            memory: after_all(m, v.memory, part),
        }),
    decreases part.len(),
{
    if part.len() > 0 {
        let front = part.drop_last();
        lemma_straight(code, front, m, v);
        assert(code[v.at + (part.len() - 1)] == part[part.len() - 1]);
    }
}

/// Where the code of a statement stands among that of the statements.
proof fn lemma_stmt_in_place(map: Seq<(u32, u8)>, stmts: Seq<StmtView>, n: int)
    requires
        0 <= n <= stmts.len(),
    ensures
        codegen::stmts_code(map, stmts.take(n)).is_prefix_of(codegen::stmts_code(map, stmts)),
        n < stmts.len() ==> codegen::stmts_code(map, stmts.take(n + 1)) == codegen::stmts_code(
            map,
            stmts.take(n),
        ) + codegen::stmt_code(map, stmts[n]),
    decreases stmts.len() - n,
{
    if n < stmts.len() {
        lemma_stmt_in_place(map, stmts, n + 1);
        assert(stmts.take(n + 1).drop_last() =~= stmts.take(n));
        assert(stmts.take(n + 1).last() == stmts[n]);
    } else {
        assert(stmts.take(n) =~= stmts);
    }
}

/// The number of the instruction that a machine is at.
pub open spec fn offset<V>(p: ProgramView, k: Machine<V>) -> int {
    let before = codegen::stmts_code(p.slot_map, p.blocks[k.block].stmts.take(k.at));
    codegen::code_len(p.slot_map, p.blocks, k.block as nat) as int + before.len()
}

/// A stack machine with the code of a program is where a machine with the
/// program is, and holds what that one holds.
pub open spec fn mirrors<V>(p: ProgramView, k: Machine<V>, v: Vm<V>) -> bool {
    &&& 0 <= k.block < p.blocks.len()
    &&& 0 <= k.at <= p.blocks[k.block].stmts.len()
    &&& v.at == offset(p, k)
    &&& v.memory == memory_of(k)
}

/// The program can be turned into code: its blocks are numbered by their place,
/// its targets exist, and the numbers of its instructions are exact.
pub open spec fn linkable(p: ProgramView) -> bool {
    &&& p.intact()
    &&& codegen::numbered(p.blocks)
    &&& codegen::program_code(p).len() <= usize::MAX
    &&& codegen::program_code(p).len() < 2 * binary64::BINADE
}

/// The operand of a jump is the number of the instruction that a block begins
/// with.
proof fn lemma_target(p: ProgramView, t: BlockId)
    requires
        linkable(p),
        t.0 < p.blocks.len(),
    ensures
        binary64::real_to_index(codegen::placed(p.slot_map, p.blocks)(t)) == codegen::code_len(
            p.slot_map,
            p.blocks,
            t.0 as nat,
        ),
{
    codegen::law_jumps_lead_to_blocks(p, t);
    binary64::law_small_integers_are_exact(
        codegen::code_len(p.slot_map, p.blocks, t.0 as nat),
    );
}

/// The code of a block is in that of the program.
proof fn lemma_block_part(p: ProgramView, k: int)
    requires
        0 <= k < p.blocks.len(),
    ensures
        has_part(
            codegen::program_code(p),
            codegen::block_code(
                p.slot_map,
                p.blocks[k],
                codegen::placed(p.slot_map, p.blocks),
            ),
            codegen::code_len(p.slot_map, p.blocks, k as nat) as int,
        ),
{
    codegen::law_block_code_is_in_place(p, k);
    let (here, next) = (
        codegen::code_len(p.slot_map, p.blocks, k as nat) as int,
        codegen::code_len(p.slot_map, p.blocks, (k + 1) as nat) as int,
    );
    let code = codegen::program_code(p);
    let part = code.subrange(here, next);
    assert forall|i: int| 0 <= i < part.len() implies code[here + i] == #[trigger] part[i] by {}
}

/// The code does one step of the program.
proof fn lemma_step<V>(p: ProgramView, m: Arithmetic<V>, k: Machine<V>, v: Vm<V>) -> (n: nat)
    requires
        conventional(m),
        linkable(p),
        mirrors(p, k, v),
    ensures
        mirrors(p, meaning::step(p, m, k), vm_run(codegen::program_code(p), m, v, n)),
        k.at < p.blocks[k.block].stmts.len() && p.blocks[k.block].stmts[k.at] is Trace ==> n > 0,
{
    let code = codegen::program_code(p);
    let (map, block) = (p.slot_map, p.blocks[k.block]);
    let placed = codegen::placed(p.slot_map, p.blocks);
    let here = codegen::code_len(p.slot_map, p.blocks, k.block as nat) as int;
    let whole = codegen::block_code(map, block, placed);
    let body = codegen::stmts_code(map, block.stmts);
    lemma_block_part(p, k.block);
    lemma_stmt_in_place(map, block.stmts, k.at);
    if k.at < block.stmts.len() {
        let stmt = block.stmts[k.at];
        let part = codegen::stmt_code(map, stmt);
        let before = codegen::stmts_code(map, block.stmts.take(k.at));
        lemma_stmt_in_place(map, block.stmts, k.at + 1);
        let after_it = codegen::stmts_code(map, block.stmts.take(k.at + 1));
        assert(has_part(code, part, v.at)) by {
            assert forall|i: int| 0 <= i < part.len() implies code[v.at + i]
                == #[trigger] part[i] by {
                assert(after_it[before.len() + i] == part[i]);
                assert(body[before.len() + i] == after_it[before.len() + i]);
                assert(whole[before.len() + i] == body[before.len() + i]);
                assert(code[here + (before.len() + i)] == whole[before.len() + i]);
            }
        }
        lemma_stmt_straight(map, stmt);
        lemma_straight(code, part, m, v);
        law_statement_code_performs_it(m, map, k, stmt);
        part.len()
    } else {
        assert(block.stmts.take(k.at) =~= block.stmts);
        let part = codegen::terminator_code(map, block.terminator, placed);
        assert(has_part(code, part, v.at)) by {
            assert forall|i: int| 0 <= i < part.len() implies code[v.at + i]
                == #[trigger] part[i] by {
                assert(whole[body.len() + i] == part[i]);
                assert(code[here + (body.len() + i)] == whole[body.len() + i]);
            }
        }
        assert(lcir::targets_exist(block.terminator, p.blocks.len()));
        lemma_leave(p, m, k, v)
    }
}

/// The code does what a terminator does.
proof fn lemma_leave<V>(p: ProgramView, m: Arithmetic<V>, k: Machine<V>, v: Vm<V>) -> (n: nat)
    requires
        linkable(p),
        mirrors(p, k, v),
        k.at == p.blocks[k.block].stmts.len(),
        lcir::targets_exist(p.blocks[k.block].terminator, p.blocks.len()),
        has_part(
            codegen::program_code(p),
            codegen::terminator_code(
                p.slot_map,
                p.blocks[k.block].terminator,
                codegen::placed(p.slot_map, p.blocks),
            ),
            v.at,
        ),
    ensures
        mirrors(
            p,
            meaning::leave(m, p.slot_map, k, p.blocks[k.block].terminator),
            vm_run(codegen::program_code(p), m, v, n),
        ),
{
    let code = codegen::program_code(p);
    let placed = codegen::placed(p.slot_map, p.blocks);
    let part = codegen::terminator_code(p.slot_map, p.blocks[k.block].terminator, placed);
    match p.blocks[k.block].terminator {
        TerminatorView::Jump(t) => {
            reveal_with_fuel(vm_run, 2);
            assert(code[v.at + 0] == part[0]);
            lemma_target(p, t);
            assert(p.blocks[t.0 as int].stmts.take(0) =~= Seq::empty());
            1
        },
        TerminatorView::Branch { cond, then_target, else_target } => {
            let f = v.memory;
            let x = k.var(p.slot_map, cond);
            reveal_with_fuel(vm_run, 4);
            assert(code[v.at + 0] == part[0]);
            assert(code[v.at + 1] == part[1]);
            assert(code[v.at + 2] == part[2]);
            lemma_load(m, f, codegen::slot_of(p.slot_map, cond));
            assert(vm_run(code, m, v, 1) == (Vm { at: v.at + 1, memory: f.pushed(x) }));
            assert(f.pushed(x).popped().stack =~= f.stack);
            lemma_target(p, then_target);
            lemma_target(p, else_target);
            assert(p.blocks[then_target.0 as int].stmts.take(0) =~= Seq::empty());
            assert(p.blocks[else_target.0 as int].stmts.take(0) =~= Seq::empty());
            if (m.truth)(x) {
                assert(vm_run(code, m, v, 2) == (Vm { at: v.at + 2, memory: f }));
                3
            } else {
                2
            }
        },
        TerminatorView::Halt { reason } => 0,
        TerminatorView::Return => 0,
    }
}

/// The code of a program does what the program does, whatever the arithmetic is:
/// however many steps a machine with the program takes, a stack machine with the
/// code that holds the same gets to where that one is, and holds the same there.
pub proof fn law_code_runs_like_the_program<V>(
    p: ProgramView,
    m: Arithmetic<V>,
    k: Machine<V>,
    v: Vm<V>,
    n: nat,
)
    requires
        conventional(m),
        linkable(p),
        mirrors(p, k, v),
    ensures
        exists|i: nat|
            mirrors(
                p,
                meaning::run(p, m, k, n),
                #[trigger] vm_run(codegen::program_code(p), m, v, i),
            ),
    decreases n,
{
    let code = codegen::program_code(p);
    if n == 0 {
        assert(mirrors(p, meaning::run(p, m, k, 0), vm_run(code, m, v, 0)));
    } else {
        let last = (n - 1) as nat;
        law_code_runs_like_the_program(p, m, k, v, last);
        let i = choose|i: nat|
            mirrors(p, meaning::run(p, m, k, last), #[trigger] vm_run(code, m, v, i));
        let j = lemma_step(p, m, meaning::run(p, m, k, last), vm_run(code, m, v, i));
        lemma_vm_run_adds(code, m, v, i, j);
        assert(mirrors(p, meaning::run(p, m, k, n), vm_run(code, m, v, i + j)));
    }
}

/// A machine with a program at the head of the constraint loop that holds what the
/// stack machine holds.
pub open spec fn at_head<V>(v: Vm<V>) -> Machine<V> {
    Machine {
        block: cycle::loop_head(),
        at: 0,
        slots: v.memory.slots,
        stack: v.memory.stack,
        checks: v.memory.checks,
    }
}

/// What was found when a stack machine is back at the head of the constraint
/// loop. The readings are still there.
pub open spec fn code_cycle_done<V>(
    module: CirModule,
    m: Arithmetic<V>,
    r: Readings<V>,
    v: Vm<V>,
    end: Vm<V>,
) -> bool {
    &&& end.at == v.at
    &&& cycle::at_loop_head(module, at_head(end), r)
    &&& end.memory.stack == v.memory.stack
    &&& end.memory.checks == v.memory.checks + cycle::findings(
        m,
        module,
        r,
        module.invariants@.len(),
    )
}

/// The bytecode of a module checks exactly what the module says, whatever the
/// arithmetic is: a stack machine at the head of the constraint loop that holds
/// the readings comes back to it with the readings unchanged, and on the way it has
/// checked, in the order of the module, each invariant that has no guard or whose
/// guard holds, and found the value of its constraint.
pub proof fn law_bytecode_checks_the_invariants<V>(
    module: CirModule,
    m: Arithmetic<V>,
    r: Readings<V>,
    k: Machine<V>,
    v: Vm<V>,
)
    requires
        lowering::lower_all(module).0.fits(),
        lowering::lower_all(module).1 is Ok,
        cycle::buffers_in_place(module),
        forall|i: int|
            0 <= i < module.invariants@.len() ==> cycle::checkable(
                module,
                #[trigger] module.invariants@[i],
            ),
        conventional(m),
        codegen::program_code(lowering::lower_all(module).1->Ok_0).len() <= usize::MAX,
        codegen::program_code(lowering::lower_all(module).1->Ok_0).len() < 2
            * binary64::BINADE,
        cycle::at_loop_head(module, k, r),
        mirrors(lowering::lower_all(module).1->Ok_0, k, v),
    ensures
        exists|i: nat|
            code_cycle_done(
                module,
                m,
                r,
                v,
                #[trigger] vm_run(
                    codegen::program_code(lowering::lower_all(module).1->Ok_0),
                    m,
                    v,
                    i,
                ),
            ) && i > 0,
{
    let p = lowering::lower_all(module).1->Ok_0;
    let code = codegen::program_code(p);
    lowering::lemma_module(module);
    cycle::law_cycle_checks_the_invariants(module, m, r, k);
    let n = choose|n: nat|
        cycle::cycle_done(module, m, r, k, #[trigger] meaning::run(p, m, k, n)) && n > 0;
    // The first step is one of the stack machine too.
    cycle::lemma_loop_head(module);
    let i = lemma_step(p, m, k, v);
    let (k1, v1) = (meaning::step(p, m, k), vm_run(code, m, v, i));
    reveal_with_fuel(meaning::run, 2);
    assert(meaning::run(p, m, k, 1) == k1);
    let rest = (n - 1) as nat;
    meaning::lemma_run_adds(p, m, k, 1, rest);
    law_code_runs_like_the_program(p, m, k1, v1, rest);
    let j = choose|j: nat|
        mirrors(p, meaning::run(p, m, k1, rest), #[trigger] vm_run(code, m, v1, j));
    lemma_vm_run_adds(code, m, v, i, j);
    let end = vm_run(code, m, v, i + j);
    assert(at_head(end) == meaning::run(p, m, k, n));
    assert(code_cycle_done(module, m, r, v, end));
}

/// An instruction on two values applies the operation of the same name to them: the one
/// below the top first, and then the top.
pub proof fn law_instructions_apply_their_operations<V>(m: Arithmetic<V>, f: Memory<V>, x: V, y: V)
    ensures
        ({
            let with = |opcode: Opcode|
                after(m, f.pushed(x).pushed(y), codegen::plain(opcode));
            &&& with(Opcode::Add) == f.pushed((m.binary)(BinOp::Add, x, y))
            &&& with(Opcode::Sub) == f.pushed((m.binary)(BinOp::Sub, x, y))
            &&& with(Opcode::Mul) == f.pushed((m.binary)(BinOp::Mul, x, y))
            &&& with(Opcode::Div) == f.pushed((m.binary)(BinOp::Div, x, y))
            &&& with(Opcode::Mod) == f.pushed((m.binary)(BinOp::Mod, x, y))
            &&& with(Opcode::Eq) == f.pushed((m.binary)(BinOp::Eq, x, y))
            &&& with(Opcode::Neq) == f.pushed((m.binary)(BinOp::Neq, x, y))
            &&& with(Opcode::Lt) == f.pushed((m.binary)(BinOp::Lt, x, y))
            &&& with(Opcode::Gt) == f.pushed((m.binary)(BinOp::Gt, x, y))
            &&& with(Opcode::Lte) == f.pushed((m.binary)(BinOp::Lte, x, y))
            &&& with(Opcode::Gte) == f.pushed((m.binary)(BinOp::Gte, x, y))
            &&& with(Opcode::And) == f.pushed((m.binary)(BinOp::And, x, y))
            &&& with(Opcode::Or) == f.pushed((m.binary)(BinOp::Or, x, y))
        }),
{
    lemma_operate(m, f, x, y, Opcode::Add);
    lemma_operate(m, f, x, y, Opcode::Sub);
    lemma_operate(m, f, x, y, Opcode::Mul);
    lemma_operate(m, f, x, y, Opcode::Div);
    lemma_operate(m, f, x, y, Opcode::Mod);
    lemma_operate(m, f, x, y, Opcode::Eq);
    lemma_operate(m, f, x, y, Opcode::Neq);
    lemma_operate(m, f, x, y, Opcode::Lt);
    lemma_operate(m, f, x, y, Opcode::Gt);
    lemma_operate(m, f, x, y, Opcode::Lte);
    lemma_operate(m, f, x, y, Opcode::Gte);
    lemma_operate(m, f, x, y, Opcode::And);
    lemma_operate(m, f, x, y, Opcode::Or);
}

} // verus!
