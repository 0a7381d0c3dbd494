//! Lowered programs are run and compared with the values of their expressions.

use guardc::binary64::Real;
use guardc::cir::BinOp;
use guardc::cir::CirInvariant;
use guardc::cir::CirModule;
use guardc::cir::CirType;
use guardc::cir::ConstValue;
use guardc::cir::Domain;
use guardc::cir::Expr;
use guardc::cir::Priority;
use guardc::cir::SymbolTable;
use guardc::cir::TypeKind;
use guardc::cir::UnOp;
use guardc::cir::Unit;
use guardc::cir::VarId;
use guardc::cir::VarKind;
use guardc::cir::ViolationAction;
use guardc::codegen::codegen;
use guardc::error::GuardError;
use guardc::error::Span;
use guardc::flux::Bytecode;
use guardc::flux::Opcode;
use guardc::lcir::AtomicOp;
use guardc::lcir::LcirBuilder;
use guardc::lcir::LcirProgram;
use guardc::lcir::Stmt;
use guardc::lcir::Terminator;
use guardc::lower::lower_module;

fn boolean() -> CirType {
    CirType { kind: TypeKind::Boolean, unit: Unit::Dimensionless }
}

fn flag(b: bool) -> f64 {
    if b {
        1.0
    } else {
        0.0
    }
}

fn unary(op: UnOp, a: f64) -> f64 {
    match op {
        UnOp::Neg => -a,
        UnOp::Abs => a.abs(),
        UnOp::Not => flag(a == 0.0),
    }
}

fn apply(op: BinOp, a: f64, b: f64) -> f64 {
    match op {
        BinOp::Add => a + b,
        BinOp::Sub => a - b,
        BinOp::Mul => a * b,
        BinOp::Div => if b == 0.0 { 0.0 } else { a / b },
        BinOp::Mod => if b == 0.0 { 0.0 } else { a % b },
        BinOp::Eq => flag(a == b),
        BinOp::Neq => flag(a != b),
        BinOp::Lt => flag(a < b),
        BinOp::Gt => flag(a > b),
        BinOp::Lte => flag(a <= b),
        BinOp::Gte => flag(a >= b),
        BinOp::And => flag(a != 0.0 && b != 0.0),
        BinOp::Or => flag(a != 0.0 || b != 0.0),
        BinOp::Implies => flag(a == 0.0 || b != 0.0),
    }
}

fn constant(c: &ConstValue) -> f64 {
    match c {
        ConstValue::Real(v) => f64::from_bits(v.value.0),
        ConstValue::Integer(v) => *v as f64,
        ConstValue::Bool(b) => flag(*b),
    }
}

// The samples of variable `v`, the newest first.
fn sample(v: u32, ago: usize) -> f64 {
    (v as f64 + 1.0) * 3.0 - ago as f64 * (v as f64 + 0.5)
}

// Every buffer retains so many samples.
const RETAINED: usize = 3;

// The heads of the buffers, by variable.
const HEADS: [u8; 3] = [128, 144, 160];

fn members(d: &Domain) -> Vec<i64> {
    match d {
        Domain::Enum(v) => (0..v.len() as i64).collect(),
        Domain::Interval { low, high } => (*low..=*high).collect(),
        Domain::Array { size } => (0..*size as i64).collect(),
    }
}

// What the variables are bound to, and how many samples ago is read.
#[derive(Clone)]
struct Scope {
    bound: Vec<(u32, i64)>,
    age: usize,
}

impl Scope {
    fn top() -> Scope {
        Scope { bound: vec![], age: 0 }
    }

    fn members(&self, v: &VarId, d: &Domain) -> Vec<Scope> {
        let mut out = vec![];
        for x in members(d) {
            let mut scope = self.clone();
            scope.bound.push((v.0, x));
            out.push(scope);
        }
        out
    }

    fn samples(&self, n: usize) -> Vec<Scope> {
        (0..n).map(|i| Scope { age: self.age + i, ..self.clone() }).collect()
    }
}

// How many samples back an expression can be read.
fn horizon(e: &Expr, bound: &mut Vec<u32>) -> usize {
    match e {
        Expr::Const(_) => usize::MAX,
        Expr::Var(v) => if bound.contains(&v.0) { usize::MAX } else { RETAINED },
        Expr::Unary { operand, .. } => horizon(operand, bound),
        Expr::Binary { left, right, .. }
        | Expr::Until { left, right, .. }
        | Expr::Since { left, right, .. } => horizon(left, bound).min(horizon(right, bound)),
        Expr::If { cond, then_branch, else_branch, .. } => horizon(cond, bound)
            .min(horizon(then_branch, bound))
            .min(horizon(else_branch, bound)),
        Expr::Forall { var, body, .. } | Expr::Exists { var, body, .. } => {
            bound.push(var.0);
            let n = horizon(body, bound);
            bound.pop();
            n
        }
        Expr::Always(e, _) | Expr::Eventually(e, _) | Expr::Next(e, _) => horizon(e, bound),
        Expr::For { duration, body, .. } => match horizon(body, bound) {
            usize::MAX => usize::MAX,
            n => n.saturating_sub(duration.saturating_sub(1)),
        },
        Expr::After { body, .. } => horizon(body, bound),
        Expr::Old(..) | Expr::Delta(..) | Expr::RateOf(..) => RETAINED - 1,
        Expr::Index { .. } | Expr::Field { .. } => panic!("not lowered"),
    }
}

fn retained(e: &Expr, scope: &Scope) -> usize {
    let mut bound: Vec<u32> = scope.bound.iter().map(|b| b.0).collect();
    match horizon(e, &mut bound) {
        usize::MAX => 1,
        n => n.saturating_sub(scope.age) + 1,
    }
}

// A buffer retains all the samples that the expression asks for.
fn readable(e: &Expr, scope: &Scope) -> bool {
    let at = |e: &Expr| readable(e, scope);
    let each = |scopes: Vec<Scope>, e: &Expr| scopes.iter().all(|s| readable(e, s));
    match e {
        Expr::Const(_) => true,
        Expr::Var(v) => scope.bound.iter().any(|b| b.0 == v.0) || scope.age <= RETAINED,
        Expr::Unary { operand, .. } => at(operand),
        Expr::Binary { left, right, .. }
        | Expr::Until { left, right, .. }
        | Expr::Since { left, right, .. } => at(left) && at(right),
        Expr::If { cond, then_branch, else_branch, .. } => {
            at(cond) && at(then_branch) && at(else_branch)
        }
        Expr::Forall { var, domain, body, .. } | Expr::Exists { var, domain, body, .. } => {
            each(scope.members(var, domain), body)
        }
        Expr::Always(e, _) | Expr::Eventually(e, _) => {
            each(scope.samples(retained(e, scope)), e)
        }
        Expr::For { duration, body, .. } => each(scope.samples(*duration), body),
        Expr::Next(e, _) => at(e),
        Expr::After { body, .. } => at(body),
        Expr::Old(..) | Expr::Delta(..) | Expr::RateOf(..) => scope.age + 1 <= RETAINED,
        Expr::Index { .. } | Expr::Field { .. } => false,
    }
}

fn value(e: &Expr, scope: &Scope, dt: f64) -> f64 {
    let at = |e: &Expr| value(e, scope, dt);
    let change = |v: u32| sample(v, scope.age) - sample(v, scope.age + 1);
    match e {
        Expr::Const(c) => constant(c),
        Expr::Var(v) => match scope.bound.iter().rev().find(|b| b.0 == v.0) {
            Some(b) => b.1 as f64,
            None => sample(v.0, scope.age),
        },
        Expr::Unary { op, operand, .. } => unary(*op, at(operand)),
        Expr::Binary { op, left, right, .. } => apply(*op, at(left), at(right)),
        Expr::If { cond, then_branch, else_branch, .. } => {
            if at(cond) != 0.0 {
                at(then_branch)
            } else {
                at(else_branch)
            }
        }
        Expr::Forall { var, domain, body, .. } => {
            joined(true, scope.members(var, domain), body, dt)
        }
        Expr::Exists { var, domain, body, .. } => {
            joined(false, scope.members(var, domain), body, dt)
        }
        Expr::Always(e, _) => joined(true, scope.samples(retained(e, scope)), e, dt),
        Expr::Eventually(e, _) => joined(false, scope.samples(retained(e, scope)), e, dt),
        Expr::For { duration, body, .. } => joined(true, scope.samples(*duration), body, dt),
        Expr::Next(e, _) => at(e),
        Expr::After { body, .. } => at(body),
        Expr::Until { left, right, .. } => apply(BinOp::Or, at(left), at(right)),
        Expr::Since { left, right, .. } => apply(BinOp::And, at(left), at(right)),
        Expr::Old(v, _) => sample(v.0, scope.age + 1),
        Expr::Delta(v, _) => change(v.0),
        Expr::RateOf(v, _) => change(v.0) / dt,
        Expr::Index { .. } | Expr::Field { .. } => panic!("not lowered"),
    }
}

fn joined(all: bool, scopes: Vec<Scope>, body: &Expr, dt: f64) -> f64 {
    let mut acc: Option<f64> = None;
    for scope in &scopes {
        let x = value(body, scope, dt);
        acc = Some(match acc {
            None => x,
            Some(y) => apply(if all { BinOp::And } else { BinOp::Or }, y, x),
        });
    }
    acc.unwrap_or(flag(all))
}

// The slot of a variable.
fn slot_of(p: &LcirProgram, v: &VarId) -> usize {
    match p.slot_map.get(v.0) {
        Some(slot) => *slot as usize,
        None => v.0 as usize % 256,
    }
}

// The value of an operation, given the memory.
fn operation(p: &LcirProgram, op: &AtomicOp, memory: &[f64]) -> f64 {
    let get = |v: &VarId| memory[slot_of(p, v)];
    let at = |slot: u8, ago: usize| memory[slot as usize + ago];
    match op {
        AtomicOp::Const(c) => constant(c),
        AtomicOp::Neg(a) => unary(UnOp::Neg, get(a)),
        AtomicOp::Abs(a) => unary(UnOp::Abs, get(a)),
        AtomicOp::Not(a) => unary(UnOp::Not, get(a)),
        AtomicOp::Add(a, b) => apply(BinOp::Add, get(a), get(b)),
        AtomicOp::Sub(a, b) => apply(BinOp::Sub, get(a), get(b)),
        AtomicOp::Mul(a, b) => apply(BinOp::Mul, get(a), get(b)),
        AtomicOp::Div(a, b) => apply(BinOp::Div, get(a), get(b)),
        AtomicOp::Mod(a, b) => apply(BinOp::Mod, get(a), get(b)),
        AtomicOp::Eq(a, b) => apply(BinOp::Eq, get(a), get(b)),
        AtomicOp::Neq(a, b) => apply(BinOp::Neq, get(a), get(b)),
        AtomicOp::Lt(a, b) => apply(BinOp::Lt, get(a), get(b)),
        AtomicOp::Gt(a, b) => apply(BinOp::Gt, get(a), get(b)),
        AtomicOp::Lte(a, b) => apply(BinOp::Lte, get(a), get(b)),
        AtomicOp::Gte(a, b) => apply(BinOp::Gte, get(a), get(b)),
        AtomicOp::And(a, b) => apply(BinOp::And, get(a), get(b)),
        AtomicOp::Or(a, b) => apply(BinOp::Or, get(a), get(b)),
        AtomicOp::Implies(a, b) => apply(BinOp::Implies, get(a), get(b)),
        AtomicOp::LoadSlot(slot) => at(*slot, 0),
        AtomicOp::Old { buffer, depth } => at(*buffer, *depth),
        AtomicOp::Delta { buffer } => at(*buffer, 0) - at(*buffer, 1),
        AtomicOp::RateOf { buffer, dt } => {
            (at(*buffer, 0) - at(*buffer, 1)) / f64::from_bits(dt.0)
        }
    }
}

// The memory with the readings in place.
fn readings(m: &CirModule, p: &LcirProgram) -> Vec<f64> {
    let mut memory = vec![0.0; 256];
    for i in 0..m.symbol_table.vars.len() {
        let v = m.symbol_table.vars.key_at(i);
        memory[slot_of(p, &VarId(1000 + i as u32))] = sample(v, 0);
    }
    for (v, head) in HEADS.iter().enumerate() {
        for ago in 0..16 {
            memory[*head as usize + ago] = sample(v as u32, ago);
        }
    }
    memory
}

// Runs a program from its entry through one cycle of the loop. The answer is
// what was checked.
fn cycle(m: &CirModule, p: &LcirProgram) -> Vec<(String, u64)> {
    let mut memory = readings(m, p);
    let mut found = vec![];
    let mut block = p.entry.0 as usize;
    let mut heads = 0;
    for _ in 0..100000 {
        if p.blocks[block].label == "loop_head" {
            heads += 1;
            if heads == 2 {
                return found;
            }
        }
        for s in &p.blocks[block].stmts {
            match s {
                Stmt::Assign { dest, op, .. } => {
                    memory[slot_of(p, dest)] = operation(p, op, &memory);
                }
                Stmt::Store { src, slot, .. } => {
                    memory[*slot as usize] = memory[slot_of(p, src)];
                }
                Stmt::Assert { cond, invariant_name, .. } => {
                    found.push((invariant_name.clone(), memory[slot_of(p, cond)].to_bits()));
                }
                _ => {}
            }
        }
        match &p.blocks[block].terminator {
            Terminator::Jump(t) => block = t.0 as usize,
            Terminator::Branch { cond, then_target, else_target } => {
                let holds = memory[slot_of(p, cond)] != 0.0;
                block = if holds { then_target.0 } else { else_target.0 } as usize;
            }
            _ => panic!("the program halted"),
        }
    }
    panic!("the loop did not come back");
}

fn binary_of(op: Opcode) -> Option<BinOp> {
    match op {
        Opcode::Add => Some(BinOp::Add),
        Opcode::Sub => Some(BinOp::Sub),
        Opcode::Mul => Some(BinOp::Mul),
        Opcode::Div => Some(BinOp::Div),
        Opcode::Mod => Some(BinOp::Mod),
        Opcode::Eq => Some(BinOp::Eq),
        Opcode::Neq => Some(BinOp::Neq),
        Opcode::Lt => Some(BinOp::Lt),
        Opcode::Gt => Some(BinOp::Gt),
        Opcode::Lte => Some(BinOp::Lte),
        Opcode::Gte => Some(BinOp::Gte),
        Opcode::And => Some(BinOp::And),
        Opcode::Or => Some(BinOp::Or),
        _ => None,
    }
}

// Runs bytecode through one cycle of the loop, or to its end.
fn execute(code: &Bytecode, memory: &mut Vec<f64>) -> (Vec<(String, u64)>, Vec<f64>) {
    let mut stack: Vec<f64> = vec![];
    let mut found = vec![];
    let mut at = 0;
    let mut heads = 0;
    for _ in 0..1000000 {
        let inst = &code.instructions[at];
        let operands: Vec<f64> = inst.operands.iter().map(|r| f64::from_bits(r.0)).collect();
        at += 1;
        if let Some(op) = binary_of(inst.opcode) {
            let y = stack.pop().unwrap();
            let x = stack.pop().unwrap();
            stack.push(apply(op, x, y));
            continue;
        }
        match inst.opcode {
            Opcode::Load => stack.push(memory[operands[0] as usize]),
            Opcode::Store => memory[operands[0] as usize] = stack.pop().unwrap(),
            Opcode::Push => stack.extend(operands),
            Opcode::Not => {
                let x = stack.pop().unwrap();
                stack.push(unary(UnOp::Not, x));
            }
            Opcode::Pabs => {
                let x = stack.pop().unwrap();
                stack.push(unary(UnOp::Abs, x));
            }
            Opcode::Assert => {
                let x = stack.pop().unwrap();
                found.push((inst.metadata.label.clone().unwrap(), x.to_bits()));
            }
            Opcode::Jump => at = operands[0] as usize,
            Opcode::Branch => {
                if stack.pop().unwrap() == 0.0 {
                    at = operands[0] as usize;
                }
            }
            Opcode::Trace => {
                heads += 1;
                if heads == 2 {
                    return (found, stack);
                }
            }
            Opcode::Halt => return (found, stack),
            _ => panic!("{:?} was not expected", inst.opcode),
        }
    }
    panic!("the loop did not come back");
}

fn next(seed: &mut u64, n: u64) -> u64 {
    *seed = seed.wrapping_mul(6364136223846793005).wrapping_add(1442695040888963407);
    (*seed >> 33) % n
}

fn random(seed: &mut u64, depth: u32) -> Expr {
    let ops = [
        BinOp::Add, BinOp::Sub, BinOp::Mul, BinOp::Div, BinOp::Mod, BinOp::Eq, BinOp::Neq,
        BinOp::Lt, BinOp::Gt, BinOp::Lte, BinOp::Gte, BinOp::And, BinOp::Or, BinOp::Implies,
    ];
    if depth == 0 {
        return match next(seed, 6) {
            0 => Expr::Const(ConstValue::Bool(next(seed, 2) == 0)),
            1 => Expr::Const(ConstValue::Integer(next(seed, 7) as i64 - 3)),
            2 => Expr::Old(VarId(next(seed, 3) as u32), boolean()),
            3 => Expr::Delta(VarId(next(seed, 3) as u32), boolean()),
            4 => Expr::RateOf(VarId(next(seed, 3) as u32), boolean()),
            _ => Expr::Var(VarId(next(seed, 3) as u32)),
        };
    }
    let a = Box::new(random(seed, depth - 1));
    match next(seed, 15) {
        0 => Expr::Unary { op: UnOp::Neg, operand: a, ty: boolean() },
        1 => Expr::Unary { op: UnOp::Not, operand: a, ty: boolean() },
        2 => Expr::If {
            cond: a,
            then_branch: Box::new(random(seed, depth - 1)),
            else_branch: Box::new(random(seed, depth - 1)),
            ty: boolean(),
        },
        3 => Expr::Forall {
            var: VarId(next(seed, 3) as u32),
            domain: Domain::Interval { low: -1, high: next(seed, 4) as i64 - 2 },
            body: a,
            ty: boolean(),
        },
        4 => Expr::Exists {
            var: VarId(next(seed, 3) as u32),
            domain: Domain::Array { size: next(seed, 3) as usize },
            body: a,
            ty: boolean(),
        },
        5 => Expr::Until { left: a, right: Box::new(random(seed, depth - 1)), ty: boolean() },
        6 => Expr::Since { left: a, right: Box::new(random(seed, depth - 1)), ty: boolean() },
        7 => Expr::Always(a, boolean()),
        8 => Expr::Eventually(a, boolean()),
        9 => Expr::For { duration: next(seed, 4) as usize, body: a, ty: boolean() },
        10 => Expr::After { duration: 2, body: a, ty: boolean() },
        11 => Expr::Unary { op: UnOp::Abs, operand: a, ty: boolean() },
        _ => Expr::Binary {
            op: ops[next(seed, 14) as usize],
            left: a,
            right: Box::new(random(seed, depth - 1)),
            ty: boolean(),
        },
    }
}

fn rule(name: &str, when: Option<Expr>, ensure: Expr) -> CirInvariant {
    CirInvariant {
        name: name.to_string(),
        priority: Priority::Minor,
        when,
        ensure,
        on_violation: ViolationAction::Warn,
        source_span: Span::new("m.guard", 1, 1),
    }
}

fn module() -> CirModule {
    let mut symbol_table = SymbolTable::new();
    for (name, kind) in
        [("x", VarKind::State), ("c", VarKind::Constant), ("y", VarKind::State)]
    {
        symbol_table.fresh_var(name.to_string(), boolean(), kind, Span::new("m", 1, 1));
    }
    for (v, head) in HEADS.iter().enumerate() {
        symbol_table.fresh_buffer(format!("h{}", v), VarId(v as u32), RETAINED, *head);
    }
    CirModule {
        name: "m".to_string(),
        version: "1".to_string(),
        sample_period_ms: Real(20.0f64.to_bits()),
        symbol_table,
        invariants: vec![],
        derived: vec![],
        proof_config: vec![],
    }
}

// Three invariants, some of them guarded.
fn invariants(seed: &mut u64, round: u32) -> CirModule {
    let mut m = module();
    for i in 0..3 {
        let when = if next(seed, 3) == 0 { None } else { Some(random(seed, 2)) };
        let ensure = random(seed, 1 + round % 4);
        m.invariants.push(rule(&format!("i{}", i), when, ensure));
    }
    m
}

fn expected(m: &CirModule) -> Vec<(String, u64)> {
    let mut out = vec![];
    for inv in &m.invariants {
        let applies = match &inv.when {
            Some(when) => value(when, &Scope::top(), 0.02) != 0.0,
            None => true,
        };
        if applies {
            out.push((inv.name.clone(), value(&inv.ensure, &Scope::top(), 0.02).to_bits()));
        }
    }
    out
}

// The lowered module, unless it asks for samples that no buffer retains.
fn program(m: &CirModule) -> Option<LcirProgram> {
    let top = Scope::top();
    let fine = m.invariants.iter().all(|inv| {
        let guarded = match &inv.when {
            Some(when) => readable(when, &top),
            None => true,
        };
        guarded && readable(&inv.ensure, &top)
    });
    match lower_module(m) {
        Ok(p) => {
            assert!(fine);
            Some(p)
        }
        Err(GuardError::Lowering(s)) => {
            assert!(!fine);
            assert_eq!(s, "sample is older than any that a history buffer retains");
            None
        }
        Err(_) => panic!("no other error was expected"),
    }
}

#[test]
fn a_cycle_checks_the_invariants() {
    let mut seed: u64 = 42;
    let mut programs = 0;
    for round in 0..300u32 {
        let m = invariants(&mut seed, round);
        if let Some(p) = program(&m) {
            assert_eq!(cycle(&m, &p), expected(&m));
            programs += 1;
        }
    }
    assert!(200 < programs && programs < 300);
}

#[test]
fn an_unguarded_invariant_is_found_in_every_cycle() {
    let mut m = module();
    m.invariants.push(rule("free", None, Expr::Const(ConstValue::Bool(true))));
    let p = lower_module(&m).unwrap();
    assert_eq!(cycle(&m, &p), vec![("free".to_string(), 1.0f64.to_bits())]);
}

#[test]
fn a_body_is_read_for_each_member_and_each_sample() {
    let below = |limit: f64| Expr::Binary {
        op: BinOp::Lt,
        left: Box::new(Expr::Var(VarId(0))),
        right: Box::new(Expr::Const(ConstValue::Integer(limit as i64))),
        ty: boolean(),
    };
    // The samples of the variable are 3, 2.5, 2 and 1.5, the newest first.
    let lasting = |duration: usize, e: Expr| Expr::For {
        duration,
        body: Box::new(e),
        ty: boolean(),
    };
    let not = |e: Expr| Expr::Unary { op: UnOp::Not, operand: Box::new(e), ty: boolean() };
    let cases = vec![
        (lasting(2, not(below(2.0))), true),
        (lasting(4, not(below(2.0))), false),
        (Expr::Always(Box::new(below(4.0)), boolean()), true),
        (Expr::Always(Box::new(not(below(2.0))), boolean()), false),
        (Expr::Eventually(Box::new(below(2.0)), boolean()), true),
        (Expr::Eventually(Box::new(below(1.0)), boolean()), false),
    ];
    for (e, holds) in cases {
        let mut m = module();
        m.invariants.push(rule("i", None, e));
        let p = lower_module(&m).unwrap();
        assert_eq!(cycle(&m, &p), vec![("i".to_string(), flag(holds).to_bits())]);
    }
}

#[test]
fn denying_all_is_finding_one_that_fails() {
    let body = Expr::Binary {
        op: BinOp::Lt,
        left: Box::new(Expr::Var(VarId(9))),
        right: Box::new(Expr::Var(VarId(0))),
        ty: boolean(),
    };
    let not = |e: Expr| Expr::Unary { op: UnOp::Not, operand: Box::new(e), ty: boolean() };
    // The variable is 3.
    for (high, holds) in [(2, false), (3, true), (-1, false)] {
        let domain = Domain::Interval { low: 0, high };
        let all = Expr::Forall {
            var: VarId(9),
            domain: domain.clone(),
            body: Box::new(body.clone()),
            ty: boolean(),
        };
        let some = Expr::Exists {
            var: VarId(9),
            domain,
            body: Box::new(not(body.clone())),
            ty: boolean(),
        };
        let mut m = module();
        m.invariants.push(rule("all", None, not(all)));
        m.invariants.push(rule("some", None, some));
        let found = cycle(&m, &lower_module(&m).unwrap());
        let bits = flag(holds).to_bits();
        assert_eq!(found, vec![("all".to_string(), bits), ("some".to_string(), bits)]);
    }
}

// Validation goes through the instructions in order and wants values on the stack
// that were pushed before. The answer is how many are pushed here.
fn pad(p: &mut LcirProgram) -> usize {
    let count: usize = p.blocks.iter().map(|b| 8 * b.stmts.len() + 8).sum();
    let mut stmts = vec![];
    for _ in 0..count {
        stmts.push(Stmt::PushConst {
            value: ConstValue::Integer(8),
            span: Span::new("m", 1, 1),
        });
    }
    stmts.append(&mut p.blocks[0].stmts);
    p.blocks[0].stmts = stmts;
    count
}

#[test]
fn the_bytecode_checks_what_the_program_checks() {
    let mut seed: u64 = 7;
    for round in 0..100u32 {
        let m = invariants(&mut seed, round);
        let Some(mut p) = program(&m) else {
            continue;
        };
        let plain = p.clone();
        let count = pad(&mut p);
        let code = codegen(&p).unwrap();
        let mut memory = readings(&m, &p);
        let (found, stack) = execute(&code, &mut memory);
        assert_eq!(found, cycle(&m, &plain));
        assert_eq!(found, expected(&m));
        assert_eq!(stack.len(), count);
    }
}

#[test]
fn the_code_of_an_operation_leaves_its_value() {
    let mut memory: Vec<f64> = (0..256).map(|slot| slot as f64 * 1.25 - 3.0).collect();
    let (a, b) = (VarId(3), VarId(4));
    let cases = vec![
        AtomicOp::Const(ConstValue::Integer(-5)),
        AtomicOp::Neg(a),
        AtomicOp::Abs(a),
        AtomicOp::Abs(VarId(0)),
        AtomicOp::Not(a),
        AtomicOp::Add(a, b),
        AtomicOp::Sub(a, b),
        AtomicOp::Mul(a, b),
        AtomicOp::Div(a, b),
        AtomicOp::Mod(a, b),
        AtomicOp::Eq(a, b),
        AtomicOp::Neq(a, b),
        AtomicOp::Lt(a, b),
        AtomicOp::Gt(a, b),
        AtomicOp::Lte(a, b),
        AtomicOp::Gte(a, b),
        AtomicOp::And(a, b),
        AtomicOp::Or(a, b),
        AtomicOp::Implies(a, b),
        AtomicOp::LoadSlot(7),
        AtomicOp::Old { buffer: 128, depth: 2 },
        AtomicOp::Delta { buffer: 128 },
        AtomicOp::RateOf { buffer: 128, dt: Real(0.02f64.to_bits()) },
    ];
    for op in cases {
        let mut builder = LcirBuilder::new("p", "1");
        for _ in 0..3 {
            builder.emit(Stmt::PushConst {
                value: ConstValue::Integer(8),
                span: Span::new("m", 1, 1),
            });
        }
        builder.emit(Stmt::Assign { dest: VarId(9), op: op.clone(), span: Span::new("m", 1, 1) });
        let p = builder.build();
        let code = codegen(&p).unwrap();
        let (_, stack) = execute(&code, &mut memory);
        let expected = operation(&p, &op, &memory);
        assert_eq!(stack, vec![8.0, 8.0, 8.0, expected], "{:?}", op);
    }
}

#[test]
fn the_absolute_value_is_checked_in_the_bytecode() {
    // The variable is 3, so that the difference is -7.
    let less = Expr::Binary {
        op: BinOp::Sub,
        left: Box::new(Expr::Var(VarId(0))),
        right: Box::new(Expr::Const(ConstValue::Integer(10))),
        ty: boolean(),
    };
    let size = Expr::Unary { op: UnOp::Abs, operand: Box::new(less), ty: boolean() };
    for (limit, holds) in [(5, false), (7, false), (8, true)] {
        let mut m = module();
        m.invariants.push(rule(
            "i",
            None,
            Expr::Binary {
                op: BinOp::Lt,
                left: Box::new(size.clone()),
                right: Box::new(Expr::Const(ConstValue::Integer(limit))),
                ty: boolean(),
            },
        ));
        let mut p = lower_module(&m).unwrap();
        pad(&mut p);
        let code = codegen(&p).unwrap();
        let mut memory = readings(&m, &p);
        let (found, _) = execute(&code, &mut memory);
        assert_eq!(found, vec![("i".to_string(), flag(holds).to_bits())]);
    }
}
