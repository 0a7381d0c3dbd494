//! Lowering: from constraint modules to blocks.

use guardc::binary64::Real;
use guardc::cir::BinOp;
use guardc::cir::CirInvariant;
use guardc::cir::CirModule;
use guardc::cir::CirType;
use guardc::cir::ConstValue;
use guardc::cir::Domain;
use guardc::cir::Expr;
use guardc::cir::Priority;
use guardc::cir::SymbolTable;
use guardc::cir::TypeKind;
use guardc::cir::UnOp;
use guardc::cir::Unit;
use guardc::cir::VarId;
use guardc::cir::VarKind;
use guardc::cir::ViolationAction;
use guardc::error::GuardError;
use guardc::error::Span;
use guardc::lcir::AtomicOp;
use guardc::lcir::BlockId;
use guardc::lcir::HaltReason;
use guardc::lcir::LcirBuilder;
use guardc::lcir::LcirProgram;
use guardc::lcir::Stmt;
use guardc::lcir::Terminator;
use guardc::lower::lower_expr_to_var;
use guardc::lower::lower_expr_to_var_checked;
use guardc::lower::lower_module;
use guardc::lower::lower_module_checked;
use guardc::lower::LowerCtx;

fn boolean() -> CirType {
    CirType { kind: TypeKind::Boolean, unit: Unit::Dimensionless }
}

fn number() -> CirType {
    CirType { kind: TypeKind::Real, unit: Unit::Dimensionless }
}

fn truth(b: bool) -> Expr {
    Expr::Const(ConstValue::Bool(b))
}

fn integer(v: i64) -> Expr {
    Expr::Const(ConstValue::Integer(v))
}

fn var(n: u32) -> Expr {
    Expr::Var(VarId(n))
}

fn binary(op: BinOp, l: Expr, r: Expr) -> Expr {
    Expr::Binary { op, left: Box::new(l), right: Box::new(r), ty: boolean() }
}

fn module(vars: &[(&str, VarKind)]) -> CirModule {
    let mut symbol_table = SymbolTable::new();
    for (name, kind) in vars {
        symbol_table.fresh_var(name.to_string(), number(), kind.clone(), Span::new("m", 1, 1));
    }
    CirModule {
        name: "m".to_string(),
        version: "1.2".to_string(),
        sample_period_ms: Real(20.0f64.to_bits()),
        symbol_table,
        invariants: vec![],
        derived: vec![],
        proof_config: vec![],
    }
}

fn rule(name: &str, when: Option<Expr>, ensure: Expr) -> CirInvariant {
    CirInvariant {
        name: name.to_string(),
        priority: Priority::Critical,
        when,
        ensure,
        on_violation: ViolationAction::Halt,
        source_span: Span::new("m.guard", 4, 2),
    }
}

// The statements of the current block, once an expression is lowered into it.
fn lowered(m: &CirModule, e: &Expr) -> (Vec<AtomicOp>, VarId) {
    let mut ctx = LowerCtx::new(m);
    for i in 0..m.symbol_table.vars.len() {
        ctx.map_var(VarId(m.symbol_table.vars.key_at(i)));
    }
    let v = lower_expr_to_var(&mut ctx, e).unwrap();
    (ops(&ctx.builder.program, 0), v)
}

fn ops(p: &LcirProgram, block: usize) -> Vec<AtomicOp> {
    let mut out = vec![];
    for s in &p.blocks[block].stmts {
        if let Stmt::Assign { op, .. } = s {
            out.push(op.clone());
        }
    }
    out
}

#[test]
fn a_module_without_invariants_loops() {
    let p = lower_module(&module(&[])).unwrap();
    assert_eq!(p.name, "m");
    assert_eq!(p.version, "1.2");
    assert_eq!(p.blocks.len(), 4);
    let labels: Vec<&str> = p.blocks.iter().map(|b| b.label.as_str()).collect();
    assert_eq!(labels, vec!["entry", "loop_head", "loop_body", "loop_exit"]);
    assert!(p.blocks[0].terminator == Terminator::Jump(BlockId(1)));
    assert!(p.blocks[1].terminator == Terminator::Jump(BlockId(2)));
    assert!(p.blocks[2].terminator == Terminator::Jump(BlockId(1)));
    assert!(p.blocks[3].terminator == Terminator::Halt { reason: HaltReason::Normal });
    assert!(
        p.blocks[1].stmts
            == vec![Stmt::Trace {
                label: "constraint_loop".to_string(),
                span: Span::new("<lower>", 0, 0),
            }]
    );
    assert!(p.entry == BlockId(0));
    assert_eq!(p.slot_count, 0);
    assert!(p.validate().is_ok());
}

#[test]
fn variables_get_slots_and_constants_are_stored() {
    let m = module(&[("x", VarKind::State), ("c", VarKind::Constant), ("y", VarKind::State)]);
    let p = lower_module(&m).unwrap();
    assert_eq!(p.slot_count, 3);
    assert_eq!(p.slot_map.get(1000), Some(&32));
    assert_eq!(p.slot_map.get(1001), Some(&0));
    assert_eq!(p.slot_map.get(1002), Some(&33));
    assert!(
        p.blocks[0].stmts
            == vec![Stmt::Store { src: VarId(1001), slot: 0, span: Span::new("<init>", 0, 0) }]
    );
}

#[test]
fn memory_is_laid_out_by_kind() {
    let mut m = module(&[
        ("l", VarKind::Local),
        ("t", VarKind::Temporal),
        ("s", VarKind::State),
        ("c", VarKind::Constant),
        ("u", VarKind::Temporal),
        ("d", VarKind::Constant),
    ]);
    // The buffer takes slots 128 to 131.
    m.symbol_table.fresh_buffer("h".to_string(), VarId(2), 3, 128);
    m.invariants.push(rule("i", None, truth(true)));
    let p = lower_module(&m).unwrap();
    let slots: Vec<u8> = (1000..1006).map(|v| *p.slot_map.get(v).unwrap()).collect();
    assert_eq!(slots, vec![224, 132, 32, 0, 133, 1]);
    assert_eq!(p.slot_map.get(1006), Some(&255));
    assert_eq!(p.slot_count, 7);
}

#[test]
fn a_guarded_invariant_branches_around_its_check() {
    let mut m = module(&[("x", VarKind::State)]);
    m.invariants.push(rule("cap", Some(truth(true)), binary(BinOp::Lte, var(0), integer(150))));
    let p = lower_module(&m).unwrap();
    assert_eq!(p.blocks.len(), 6);
    assert_eq!(p.blocks[4].label, "inv_cap");
    assert_eq!(p.blocks[5].label, "inv_cap_done");
    assert!(
        p.blocks[2].terminator
            == Terminator::Branch {
                cond: VarId(1001),
                then_target: BlockId(4),
                else_target: BlockId(5),
            }
    );
    assert!(ops(&p, 2) == vec![AtomicOp::Const(ConstValue::Bool(true))]);
    assert!(
        ops(&p, 4)
            == vec![
                AtomicOp::Const(ConstValue::Integer(150)),
                AtomicOp::Lte(VarId(1000), VarId(1002)),
            ]
    );
    assert!(
        p.blocks[4].stmts[2]
            == Stmt::Assert {
                cond: VarId(1003),
                invariant_name: "cap".to_string(),
                span: Span::new("m.guard", 4, 2),
            }
    );
    assert!(p.blocks[4].terminator == Terminator::Jump(BlockId(5)));
    assert!(p.blocks[5].terminator == Terminator::Jump(BlockId(1)));
    assert!(p.validate().is_ok());
}

#[test]
fn an_unguarded_invariant_is_always_checked() {
    let mut m = module(&[]);
    m.invariants.push(rule("always", None, truth(true)));
    let p = lower_module(&m).unwrap();
    assert!(p.blocks[2].terminator == Terminator::Jump(BlockId(4)));
    assert!(
        p.blocks[4].stmts[1]
            == Stmt::Assert {
                cond: VarId(1000),
                invariant_name: "always".to_string(),
                span: Span::new("m.guard", 4, 2),
            }
    );
    assert!(p.blocks[4].terminator == Terminator::Jump(BlockId(5)));
    assert!(p.blocks[5].terminator == Terminator::Jump(BlockId(1)));
}

#[test]
fn a_program_knows_its_invariants() {
    let mut m = module(&[("x", VarKind::State)]);
    m.invariants.push(rule("one", None, var(0)));
    m.invariants.push(rule("two", Some(var(0)), truth(true)));
    m.invariants[1].priority = Priority::Minor;
    m.invariants[1].on_violation = ViolationAction::Log;
    m.invariants[1].source_span = Span::new("m.guard", 9, 1);
    let p = lower_module(&m).unwrap();
    assert_eq!(p.invariant_metadata.len(), 2);
    let (one, two) = (&p.invariant_metadata[0], &p.invariant_metadata[1]);
    assert_eq!(one.name, "one");
    assert!(one.priority == Priority::Critical);
    assert!(one.on_violation == ViolationAction::Halt);
    assert!(one.source_span == Span::new("m.guard", 4, 2));
    assert_eq!(one.assert_slot, 32);
    assert_eq!(two.name, "two");
    assert!(two.priority == Priority::Minor);
    assert!(two.on_violation == ViolationAction::Log);
    assert!(two.source_span == Span::new("m.guard", 9, 1));
    assert_eq!(two.assert_slot, 255);
}

#[test]
fn operations_are_flattened() {
    let m = module(&[("x", VarKind::State)]);
    let e = Expr::Unary {
        op: UnOp::Not,
        operand: Box::new(binary(BinOp::Implies, var(0), truth(false))),
        ty: boolean(),
    };
    let (code, v) = lowered(&m, &e);
    assert!(
        code == vec![
            AtomicOp::Const(ConstValue::Bool(false)),
            AtomicOp::Implies(VarId(1000), VarId(1001)),
            AtomicOp::Not(VarId(1002)),
        ]
    );
    assert!(v == VarId(1003));
}

#[test]
fn every_binary_operator_has_its_operation() {
    let m = module(&[("a", VarKind::State), ("b", VarKind::State)]);
    let (a, b) = (VarId(1000), VarId(1001));
    let cases = vec![
        (BinOp::Add, AtomicOp::Add(a, b)),
        (BinOp::Sub, AtomicOp::Sub(a, b)),
        (BinOp::Mul, AtomicOp::Mul(a, b)),
        (BinOp::Div, AtomicOp::Div(a, b)),
        (BinOp::Mod, AtomicOp::Mod(a, b)),
        (BinOp::Eq, AtomicOp::Eq(a, b)),
        (BinOp::Neq, AtomicOp::Neq(a, b)),
        (BinOp::Lt, AtomicOp::Lt(a, b)),
        (BinOp::Gt, AtomicOp::Gt(a, b)),
        (BinOp::Lte, AtomicOp::Lte(a, b)),
        (BinOp::Gte, AtomicOp::Gte(a, b)),
        (BinOp::And, AtomicOp::And(a, b)),
        (BinOp::Or, AtomicOp::Or(a, b)),
        (BinOp::Implies, AtomicOp::Implies(a, b)),
    ];
    for (op, atomic) in cases {
        let (code, v) = lowered(&m, &binary(op, var(0), var(1)));
        assert!(code == vec![atomic]);
        assert!(v == VarId(1002));
    }
}

#[test]
fn a_conditional_passes_its_value_through_a_slot() {
    let m = module(&[("x", VarKind::State)]);
    let mut ctx = LowerCtx::new(&m);
    ctx.map_var(VarId(0));
    let e = Expr::If {
        cond: Box::new(var(0)),
        then_branch: Box::new(integer(1)),
        else_branch: Box::new(integer(2)),
        ty: number(),
    };
    let v = lower_expr_to_var(&mut ctx, &e).unwrap();
    let p = ctx.builder.build();
    let span = Span::new("<lower>", 0, 0);
    assert_eq!(p.blocks.len(), 4);
    let labels: Vec<&str> = p.blocks.iter().map(|b| b.label.as_str()).collect();
    assert_eq!(labels, vec!["entry", "if_then", "if_else", "if_merge"]);
    assert!(
        p.blocks[0].terminator
            == Terminator::Branch {
                cond: VarId(1000),
                then_target: BlockId(1),
                else_target: BlockId(2),
            }
    );
    assert!(
        p.blocks[1].stmts
            == vec![
                Stmt::Assign {
                    dest: VarId(1001),
                    op: AtomicOp::Const(ConstValue::Integer(1)),
                    span: span.clone(),
                },
                Stmt::Assign {
                    dest: VarId(1002),
                    op: AtomicOp::Const(ConstValue::Bool(true)),
                    span: span.clone(),
                },
                Stmt::Store { src: VarId(1001), slot: 254, span: span.clone() },
            ]
    );
    assert!(
        p.blocks[2].stmts
            == vec![
                Stmt::Assign {
                    dest: VarId(1003),
                    op: AtomicOp::Const(ConstValue::Integer(2)),
                    span: span.clone(),
                },
                Stmt::Store { src: VarId(1003), slot: 254, span: span.clone() },
            ]
    );
    assert!(
        p.blocks[3].stmts
            == vec![Stmt::Assign { dest: VarId(1004), op: AtomicOp::LoadSlot(254), span }]
    );
    assert!(p.blocks[1].terminator == Terminator::Jump(BlockId(3)));
    assert!(p.blocks[2].terminator == Terminator::Jump(BlockId(3)));
    assert!(v == VarId(1004));
}

#[test]
fn quantifiers_expand_over_their_domains() {
    let m = module(&[("x", VarKind::State)]);
    let all = |domain: Domain| Expr::Forall {
        var: VarId(9),
        domain,
        body: Box::new(var(0)),
        ty: boolean(),
    };
    let some = |domain: Domain| Expr::Exists {
        var: VarId(9),
        domain,
        body: Box::new(var(0)),
        ty: boolean(),
    };
    let x = VarId(1000);
    let (code, v) = lowered(&m, &all(Domain::Interval { low: -1, high: 1 }));
    assert!(code == vec![AtomicOp::And(x, x), AtomicOp::And(VarId(1001), x)]);
    assert!(v == VarId(1002));
    let (code, v) = lowered(&m, &some(Domain::Array { size: 2 }));
    assert!(code == vec![AtomicOp::Or(x, x)]);
    assert!(v == VarId(1001));
    let one = Domain::Enum(vec!["only".to_string()]);
    let (code, v) = lowered(&m, &all(one));
    assert!(code.is_empty());
    assert!(v == x);
    let (code, _) = lowered(&m, &all(Domain::Interval { low: 2, high: 1 }));
    assert!(code == vec![AtomicOp::Const(ConstValue::Bool(true))]);
    let (code, _) = lowered(&m, &some(Domain::Array { size: 0 }));
    assert!(code == vec![AtomicOp::Const(ConstValue::Bool(false))]);
}

#[test]
fn a_bound_variable_reads_the_members_of_its_domain() {
    let m = module(&[("x", VarKind::State)]);
    let below = Box::new(binary(BinOp::Lt, var(9), var(0)));
    let all = |domain: Domain| Expr::Forall {
        var: VarId(9),
        domain,
        body: below.clone(),
        ty: boolean(),
    };
    let x = VarId(1000);
    let member = |i: i64| AtomicOp::Const(ConstValue::Integer(i));
    let (code, v) = lowered(&m, &all(Domain::Interval { low: -1, high: 1 }));
    assert!(
        code == vec![
            member(-1),
            AtomicOp::Lt(VarId(1001), x),
            member(0),
            AtomicOp::Lt(VarId(1003), x),
            AtomicOp::And(VarId(1002), VarId(1004)),
            member(1),
            AtomicOp::Lt(VarId(1006), x),
            AtomicOp::And(VarId(1005), VarId(1007)),
        ]
    );
    assert!(v == VarId(1008));
    let two = vec![
        member(0),
        AtomicOp::Lt(VarId(1001), x),
        member(1),
        AtomicOp::Lt(VarId(1003), x),
        AtomicOp::And(VarId(1002), VarId(1004)),
    ];
    assert!(lowered(&m, &all(Domain::Array { size: 2 })).0 == two);
    assert!(lowered(&m, &all(Domain::Interval { low: 0, high: 1 })).0 == two);
    let names = Domain::Enum(vec!["a".to_string(), "b".to_string()]);
    assert!(lowered(&m, &all(names)).0 == two);
    // The inner one of two quantifiers over a variable binds it.
    let inner = Expr::Exists {
        var: VarId(9),
        domain: Domain::Interval { low: 7, high: 7 },
        body: Box::new(all(Domain::Interval { low: 5, high: 5 })),
        ty: boolean(),
    };
    assert!(lowered(&m, &inner).0 == vec![member(5), AtomicOp::Lt(VarId(1001), x)]);
}

#[test]
fn temporal_operators_unroll_over_samples() {
    let mut m = module(&[("x", VarKind::State), ("y", VarKind::State)]);
    m.symbol_table.fresh_buffer("h".to_string(), VarId(1), 2, 128);
    let code = |e: Expr| {
        let mut m = m.clone();
        m.invariants.push(rule("i", None, e));
        ops(&lower_module(&m).unwrap(), 4)
    };
    let y = VarId(1001);
    let old = |depth: usize| AtomicOp::Old { buffer: 128, depth };
    let span = |duration: usize, e: Expr| Expr::For {
        duration,
        body: Box::new(e),
        ty: boolean(),
    };
    assert!(
        code(span(3, var(1)))
            == vec![
                old(1),
                AtomicOp::And(y, VarId(1002)),
                old(2),
                AtomicOp::And(VarId(1003), VarId(1004)),
            ]
    );
    assert!(code(span(1, var(1))).is_empty());
    assert!(code(span(0, var(1))) == vec![AtomicOp::Const(ConstValue::Bool(true))]);
    // A change within the last two samples.
    let change = Expr::Delta(VarId(1), number());
    assert!(
        code(span(2, change.clone()))
            == vec![
                AtomicOp::Delta { buffer: 128 },
                AtomicOp::Delta { buffer: 129 },
                AtomicOp::And(VarId(1002), VarId(1003)),
            ]
    );
    // Two samples are retained.
    let always = code(Expr::Always(Box::new(var(1)), boolean()));
    assert!(always == code(span(3, var(1))));
    assert!(
        code(Expr::Eventually(Box::new(var(1)), boolean()))
            == vec![
                old(1),
                AtomicOp::Or(y, VarId(1002)),
                old(2),
                AtomicOp::Or(VarId(1003), VarId(1004)),
            ]
    );
    assert!(code(Expr::Always(Box::new(change.clone()), boolean())) == code(span(2, change)));
    // Nothing is retained of the other variable.
    assert!(code(Expr::Always(Box::new(var(0)), boolean())).is_empty());
}

#[test]
fn temporal_operators_become_single_steps() {
    let m = module(&[("a", VarKind::State), ("b", VarKind::State)]);
    let (a, b) = (VarId(1000), VarId(1001));
    let plain = vec![
        Expr::Always(Box::new(var(0)), boolean()),
        Expr::Eventually(Box::new(var(0)), boolean()),
        Expr::Next(Box::new(var(0)), boolean()),
        Expr::After { duration: 5, body: Box::new(var(0)), ty: boolean() },
    ];
    for e in plain {
        let (code, v) = lowered(&m, &e);
        assert!(code.is_empty());
        assert!(v == a);
    }
    let until = Expr::Until { left: Box::new(var(0)), right: Box::new(var(1)), ty: boolean() };
    assert!(lowered(&m, &until).0 == vec![AtomicOp::Or(a, b)]);
    let since = Expr::Since { left: Box::new(var(0)), right: Box::new(var(1)), ty: boolean() };
    assert!(lowered(&m, &since).0 == vec![AtomicOp::And(a, b)]);
}

#[test]
fn histories_are_read_from_their_buffers() {
    let mut m = module(&[("x", VarKind::State), ("y", VarKind::State)]);
    m.symbol_table.fresh_buffer("h".to_string(), VarId(1), 4, 128);
    m.invariants.push(rule(
        "i",
        Some(truth(true)),
        binary(
            BinOp::And,
            Expr::Delta(VarId(1), number()),
            binary(BinOp::And, Expr::Old(VarId(0), number()), Expr::RateOf(VarId(1), number())),
        ),
    ));
    let p = lower_module(&m).unwrap();
    assert_eq!(p.slot_map.get(1), None);
    let code = ops(&p, 4);
    assert!(code[0] == AtomicOp::Delta { buffer: 128 });
    // Without a buffer the variable's own slot serves.
    assert!(code[1] == AtomicOp::Old { buffer: 32, depth: 1 });
    assert!(code[2] == AtomicOp::RateOf { buffer: 128, dt: Real(0.02f64.to_bits()) });
}

#[test]
fn accesses_are_not_lowered() {
    let m = module(&[]);
    let mut ctx = LowerCtx::new(&m);
    let index = Expr::Index { array: VarId(0), index: Box::new(integer(0)), ty: number() };
    match lower_expr_to_var(&mut ctx, &index) {
        Err(GuardError::Lowering(s)) => {
            assert_eq!(s, "array index lowering not yet implemented");
        }
        _ => panic!("an error was expected"),
    }
    let field = Expr::Field { record: VarId(0), field: "f".to_string(), ty: number() };
    match lower_expr_to_var(&mut ctx, &field) {
        Err(GuardError::Lowering(s)) => {
            assert_eq!(s, "field access lowering not yet implemented");
        }
        _ => panic!("an error was expected"),
    }
    let mut m = module(&[]);
    m.invariants.push(rule("f", None, field));
    assert!(lower_module(&m).is_err());
}

#[test]
fn mapping_a_variable_gives_it_a_slot() {
    let m = module(&[]);
    let mut ctx = LowerCtx::new(&m);
    let id = ctx.map_var(VarId(42));
    assert!(id == VarId(1000));
    assert_eq!(ctx.builder.program.slot_map.get(1000), Some(&224));
    assert!(ctx.map_var(VarId(42)) == id);
    assert_eq!(ctx.slot_for(VarId(42)), 224);
    assert_eq!(ctx.slot_for(VarId(7)), 225);
    assert_eq!(ctx.builder.program.slot_count, 2);
    assert!(ctx.fresh_tmp(number(), "t") == VarId(1001));
    assert_eq!(ctx.tmp_counter, 1);
}

#[test]
fn memory_runs_out_after_the_last_slot() {
    let mut m = module(&[]);
    for i in 0..96 {
        m.symbol_table.fresh_var(
            format!("v{}", i),
            number(),
            VarKind::State,
            Span::new("m", 1, 1),
        );
    }
    let p = lower_module_checked(&m).unwrap().unwrap();
    assert_eq!(p.slot_count, 96);
    assert_eq!(p.slot_map.get(1095), Some(&127));
    m.symbol_table.fresh_var("last".to_string(), number(), VarKind::State, Span::new("m", 1, 1));
    assert!(lower_module_checked(&m).is_none());
    // No slot has a number above 255.
    let mut small = module(&[("x", VarKind::State)]);
    small.symbol_table.fresh_buffer("h".to_string(), VarId(0), 200, 130);
    small.invariants.push(rule("i", None, lasting(126, var(0))));
    assert!(lower_module_checked(&small).unwrap().is_ok());
    small.invariants[0] = rule("i", None, lasting(127, var(0)));
    assert!(lower_module_checked(&small).is_none());
    small.invariants.clear();
    let mut ctx = LowerCtx::new(&small);
    ctx.tmp_counter = u32::MAX;
    assert!(lower_expr_to_var_checked(&mut ctx, &integer(1)).is_none());
}

// As many values are wanted at once as there are levels, and one more.
fn nested(levels: usize) -> Expr {
    let mut e = truth(true);
    for _ in 0..levels {
        e = binary(BinOp::And, truth(true), e);
    }
    e
}

#[test]
fn temporaries_use_the_slots_that_no_local_has() {
    let lowers = |locals: usize, e: Expr| {
        let mut m = module(&[]);
        for i in 0..locals {
            m.symbol_table.fresh_var(
                format!("l{}", i),
                number(),
                VarKind::Local,
                Span::new("m", 1, 1),
            );
        }
        m.invariants.push(rule("i", None, e));
        match lower_module_checked(&m) {
            Some(r) => {
                assert!(r.is_ok());
                true
            }
            None => false,
        }
    };
    assert!(lowers(0, nested(31)));
    assert!(!lowers(0, nested(32)));
    assert!(lowers(1, nested(30)));
    assert!(!lowers(1, nested(31)));
    assert!(lowers(31, nested(0)));
    assert!(!lowers(32, nested(0)));
    assert!(lowers(32, var(0)));
    assert!(!lowers(33, var(0)));
}

#[test]
fn conjunctions_nest_to_the_right() {
    let mut m = module(&[("x", VarKind::State)]);
    let below = |limit: i64| binary(BinOp::Lt, var(0), integer(limit));
    let mut e = below(100);
    for i in 0..24 {
        e = binary(BinOp::And, below(i), e);
    }
    m.invariants.push(rule("i", None, e));
    let p = lower_module_checked(&m).unwrap().unwrap();
    assert_eq!(ops(&p, 4).len(), 74);
}

#[test]
fn a_temporary_can_have_its_slot_again() {
    let mut m = module(&[("x", VarKind::State)]);
    let mut e = truth(true);
    for _ in 0..100 {
        e = binary(BinOp::And, e, truth(true));
    }
    m.invariants.push(rule("i", None, e));
    let p = lower_module_checked(&m).unwrap().unwrap();
    assert_eq!(p.slot_map.get(1001), Some(&255));
    assert_eq!(p.slot_map.get(1002), Some(&254));
    assert_eq!(p.slot_map.get(1003), Some(&255));
    assert_eq!(p.slot_count, 3);
}

fn lasting(duration: usize, e: Expr) -> Expr {
    Expr::For { duration, body: Box::new(e), ty: boolean() }
}

fn refused(e: Result<VarId, GuardError>) -> String {
    match e {
        Err(GuardError::Lowering(s)) => s,
        _ => panic!("an error was expected"),
    }
}

#[test]
fn samples_that_no_buffer_retains_are_refused() {
    let mut m = module(&[("x", VarKind::State), ("y", VarKind::State)]);
    m.symbol_table.fresh_buffer("h".to_string(), VarId(0), 3, 128);
    let tell = |e: Expr| refused(lower_expr_to_var(&mut LowerCtx::new(&m), &e));
    let fine = |e: Expr| lower_expr_to_var(&mut LowerCtx::new(&m), &e).is_ok();
    let old = "sample is older than any that a history buffer retains";
    assert!(fine(lasting(4, var(0))));
    assert_eq!(tell(lasting(5, var(0))), old);
    assert!(fine(lasting(1, var(1))));
    assert_eq!(tell(lasting(2, var(1))), old);
    let before = |e: fn(VarId, CirType) -> Expr| e(VarId(0), number());
    for e in [before(Expr::Old), before(Expr::Delta), before(Expr::RateOf)] {
        assert!(fine(lasting(3, e.clone())));
        assert_eq!(tell(lasting(4, e)), old);
    }
    assert_eq!(tell(lasting(2, lasting(4, var(0)))), old);
    // What is bound or constant has a value at any time.
    assert!(fine(lasting(9, truth(true))));
    assert!(fine(lasting(9, all(Domain::Array { size: 1 }, var(9)))));
    assert!(fine(all(Domain::Array { size: 0 }, lasting(9, var(0)))));
    m.invariants.push(rule("i", None, lasting(5, var(0))));
    match lower_module(&m) {
        Err(GuardError::Lowering(s)) => assert_eq!(s, old),
        _ => panic!("an error was expected"),
    }
}

fn all(domain: Domain, body: Expr) -> Expr {
    Expr::Forall { var: VarId(9), domain, body: Box::new(body), ty: boolean() }
}

fn some(domain: Domain, body: Expr) -> Expr {
    Expr::Exists { var: VarId(9), domain, body: Box::new(body), ty: boolean() }
}

#[test]
fn the_first_part_that_is_not_lowered_decides_on_the_error() {
    let m = module(&[("x", VarKind::State)]);
    let index = Expr::Index { array: VarId(0), index: Box::new(integer(0)), ty: number() };
    let field = Expr::Field { record: VarId(0), field: "f".to_string(), ty: number() };
    let of_index = "array index lowering not yet implemented";
    let of_field = "field access lowering not yet implemented";
    let cases = vec![
        (binary(BinOp::And, index.clone(), field.clone()), of_index),
        (binary(BinOp::And, field.clone(), index.clone()), of_field),
        (binary(BinOp::And, truth(true), index.clone()), of_index),
        (all(Domain::Array { size: 3 }, field.clone()), of_field),
        (some(Domain::Interval { low: 4, high: 4 }, index.clone()), of_index),
        (Expr::Always(Box::new(field.clone()), boolean()), of_field),
        (
            Expr::If {
                cond: Box::new(truth(true)),
                then_branch: Box::new(truth(true)),
                else_branch: Box::new(index.clone()),
                ty: boolean(),
            },
            of_index,
        ),
    ];
    // What was lowered before makes no difference.
    let mut ctx = LowerCtx::new(&m);
    for (e, text) in cases {
        assert_eq!(refused(lower_expr_to_var(&mut LowerCtx::new(&m), &e)), text);
        assert_eq!(refused(lower_expr_to_var(&mut ctx, &e)), text);
    }
    let none = Domain::Array { size: 0 };
    assert!(lower_expr_to_var(&mut ctx, &all(none.clone(), index)).is_ok());
    assert!(lower_expr_to_var(&mut ctx, &some(none, field)).is_ok());
}

#[test]
fn the_number_of_members_decides() {
    let m = module(&[("x", VarKind::State)]);
    let body = binary(BinOp::Lt, var(0), integer(5));
    let three = vec![
        Domain::Array { size: 3 },
        Domain::Interval { low: 0, high: 2 },
        Domain::Interval { low: -40, high: -38 },
        Domain::Interval { low: i64::MAX - 2, high: i64::MAX },
        Domain::Enum(vec!["a".to_string(), "b".to_string(), "c".to_string()]),
    ];
    let first = lowered(&m, &all(three[0].clone(), body.clone()));
    // Three times the two operations of the body, and two that join.
    assert_eq!(first.0.len(), 8);
    for domain in three {
        assert!(lowered(&m, &all(domain, body.clone())) == first);
    }
    let one = all(Domain::Interval { low: 7, high: 7 }, body.clone());
    assert!(lowered(&m, &one) == lowered(&m, &body));
}

#[test]
fn exists_has_the_code_of_forall_with_other_joins() {
    let m = module(&[("x", VarKind::State)]);
    // The operation of the body stays as it is.
    let body = binary(BinOp::And, var(9), var(0));
    for size in 0..5usize {
        let domain = Domain::Array { size };
        let (a, v) = lowered(&m, &all(domain.clone(), body.clone()));
        let (b, w) = lowered(&m, &some(domain, body.clone()));
        assert!(v == w);
        assert_eq!(a.len(), b.len());
        if size == 0 {
            assert!(a == vec![AtomicOp::Const(ConstValue::Bool(true))]);
            assert!(b == vec![AtomicOp::Const(ConstValue::Bool(false))]);
            continue;
        }
        let mut joins = 0;
        for i in 0..a.len() {
            match (&a[i], &b[i]) {
                (AtomicOp::And(p, q), AtomicOp::Or(r, s)) => {
                    assert!(p == r && q == s);
                    joins += 1;
                }
                (x, y) => assert!(x == y),
            }
        }
        assert_eq!(joins, size - 1);
    }
}

#[test]
fn code_is_made_of_its_own_results() {
    let m = module(&[("x", VarKind::State)]);
    let mut ctx = LowerCtx::new(&m);
    let before = binary(BinOp::Lt, var(0), integer(2));
    let earlier = lower_expr_to_var(&mut ctx, &before).unwrap();
    let blocks = ctx.builder.program.blocks.len();
    let stmts = ctx.builder.program.blocks[0].stmts.len();
    let e = Expr::If {
        cond: Box::new(all(Domain::Array { size: 3 }, binary(BinOp::Lt, var(9), integer(1)))),
        then_branch: Box::new(binary(BinOp::Add, integer(1), integer(2))),
        else_branch: Box::new(Expr::Unary {
            op: UnOp::Abs,
            operand: Box::new(integer(-4)),
            ty: number(),
        }),
        ty: number(),
    };
    let v = lower_expr_to_var(&mut ctx, &e).unwrap();
    assert!(v.0 > earlier.0);
    let p = ctx.builder.build();
    let mut assigned: Vec<VarId> = vec![];
    for (i, b) in p.blocks.iter().enumerate() {
        let from = if i >= blocks { 0 } else { stmts };
        let mut here: Vec<VarId> = vec![];
        for s in &b.stmts[from..] {
            match s {
                Stmt::Assign { dest, op, .. } => {
                    let read = match op {
                        AtomicOp::Lt(a, b) | AtomicOp::And(a, b) | AtomicOp::Add(a, b) => {
                            vec![*a, *b]
                        }
                        AtomicOp::Abs(a) => vec![*a],
                        _ => vec![],
                    };
                    for r in read {
                        assert!(r.0 < dest.0 && assigned.contains(&r));
                    }
                    assert!(dest.0 > earlier.0 && !assigned.contains(dest));
                    assigned.push(*dest);
                    here.push(*dest);
                }
                Stmt::Store { src, .. } => assert!(here.contains(src)),
                _ => panic!("{:?} was not expected", s),
            }
        }
        if let Terminator::Branch { cond, .. } = b.terminator {
            assert!(here.contains(&cond));
        }
    }
    assert!(assigned.contains(&v));
    assert_eq!(assigned.len(), 18);
}

#[test]
fn builders_number_blocks_variables_and_slots() {
    let mut b = LcirBuilder::new("p", "1");
    assert!(b.fresh_var(number(), VarKind::Local, "a") == VarId(1000));
    assert!(b.fresh_var(number(), VarKind::Local, "b") == VarId(1001));
    assert!(b.fresh_block("one") == BlockId(1));
    assert!(b.fresh_block("two") == BlockId(2));
    assert_eq!(b.allocate_slot(VarId(5)), 0);
    assert_eq!(b.allocate_slot(VarId(6)), 1);
    assert_eq!(b.allocate_slot(VarId(5)), 0);
    b.switch_block(BlockId(2));
    b.emit(Stmt::Store { src: VarId(5), slot: 0, span: Span::new("s", 1, 1) });
    b.set_terminator(Terminator::Return);
    b.current().label = "renamed".to_string();
    let p = b.build();
    assert_eq!(p.blocks[2].label, "renamed");
    assert_eq!(p.blocks[2].stmts.len(), 1);
    assert!(p.blocks[2].terminator == Terminator::Return);
    assert_eq!(p.blocks[1].stmts.len(), 0);
    assert!(p.blocks[1].terminator == Terminator::Halt { reason: HaltReason::Normal });
}

fn complaint(p: &LcirProgram) -> String {
    match p.validate() {
        Err(GuardError::Validation(s)) => s,
        _ => panic!("an error was expected"),
    }
}

#[test]
fn validation_finds_missing_targets() {
    let mut b = LcirBuilder::new("p", "1");
    b.fresh_block("next");
    b.set_terminator(Terminator::Jump(BlockId(7)));
    let p = b.build();
    assert_eq!(complaint(&p), "block 0 jumps to non-existent block 7");
    let mut q = p.clone();
    q.blocks[0].terminator = Terminator::Branch {
        cond: VarId(0),
        then_target: BlockId(2),
        else_target: BlockId(9),
    };
    assert_eq!(complaint(&q), "block 0 jumps to non-existent block 2");
    q.blocks[0].terminator = Terminator::Branch {
        cond: VarId(0),
        then_target: BlockId(1),
        else_target: BlockId(9),
    };
    assert_eq!(complaint(&q), "block 0 branches to non-existent block 9");
    q.blocks[0].terminator = Terminator::Jump(BlockId(1));
    assert!(q.validate().is_ok());
    q.entry = BlockId(2);
    assert_eq!(complaint(&q), "entry block 2 does not exist");
}

#[test]
fn every_variable_is_assigned_once() {
    let mut m = module(&[("x", VarKind::State)]);
    let choice = Expr::If {
        cond: Box::new(var(0)),
        then_branch: Box::new(binary(BinOp::Add, var(0), integer(1))),
        else_branch: Box::new(Expr::Old(VarId(0), number())),
        ty: number(),
    };
    m.invariants.push(rule("a", Some(truth(true)), binary(BinOp::Lt, choice.clone(), choice)));
    m.invariants.push(rule(
        "b",
        None,
        Expr::Forall {
            var: VarId(3),
            domain: Domain::Array { size: 5 },
            body: Box::new(truth(true)),
            ty: boolean(),
        },
    ));
    let p = lower_module(&m).unwrap();
    let mut seen: Vec<VarId> = vec![];
    for b in &p.blocks {
        for s in &b.stmts {
            if let Stmt::Assign { dest, .. } = s {
                assert!(!seen.contains(dest));
                seen.push(*dest);
            }
        }
    }
    assert_eq!(seen.len(), 21);
    assert!(p.validate().is_ok());
}

#[test]
fn operands_have_values() {
    let mut m = module(&[("x", VarKind::State)]);
    m.invariants.push(rule(
        "a",
        None,
        Expr::If {
            cond: Box::new(binary(BinOp::Lt, var(0), integer(3))),
            then_branch: Box::new(Expr::Exists {
                var: VarId(0),
                domain: Domain::Interval { low: 2, high: 4 },
                body: Box::new(binary(BinOp::Eq, var(0), integer(3))),
                ty: boolean(),
            }),
            else_branch: Box::new(binary(BinOp::Or, var(0), truth(false))),
            ty: boolean(),
        },
    ));
    let p = lower_module(&m).unwrap();
    let mut assigned = vec![VarId(1000)];
    for b in &p.blocks {
        for s in &b.stmts {
            if let Stmt::Assign { dest, .. } = s {
                assigned.push(*dest);
            }
        }
    }
    for b in &p.blocks {
        for s in &b.stmts {
            if let Stmt::Assign { dest, op, .. } = s {
                let read = match op {
                    AtomicOp::Lt(a, b) | AtomicOp::Eq(a, b) | AtomicOp::Or(a, b) => vec![*a, *b],
                    _ => vec![],
                };
                for v in read {
                    assert!(v.0 < dest.0);
                    assert!(assigned.contains(&v));
                    assert!(p.slot_map.get(v.0).is_some());
                }
            }
        }
    }
}
