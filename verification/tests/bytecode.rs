//! Code generation, encoding and validation.

use flux_isa::bytecode::FluxBytecode;
use flux_isa::instruction::FluxInstruction;
use flux_isa::opcode::FluxOpcode;
use guardc::binary64::Real;
use guardc::cir::CirType;
use guardc::cir::ConstValue;
use guardc::cir::RealLiteral;
use guardc::cir::TypeKind;
use guardc::cir::Unit;
use guardc::cir::VarId;
use guardc::codegen::codegen;
use guardc::codegen::CodegenCtx;
use guardc::error::GuardError;
use guardc::error::Span;
use guardc::flux::Bytecode;
use guardc::flux::Instruction;
use guardc::flux::Opcode;
use guardc::lcir::AtomicOp;
use guardc::lcir::BlockId;
use guardc::lcir::HaltReason;
use guardc::lcir::LcirBuilder;
use guardc::lcir::LcirProgram;
use guardc::lcir::Stmt;
use guardc::lcir::Terminator;

fn span() -> Span {
    Span::new("m.guard", 4, 2)
}

fn program(stmts: Vec<Stmt>) -> LcirProgram {
    let mut b = LcirBuilder::new("p", "1");
    for s in stmts {
        b.emit(s);
    }
    b.build()
}

fn assign(op: AtomicOp) -> Stmt {
    Stmt::Assign { dest: VarId(1000), op, span: span() }
}

fn pushes(n: usize) -> Vec<Stmt> {
    let mut out = vec![];
    for _ in 0..n {
        out.push(Stmt::PushConst { value: ConstValue::Integer(1), span: span() });
    }
    out
}

fn shape(code: &Bytecode) -> Vec<(Opcode, Vec<f64>)> {
    code.instructions
        .iter()
        .map(|i| (i.opcode, i.operands.iter().map(|r| f64::from_bits(r.0)).collect()))
        .collect()
}

// The code of an operation behind enough pushes for the stack to suffice.
fn code_of(op: AtomicOp) -> Vec<(Opcode, Vec<f64>)> {
    let mut stmts = pushes(3);
    stmts.push(assign(op));
    let code = codegen(&program(stmts)).unwrap();
    let all = shape(&code);
    all[3..all.len() - 1].to_vec()
}

// The same program as the instruction set's own crate has it.
fn isa(code: &Bytecode) -> FluxBytecode {
    let mut out = FluxBytecode::new();
    for i in &code.instructions {
        out.push(FluxInstruction::with_operands(
            FluxOpcode::from_u8(i.opcode.code()).unwrap(),
            i.operands.iter().map(|r| f64::from_bits(r.0)).collect(),
        ));
    }
    out
}

fn instruction(op: Opcode, operands: &[f64]) -> Instruction {
    Instruction::with_operands(op, operands.iter().map(|v| Real(v.to_bits())).collect())
}

fn bytecode(list: &[(Opcode, &[f64])]) -> Bytecode {
    let mut out = Bytecode::new();
    for (op, operands) in list {
        out.push(instruction(*op, operands));
    }
    out
}

#[test]
fn operations_have_their_code() {
    let (a, b) = (VarId(1), VarId(2));
    let loads = |op: Opcode| {
        vec![(Opcode::Load, vec![1.0]), (Opcode::Load, vec![2.0]), (op, vec![])]
    };
    assert_eq!(code_of(AtomicOp::Add(a, b)), loads(Opcode::Add));
    assert_eq!(code_of(AtomicOp::Sub(a, b)), loads(Opcode::Sub));
    assert_eq!(code_of(AtomicOp::Mul(a, b)), loads(Opcode::Mul));
    assert_eq!(code_of(AtomicOp::Div(a, b)), loads(Opcode::Div));
    assert_eq!(code_of(AtomicOp::Mod(a, b)), loads(Opcode::Mod));
    assert_eq!(code_of(AtomicOp::Eq(a, b)), loads(Opcode::Eq));
    assert_eq!(code_of(AtomicOp::Neq(a, b)), loads(Opcode::Neq));
    assert_eq!(code_of(AtomicOp::Lt(a, b)), loads(Opcode::Lt));
    assert_eq!(code_of(AtomicOp::Gt(a, b)), loads(Opcode::Gt));
    assert_eq!(code_of(AtomicOp::Lte(a, b)), loads(Opcode::Lte));
    assert_eq!(code_of(AtomicOp::Gte(a, b)), loads(Opcode::Gte));
    assert_eq!(code_of(AtomicOp::And(a, b)), loads(Opcode::And));
    assert_eq!(code_of(AtomicOp::Or(a, b)), loads(Opcode::Or));
    assert_eq!(
        code_of(AtomicOp::Implies(a, b)),
        vec![
            (Opcode::Load, vec![1.0]),
            (Opcode::Not, vec![]),
            (Opcode::Load, vec![2.0]),
            (Opcode::Or, vec![]),
        ]
    );
    assert_eq!(
        code_of(AtomicOp::Neg(a)),
        vec![
            (Opcode::Load, vec![1.0]),
            (Opcode::Push, vec![]),
            (Opcode::Push, vec![-1.0]),
            (Opcode::Mul, vec![]),
        ]
    );
    assert_eq!(
        code_of(AtomicOp::Abs(a)),
        vec![(Opcode::Load, vec![1.0]), (Opcode::Pabs, vec![])]
    );
    assert_eq!(
        code_of(AtomicOp::Not(a)),
        vec![(Opcode::Load, vec![1.0]), (Opcode::Not, vec![])]
    );
    assert_eq!(code_of(AtomicOp::LoadSlot(200)), vec![(Opcode::Load, vec![200.0])]);
    assert_eq!(
        code_of(AtomicOp::Old { buffer: 7, depth: 3 }),
        vec![(Opcode::Load, vec![10.0])]
    );
    assert_eq!(
        code_of(AtomicOp::Delta { buffer: 7 }),
        vec![(Opcode::Load, vec![7.0]), (Opcode::Load, vec![8.0]), (Opcode::Sub, vec![])]
    );
    assert_eq!(
        code_of(AtomicOp::RateOf { buffer: 7, dt: Real(0.02f64.to_bits()) }),
        vec![
            (Opcode::Load, vec![7.0]),
            (Opcode::Load, vec![8.0]),
            (Opcode::Sub, vec![]),
            (Opcode::Push, vec![0.02]),
            (Opcode::Div, vec![]),
        ]
    );
}

#[test]
fn variables_live_in_the_slots_of_the_slot_map() {
    let mut p = program(vec![Stmt::Assign {
        dest: VarId(1001),
        op: AtomicOp::Not(VarId(1000)),
        span: span(),
    }]);
    p.slot_map.insert(1000, 5);
    let mut q = p.clone();
    let mut stmts = pushes(1);
    stmts.append(&mut q.blocks[0].stmts);
    q.blocks[0].stmts = stmts;
    assert_eq!(
        shape(&codegen(&q).unwrap())[1..3].to_vec(),
        vec![(Opcode::Load, vec![5.0]), (Opcode::Not, vec![])]
    );
    // What is assigned is stored, and what is stored or asserted is loaded.
    q.slot_map.insert(1001, 9);
    q.blocks[0].stmts.push(Stmt::Store { src: VarId(1001), slot: 40, span: span() });
    q.blocks[0].stmts.push(Stmt::Assert {
        cond: VarId(1001),
        invariant_name: "cap".to_string(),
        span: span(),
    });
    assert_eq!(
        shape(&codegen(&q).unwrap())[1..].to_vec(),
        vec![
            (Opcode::Load, vec![5.0]),
            (Opcode::Not, vec![]),
            (Opcode::Store, vec![9.0]),
            (Opcode::Load, vec![9.0]),
            (Opcode::Store, vec![40.0]),
            (Opcode::Load, vec![9.0]),
            (Opcode::Assert, vec![]),
            (Opcode::Halt, vec![]),
        ]
    );
}

#[test]
fn loaded_and_popped_values_go_to_their_slots() {
    let ty = |kind: TypeKind| CirType { kind, unit: Unit::Dimensionless };
    let mut stmts = pushes(2);
    stmts.push(Stmt::LoadState { dest: VarId(1), slot: 9, ty: ty(TypeKind::Integer), span: span() });
    stmts.push(Stmt::Pop { dest: VarId(2), ty: ty(TypeKind::Real), span: span() });
    let mut p = program(stmts);
    p.slot_map.insert(1, 40);
    p.slot_map.insert(2, 41);
    assert_eq!(
        shape(&codegen(&p).unwrap())[2..].to_vec(),
        vec![
            (Opcode::Load, vec![9.0]),
            (Opcode::Cast, vec![]),
            (Opcode::Store, vec![40.0]),
            (Opcode::Store, vec![41.0]),
            (Opcode::Halt, vec![]),
        ]
    );
}

#[test]
fn variables_without_a_slot_are_loaded_from_the_slot_of_their_low_bits() {
    assert_eq!(
        code_of(AtomicOp::Not(VarId(1000))),
        vec![(Opcode::Load, vec![232.0]), (Opcode::Not, vec![])]
    );
}

#[test]
fn constants_are_numbers() {
    let real = RealLiteral {
        value: Real(2.5f64.to_bits()),
        fixed: "2.500000".to_string(),
        shortest: "2.5".to_string(),
    };
    assert_eq!(
        code_of(AtomicOp::Const(ConstValue::Real(real))),
        vec![(Opcode::Push, vec![2.5])]
    );
    assert_eq!(
        code_of(AtomicOp::Const(ConstValue::Integer(-150))),
        vec![(Opcode::Push, vec![-150.0])]
    );
    assert_eq!(
        code_of(AtomicOp::Const(ConstValue::Bool(true))),
        vec![(Opcode::Push, vec![1.0])]
    );
    assert_eq!(
        code_of(AtomicOp::Const(ConstValue::Bool(false))),
        vec![(Opcode::Push, vec![0.0])]
    );
}

#[test]
fn statements_have_their_code() {
    let ty = |kind: TypeKind| CirType { kind, unit: Unit::Dimensionless };
    let mut stmts = pushes(2);
    stmts.push(Stmt::LoadState { dest: VarId(1), slot: 9, ty: ty(TypeKind::Integer), span: span() });
    stmts.push(Stmt::LoadState { dest: VarId(1), slot: 8, ty: ty(TypeKind::Real), span: span() });
    stmts.push(Stmt::Store { src: VarId(1), slot: 5, span: span() });
    stmts.push(Stmt::Pop { dest: VarId(1), ty: ty(TypeKind::Real), span: span() });
    stmts.push(Stmt::Assert {
        cond: VarId(1),
        invariant_name: "cap".to_string(),
        span: span(),
    });
    stmts.push(Stmt::Trace { label: "here".to_string(), span: span() });
    let code = codegen(&program(stmts)).unwrap();
    assert_eq!(
        shape(&code)[2..].to_vec(),
        vec![
            (Opcode::Load, vec![9.0]),
            (Opcode::Cast, vec![]),
            (Opcode::Load, vec![8.0]),
            (Opcode::Store, vec![5.0]),
            (Opcode::Pop, vec![]),
            (Opcode::Assert, vec![]),
            (Opcode::Trace, vec![]),
            (Opcode::Halt, vec![]),
        ]
    );
    assert_eq!(code.instructions[7].metadata.label.as_deref(), Some("cap"));
    assert_eq!(code.instructions[7].metadata.source_location.as_deref(), Some("m.guard:4:2-4:2"));
    assert_eq!(code.instructions[8].metadata.label.as_deref(), Some("here"));
    assert_eq!(code.instructions[9].metadata.label, None);
}

#[test]
fn jumps_lead_to_the_starts_of_blocks() {
    let mut b = LcirBuilder::new("p", "1");
    let yes = b.fresh_block("yes");
    let no = b.fresh_block("no");
    b.emit(assign(AtomicOp::Const(ConstValue::Bool(true))));
    b.set_terminator(Terminator::Branch { cond: VarId(3), then_target: yes, else_target: no });
    b.switch_block(yes);
    b.emit(assign(AtomicOp::Const(ConstValue::Integer(5))));
    b.set_terminator(Terminator::Jump(BlockId(0)));
    b.switch_block(no);
    b.set_terminator(Terminator::Halt {
        reason: HaltReason::ConstraintViolation { invariant: "cap".to_string() },
    });
    let code = codegen(&b.build()).unwrap();
    assert_eq!(
        shape(&code),
        vec![
            (Opcode::Push, vec![1.0]),
            (Opcode::Load, vec![3.0]),
            (Opcode::Branch, vec![6.0]),
            (Opcode::Jump, vec![4.0]),
            (Opcode::Push, vec![5.0]),
            (Opcode::Jump, vec![0.0]),
            (Opcode::Halt, vec![]),
        ]
    );
    assert_eq!(code.instructions[6].metadata.label.as_deref(), Some("violation:cap"));
    assert_eq!(code.instructions[6].metadata.source_location, None);
}

#[test]
fn code_ends_in_halt() {
    let mut b = LcirBuilder::new("p", "1");
    b.set_terminator(Terminator::Return);
    let code = codegen(&b.build()).unwrap();
    assert_eq!(shape(&code), vec![(Opcode::Return, vec![]), (Opcode::Halt, vec![])]);
    let mut empty = LcirBuilder::new("p", "1").build();
    empty.blocks.clear();
    let code = codegen(&empty).unwrap();
    assert_eq!(shape(&code), vec![(Opcode::Halt, vec![])]);
}

#[test]
fn a_jump_to_an_unknown_block_is_an_error() {
    let mut b = LcirBuilder::new("p", "1");
    b.set_terminator(Terminator::Branch {
        cond: VarId(0),
        then_target: BlockId(5),
        else_target: BlockId(6),
    });
    match codegen(&b.build()) {
        Err(GuardError::Codegen(s)) => assert_eq!(s, "unknown block BlockId(6)"),
        _ => panic!("an error was expected"),
    }
}

#[test]
fn a_short_stack_is_an_error() {
    match codegen(&program(vec![assign(AtomicOp::Add(VarId(1), VarId(2)))])) {
        Err(GuardError::Validation(s)) => {
            assert_eq!(
                s,
                "bytecode validation failed: validation error: \
                 stack underflow detected (minimum stack depth: -2)"
            );
        }
        _ => panic!("an error was expected"),
    }
}

#[test]
fn the_encoding_is_that_of_the_instruction_set() {
    let mut stmts = pushes(3);
    stmts.push(assign(AtomicOp::RateOf { buffer: 7, dt: Real(0.02f64.to_bits()) }));
    stmts.push(assign(AtomicOp::Const(ConstValue::Integer(-3))));
    stmts.push(Stmt::Trace { label: "here".to_string(), span: span() });
    let code = codegen(&program(stmts)).unwrap();
    let bytes = code.encode();
    assert_eq!(bytes, isa(&code).encode());
    let back = FluxBytecode::decode(&bytes).unwrap();
    assert_eq!(back.instructions.len(), code.instructions.len());
    assert!(back == isa(&code));
    assert_eq!(
        bytecode(&[(Opcode::Push, &[1.0]), (Opcode::Halt, &[])]).encode(),
        vec![0x32, 1, 0, 0, 0, 0, 0, 0, 0, 0, 0xf0, 0x3f, 0x24, 0, 0, 0]
    );
}

#[test]
fn every_operation_has_the_byte_of_the_instruction_set() {
    let all = vec![
        Opcode::Add, Opcode::Sub, Opcode::Mul, Opcode::Div, Opcode::Mod,
        Opcode::Assert, Opcode::Check, Opcode::Validate, Opcode::Reject,
        Opcode::Jump, Opcode::Branch, Opcode::Call, Opcode::Return, Opcode::Halt,
        Opcode::Load, Opcode::Store, Opcode::Push, Opcode::Pop, Opcode::Swap,
        Opcode::Snap, Opcode::Quantize, Opcode::Cast, Opcode::Promote,
        Opcode::And, Opcode::Or, Opcode::Not, Opcode::Xor,
        Opcode::Eq, Opcode::Neq, Opcode::Lt, Opcode::Gt, Opcode::Lte, Opcode::Gte,
        Opcode::SatAdd, Opcode::SatSub, Opcode::Clip, Opcode::Mad, Opcode::Popcnt,
        Opcode::Ctz, Opcode::Pabs, Opcode::Pmin,
        Opcode::Nop, Opcode::Debug, Opcode::Trace, Opcode::Dump,
    ];
    for op in all {
        let theirs = FluxOpcode::from_u8(op.code()).unwrap();
        assert_eq!(format!("{:?}", op), format!("{:?}", theirs));
    }
}

fn verdict(code: &Bytecode) -> Result<(), String> {
    let ours = code.validate();
    let theirs = isa(code).validate().map_err(|e| e.to_string());
    assert_eq!(ours, theirs);
    ours
}

#[test]
fn validation_is_that_of_the_instruction_set() {
    assert_eq!(
        verdict(&bytecode(&[])),
        Err("validation error: bytecode contains no instructions".to_string())
    );
    assert_eq!(
        verdict(&bytecode(&[(Opcode::Nop, &[])])),
        Err("validation error: program must end with Halt or Return".to_string())
    );
    assert_eq!(
        verdict(&bytecode(&[(Opcode::Branch, &[]), (Opcode::Halt, &[])])),
        Err("validation error: instruction 0 (Branch) missing jump target operand".to_string())
    );
    assert_eq!(
        verdict(&bytecode(&[(Opcode::Nop, &[]), (Opcode::Call, &[2.0]), (Opcode::Halt, &[])])),
        Ok(())
    );
    assert_eq!(
        verdict(&bytecode(&[(Opcode::Nop, &[]), (Opcode::Call, &[3.5]), (Opcode::Halt, &[])])),
        Err("validation error: instruction 1 (Call) jumps to invalid target 3".to_string())
    );
    assert_eq!(
        verdict(&bytecode(&[(Opcode::Jump, &[-4.0]), (Opcode::Return, &[])])),
        Ok(())
    );
    assert_eq!(
        verdict(&bytecode(&[(Opcode::Clip, &[]), (Opcode::Mad, &[]), (Opcode::Halt, &[])])),
        Err("validation error: stack underflow detected (minimum stack depth: -5)".to_string())
    );
    assert!(verdict(&bytecode(&[(Opcode::Jump, &[f64::INFINITY]), (Opcode::Halt, &[])])).is_err());
    assert!(verdict(&bytecode(&[(Opcode::Jump, &[f64::NAN]), (Opcode::Halt, &[])])).is_ok());
    for op in [
        Opcode::Add, Opcode::Check, Opcode::Reject, Opcode::Swap, Opcode::Snap, Opcode::Xor,
        Opcode::Not, Opcode::Gte, Opcode::SatAdd, Opcode::Popcnt, Opcode::Pmin, Opcode::Pabs,
        Opcode::Pop, Opcode::Store, Opcode::Load, Opcode::Cast, Opcode::Dump, Opcode::Assert,
    ] {
        let _ = verdict(&bytecode(&[(op, &[1.0]), (op, &[1.0]), (Opcode::Halt, &[])]));
        let _ = verdict(&bytecode(&[
            (Opcode::Push, &[1.0]),
            (op, &[1.0]),
            (op, &[1.0]),
            (Opcode::Pop, &[]),
            (Opcode::Halt, &[]),
        ]));
    }
}

#[test]
fn instructions_are_appended() {
    let mut ctx = CodegenCtx::new();
    assert_eq!(ctx.here(), 0);
    ctx.emit_op(Opcode::Nop);
    ctx.emit_op_slot(Opcode::Load, 17);
    ctx.emit_push(Real(1.5f64.to_bits()));
    ctx.emit(Instruction::new(Opcode::Halt));
    assert_eq!(ctx.here(), 4);
    assert_eq!(
        shape(&ctx.bytecode),
        vec![
            (Opcode::Nop, vec![]),
            (Opcode::Load, vec![17.0]),
            (Opcode::Push, vec![1.5]),
            (Opcode::Halt, vec![]),
        ]
    );
    assert_eq!(ctx.current_span.text(), "<codegen>:0:0-0:0");
}
