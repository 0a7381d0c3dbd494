//! Certificates, formulas, digests and the whole pipeline.

use guardc::binary64::Real;
use guardc::certificate::compute_merkle_root;
use guardc::certificate::format_iso;
use guardc::certificate::Host;
use guardc::certificate::ObligationKind;
use guardc::certificate::ProofGen;
use guardc::certificate::ProofStatus;
use guardc::certificate::VcStatus;
use guardc::cir::BinOp;
use guardc::cir::CertFormat;
use guardc::cir::CirDerived;
use guardc::cir::CirInvariant;
use guardc::cir::CirModule;
use guardc::cir::CirType;
use guardc::cir::ConstValue;
use guardc::cir::Domain;
use guardc::cir::Expr;
use guardc::cir::HashAlgo;
use guardc::cir::Priority;
use guardc::cir::ProofConfig;
use guardc::cir::RealLiteral;
use guardc::cir::SymbolTable;
use guardc::cir::TypeKind;
use guardc::cir::UnOp;
use guardc::cir::Unit;
use guardc::cir::VarId;
use guardc::cir::ViolationAction;
use guardc::compile;
use guardc::compiler::compile_checked;
use guardc::debug::expr_debug;
use guardc::digest::merkle_root;
use guardc::digest::sha256_hex;
use guardc::digest::sha256_of_two;
use guardc::error::GuardError;
use guardc::error::Span;
use guardc::flux::Opcode;
use guardc::smt::expr_to_smt;
use guardc::smt::select_logic;
use sha2::Digest;
use sha2::Sha256;

fn boolean() -> CirType {
    CirType { kind: TypeKind::Boolean, unit: Unit::Dimensionless }
}

fn truth(b: bool) -> Expr {
    Expr::Const(ConstValue::Bool(b))
}

fn integer(v: i64) -> Expr {
    Expr::Const(ConstValue::Integer(v))
}

fn number(v: f64) -> Expr {
    Expr::Const(ConstValue::Real(RealLiteral {
        value: Real(v.to_bits()),
        fixed: format!("{:.6}", v),
        shortest: format!("{:?}", v),
    }))
}

fn var(n: u32) -> Expr {
    Expr::Var(VarId(n))
}

fn binary(op: BinOp, l: Expr, r: Expr) -> Expr {
    Expr::Binary { op, left: Box::new(l), right: Box::new(r), ty: boolean() }
}

fn module() -> CirModule {
    CirModule {
        name: "m".to_string(),
        version: "1.2".to_string(),
        sample_period_ms: Real(20.0f64.to_bits()),
        symbol_table: SymbolTable::new(),
        invariants: vec![],
        derived: vec![],
        proof_config: vec![],
    }
}

fn rule(name: &str, ensure: Expr) -> CirInvariant {
    CirInvariant {
        name: name.to_string(),
        priority: Priority::Major,
        when: None,
        ensure,
        on_violation: ViolationAction::Log,
        source_span: Span::new("m.guard", 4, 2),
    }
}

fn derived(name: &str, conclude: Expr) -> CirDerived {
    CirDerived {
        name: name.to_string(),
        premises: vec![],
        when: None,
        conclude,
        source_span: Span::new("m.guard", 9, 1),
    }
}

fn config(name: &str) -> ProofConfig {
    ProofConfig {
        name: name.to_string(),
        tactics: vec!["induction".to_string(), "smt".to_string()],
        cert_format: CertFormat::Native,
        include_trace: false,
        include_counterexample: false,
        hash_algo: HashAlgo::Sha256,
    }
}

fn host() -> Host {
    Host { seconds: 3 * 86400 + 4 * 3600 + 5 * 60 + 6, os: "linux".to_string(), arch: "x86_64".to_string() }
}

fn smt(e: &Expr) -> String {
    expr_to_smt(e, &SymbolTable::new()).unwrap()
}

#[test]
fn formulas_are_written_in_prefix_form() {
    assert_eq!(smt(&binary(BinOp::Lte, var(3), integer(-150))), "(<= v3 (- 150))");
    assert_eq!(smt(&integer(150)), "150");
    assert_eq!(smt(&integer(i64::MIN)), "(- 9223372036854775808)");
    assert_eq!(smt(&number(-2.5)), "(- 2.500000)");
    assert_eq!(smt(&number(2.5)), "2.500000");
    assert_eq!(smt(&truth(false)), "false");
    let ops = vec![
        (BinOp::Add, "+"),
        (BinOp::Sub, "-"),
        (BinOp::Mul, "*"),
        (BinOp::Div, "/"),
        (BinOp::Mod, "mod"),
        (BinOp::Eq, "="),
        (BinOp::Neq, "distinct"),
        (BinOp::Lt, "<"),
        (BinOp::Gt, ">"),
        (BinOp::Lte, "<="),
        (BinOp::Gte, ">="),
        (BinOp::And, "and"),
        (BinOp::Or, "or"),
        (BinOp::Implies, "=>"),
    ];
    for (op, symbol) in ops {
        assert_eq!(smt(&binary(op, var(0), var(1))), format!("({} v0 v1)", symbol));
    }
    for (op, symbol) in vec![(UnOp::Neg, "-"), (UnOp::Abs, "abs"), (UnOp::Not, "not")] {
        let e = Expr::Unary { op, operand: Box::new(var(0)), ty: boolean() };
        assert_eq!(smt(&e), format!("({} v0)", symbol));
    }
    let e = Expr::If {
        cond: Box::new(truth(true)),
        then_branch: Box::new(integer(1)),
        else_branch: Box::new(integer(2)),
        ty: boolean(),
    };
    assert_eq!(smt(&e), "(ite true 1 2)");
    let e = Expr::Forall {
        var: VarId(7),
        domain: Domain::Array { size: 3 },
        body: Box::new(var(7)),
        ty: boolean(),
    };
    assert_eq!(smt(&e), "(forall ((v7 Int)) v7)");
    let e = Expr::Exists {
        var: VarId(8),
        domain: Domain::Array { size: 3 },
        body: Box::new(var(8)),
        ty: boolean(),
    };
    assert_eq!(smt(&e), "(exists ((v8 Int)) v8)");
}

#[test]
fn temporal_operators_have_no_formula() {
    let e = binary(BinOp::And, truth(true), Expr::Old(VarId(1), boolean()));
    match expr_to_smt(&e, &SymbolTable::new()) {
        Err(GuardError::ProofFailed { obligation, reason }) => {
            assert_eq!(obligation, "smt");
            assert_eq!(
                reason,
                "unsupported expr variant for SMT: Old(VarId(1), CirType { kind: Boolean, \
                 unit: Dimensionless })"
            );
        }
        _ => panic!("an error was expected"),
    }
}

#[test]
fn expressions_print_like_their_debug_form() {
    let record = CirType {
        kind: TypeKind::Array { size: 4, elem: Box::new(TypeKind::Enum(vec!["a\"b".to_string()])) },
        unit: Unit::Base(guardc::cir::BaseDimension::Length, 2),
    };
    let cases = vec![
        Expr::Always(Box::new(var(1)), boolean()),
        Expr::Eventually(Box::new(integer(-4)), boolean()),
        Expr::Next(Box::new(truth(true)), boolean()),
        Expr::Until { left: Box::new(var(1)), right: Box::new(var(2)), ty: boolean() },
        Expr::Since { left: Box::new(var(1)), right: Box::new(var(2)), ty: boolean() },
        Expr::For { duration: 3, body: Box::new(var(1)), ty: boolean() },
        Expr::After { duration: 3, body: Box::new(var(1)), ty: boolean() },
        Expr::RateOf(VarId(2), record.clone()),
        Expr::Delta(VarId(2), record),
        Expr::Index { array: VarId(3), index: Box::new(integer(1)), ty: boolean() },
        Expr::Field { record: VarId(3), field: "tab\tname".to_string(), ty: boolean() },
        Expr::Unary { op: UnOp::Abs, operand: Box::new(var(1)), ty: boolean() },
        binary(BinOp::Implies, var(1), var(2)),
        Expr::Forall {
            var: VarId(1),
            domain: Domain::Enum(vec!["x".to_string(), "y".to_string()]),
            body: Box::new(var(1)),
            ty: CirType {
                kind: TypeKind::Integer,
                unit: Unit::Product(vec![(guardc::cir::BaseDimension::Mass, -1)]),
            },
        },
        Expr::Exists {
            var: VarId(1),
            domain: Domain::Interval { low: -1, high: 1 },
            body: Box::new(var(1)),
            ty: boolean(),
        },
        Expr::If {
            cond: Box::new(var(1)),
            then_branch: Box::new(var(2)),
            else_branch: Box::new(var(3)),
            ty: boolean(),
        },
    ];
    for e in cases {
        assert_eq!(expr_debug(&e), format!("{:?}", e));
    }
    assert_eq!(expr_debug(&number(2.5)), "Const(Real(2.5))");
}

#[test]
fn logics_follow_the_constants() {
    assert_eq!(select_logic(&binary(BinOp::Lt, var(0), number(1.0))), "QF_LRA");
    assert_eq!(select_logic(&binary(BinOp::Lt, number(1.0), integer(1))), "QF_LRA");
    assert_eq!(select_logic(&binary(BinOp::Lt, var(0), integer(1))), "QF_LIA");
    assert_eq!(select_logic(&truth(true)), "QF_BV");
    let e = Expr::Forall {
        var: VarId(0),
        domain: Domain::Array { size: 1 },
        body: Box::new(integer(1)),
        ty: boolean(),
    };
    assert_eq!(select_logic(&e), "QF_LIA");
    assert_eq!(select_logic(&Expr::Always(Box::new(integer(1)), boolean())), "QF_BV");
}

#[test]
fn digests_of_known_messages() {
    assert_eq!(
        sha256_hex(b""),
        "e3b0c44298fc1c149afbf4c8996fb92427ae41e4649b934ca495991b7852b855"
    );
    assert_eq!(
        sha256_hex(b"abc"),
        "ba7816bf8f01cfea414140de5dae2223b00361a396177a9cb410ff61f20015ad"
    );
    assert_eq!(sha256_of_two(b"a", b"bc"), Sha256::digest(b"abc").to_vec());
}

#[test]
fn merkle_roots() {
    let hex = |bytes: &[u8]| guardc::text::bytes_to_hex(bytes);
    let (a, b, c) = (vec![1u8; 32], vec![2u8; 32], vec![3u8; 32]);
    assert_eq!(
        merkle_root(vec![]),
        "sha256:e3b0c44298fc1c149afbf4c8996fb92427ae41e4649b934ca495991b7852b855"
    );
    assert_eq!(merkle_root(vec![a.clone()]), format!("sha256:{}", hex(&a)));
    let ab = sha256_of_two(&a, &b);
    assert_eq!(merkle_root(vec![a.clone(), b.clone()]), format!("sha256:{}", hex(&ab)));
    let cc = sha256_of_two(&c, &c);
    let top = sha256_of_two(&ab, &cc);
    assert_eq!(merkle_root(vec![a, b, c]), format!("sha256:{}", hex(&top)));
}

#[test]
fn times_are_dates_of_the_calendar() {
    assert_eq!(format_iso(0), "1970-01-01T00:00:00Z");
    assert_eq!(format_iso(86399), "1970-01-01T23:59:59Z");
    assert_eq!(format_iso(3 * 86400 + 4 * 3600 + 5 * 60 + 6), "1970-01-04T04:05:06Z");
    assert_eq!(format_iso(2678400), "1970-02-01T00:00:00Z");
    assert_eq!(format_iso(365 * 86400), "1971-01-01T00:00:00Z");
    assert_eq!(format_iso(951782400), "2000-02-29T00:00:00Z");
    assert_eq!(format_iso(1700000000), "2023-11-14T22:13:20Z");
    assert_eq!(format_iso(4107542399), "2100-02-28T23:59:59Z");
    assert_eq!(format_iso(4107542400), "2100-03-01T00:00:00Z");
}

#[test]
fn certificates_list_every_obligation() {
    let mut m = module();
    m.invariants.push(rule("cap", binary(BinOp::Lte, var(0), integer(150))));
    m.invariants.push(rule("on", truth(true)));
    m.derived.push(derived("rule", binary(BinOp::Lt, var(0), number(0.5))));
    m.proof_config.push(config("p1"));
    m.proof_config.push(config("p2"));
    let bytes = vec![1u8, 2, 3];
    let gen = ProofGen::new(&m, "source", &bytes);
    let c = gen.generate(&host()).unwrap();
    assert_eq!(c.certificate_format, "guard-native-v1");
    assert_eq!((c.module.as_str(), c.version.as_str()), ("m", "1.2"));
    assert_eq!(c.compiler.name, "guardc");
    assert_eq!(c.compiler.version, "0.1.0");
    assert_eq!(c.compiler.target, "flux-isa-43");
    assert_eq!(c.source_hash, format!("sha256:{}", sha256_hex(b"source")));
    assert_eq!(c.bytecode_hash, format!("sha256:{}", sha256_hex(&bytes)));
    assert_eq!(c.metadata.generated_at, "1970-01-04T04:05:06Z");
    assert_eq!(c.metadata.host_os, "linux-x86_64");
    assert!(c.metadata.deterministic);
    assert_eq!(c.proofs.len(), 2);
    let p = &c.proofs[1];
    assert_eq!(p.proof_id, "p2");
    assert_eq!(p.tactics, vec!["induction".to_string(), "smt".to_string()]);
    assert!(p.status == ProofStatus::Runtime);
    assert_eq!(p.verification_time_ms, 0);
    let ids: Vec<&str> = p.obligations.iter().map(|o| o.obligation_id.as_str()).collect();
    assert_eq!(ids, vec!["inv-01", "inv-02", "der-03"]);
    let o = &p.obligations[0];
    assert!(o.kind == ObligationKind::InvariantPreservation);
    assert_eq!(o.name, "cap");
    assert_eq!(o.source_span, "m.guard:4:2-4:2");
    assert_eq!(o.vc.logic, "QF_LIA");
    assert_eq!(o.vc.formula, "(<= v0 150)");
    assert!(o.vc.status == VcStatus::Unknown);
    assert_eq!(o.trace_digest, sha256_hex(b"placeholder"));
    assert!(o.counterexample.is_none());
    let o = &p.obligations[2];
    assert!(o.kind == ObligationKind::DerivedRuleSanity);
    assert_eq!(o.vc.logic, "QF_LRA");
    assert_eq!(o.vc.formula, "(< v0 0.500000)");
    assert_eq!(p.merkle_root, compute_merkle_root(&p.obligations));
    let leaves: Vec<Vec<u8>> = p
        .obligations
        .iter()
        .map(|o| Sha256::digest(format!("{}{}", o.obligation_id, o.trace_digest)).to_vec())
        .collect();
    assert_eq!(p.merkle_root, merkle_root(leaves));
}

#[test]
fn obligations_are_only_generated_for_configurations() {
    let mut m = module();
    m.invariants.push(rule("old", Expr::Old(VarId(0), boolean())));
    let gen = ProofGen::new(&m, "", &[]);
    assert!(gen.generate(&host()).unwrap().proofs.is_empty());
    m.proof_config.push(config("p"));
    let gen = ProofGen::new(&m, "", &[]);
    assert!(gen.generate(&host()).is_err());
    assert!(gen.generate_obligations().is_err());
}

#[test]
fn a_module_is_compiled() {
    let mut m = module();
    m.invariants.push(rule("on", truth(true)));
    m.proof_config.push(config("p"));
    let out = compile(&m, "GUARD", &host()).unwrap();
    let ops: Vec<Opcode> = out.bytecode.instructions.iter().map(|i| i.opcode).collect();
    assert_eq!(
        ops,
        vec![
            Opcode::Jump,
            Opcode::Trace,
            Opcode::Jump,
            Opcode::Jump,
            Opcode::Halt,
            Opcode::Push,
            Opcode::Store,
            Opcode::Load,
            Opcode::Assert,
            Opcode::Jump,
            Opcode::Jump,
            Opcode::Halt,
        ]
    );
    assert_eq!(out.source_hash, sha256_hex(b"GUARD"));
    assert_eq!(out.certificate.source_hash, format!("sha256:{}", out.source_hash));
    assert_eq!(
        out.certificate.bytecode_hash,
        format!("sha256:{}", sha256_hex(&out.bytecode.encode()))
    );
}

#[test]
fn the_first_phase_that_fails_decides() {
    let mut m = module();
    m.invariants.push(rule(
        "f",
        Expr::Field { record: VarId(0), field: "f".to_string(), ty: boolean() },
    ));
    m.proof_config.push(config("p"));
    assert!(matches!(compile(&m, "", &host()), Err(GuardError::Lowering(_))));
    m.invariants[0] = rule("sum", binary(BinOp::Add, integer(1), integer(2)));
    assert!(matches!(compile(&m, "", &host()), Ok(_)));
    m.invariants[0] = rule("low", binary(BinOp::Add, var(0), var(0)));
    assert!(matches!(compile(&m, "", &host()), Err(GuardError::Validation(_))));
    m.invariants[0] = rule("old", Expr::Old(VarId(0), boolean()));
    match compile(&m, "", &host()) {
        Err(e) => assert!(matches!(e, GuardError::Validation(_) | GuardError::ProofFailed { .. })),
        Ok(_) => panic!("an error was expected"),
    }
    assert!(compile_checked(&m, "", &host()).is_some());
}

#[test]
fn certificates_differ_between_hosts_only_in_their_metadata() {
    let mut m = module();
    m.invariants.push(rule("on", truth(true)));
    m.proof_config.push(config("p"));
    let gen = ProofGen::new(&m, "s", &[1, 2]);
    let there = Host { seconds: 0, os: "os".to_string(), arch: "arch".to_string() };
    let a = gen.generate(&host()).unwrap();
    let mut b = gen.generate(&there).unwrap();
    assert_eq!(b.metadata.generated_at, "1970-01-01T00:00:00Z");
    assert_eq!(b.metadata.host_os, "os-arch");
    b.metadata = a.metadata.clone();
    assert!(a == b);
}

#[test]
fn different_sources_have_different_hashes() {
    let m = module();
    let a = ProofGen::new(&m, "one", &[]).generate(&host()).unwrap();
    let b = ProofGen::new(&m, "two", &[]).generate(&host()).unwrap();
    assert!(a.source_hash != b.source_hash);
    assert_eq!(a.bytecode_hash, b.bytecode_hash);
}

#[test]
fn formulas_are_well_nested() {
    let e = Expr::Forall {
        var: VarId(1),
        domain: Domain::Interval { low: 0, high: 9 },
        body: Box::new(Expr::If {
            cond: Box::new(binary(BinOp::Lt, var(1), number(-0.5))),
            then_branch: Box::new(truth(false)),
            else_branch: Box::new(Expr::Unary {
                op: UnOp::Not,
                operand: Box::new(var(2)),
                ty: boolean(),
            }),
            ty: boolean(),
        }),
        ty: boolean(),
    };
    let f = smt(&e);
    assert_eq!(f, "(forall ((v1 Int)) (ite (< v1 (- 0.500000)) false (not v2)))");
    // Three for the quantifier, and one for each operation and each minus sign.
    assert_eq!(f.matches('(').count(), 7);
    let mut open: i32 = 0;
    for c in f.chars() {
        if c == '(' {
            open += 1;
        }
        if c == ')' {
            open -= 1;
        }
        assert!(open >= 0);
    }
    assert_eq!(open, 0);
}
