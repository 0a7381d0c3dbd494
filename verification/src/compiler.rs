//! Main compiler pipeline: CIR module → FLUX bytecode + proof certificate.
//!
//! ```text
//! CIR module (Constraint IR)
//!      │
//!      ▼
//! ┌─────────────┐
//! │  Lowering   │  → LCIR (flat, ANF, no quantifiers/temporal)
//! └─────────────┘
//!      │
//!      ▼
//! ┌─────────────┐
//! │   Codegen   │  → FLUX bytecode (.flux)
//! └─────────────┘
//!      │
//!      ▼
//! ┌─────────────┐
//! │   Prover    │  → Proof certificate (.guardcert)
//! └─────────────┘
//! ```

use crate::binary64;
use crate::certificate;
use crate::certificate::CertificateView;
use crate::certificate::Host;
use crate::certificate::ProofCertificate;
use crate::certificate::ProofGen;
use crate::cir::CirModule;
use crate::codegen;
use crate::cycle;
use crate::digest;
use crate::error::GuardErrorView;
use crate::error::Result;
use crate::flux;
use crate::flux::Bytecode;
use crate::flux::InstructionView;
use crate::lower;
use crate::lowering;
use crate::meaning;
use crate::meaning::Arithmetic;
use crate::meaning::Machine;
use crate::meaning::Readings;
use crate::order;
use crate::stack;
use crate::stack::Vm;
use crate::text;
use vstd::prelude::*;

verus! {

/// The output of a successful compilation.
#[derive(Debug, Clone)]
pub struct CompileOutput {
    pub bytecode: Bytecode,
    pub certificate: ProofCertificate,
    pub source_hash: String,
}

/// The output of a compilation with its texts as character sequences.
#[verifier::ext_equal]
pub struct OutputView {
    pub bytecode: Seq<InstructionView>,
    pub certificate: CertificateView,
    pub source_hash: Seq<char>,
}

impl View for CompileOutput {
    type V = OutputView;

    open spec fn view(&self) -> OutputView {
        OutputView {
            bytecode: self.bytecode@,
            certificate: self.certificate@,
            source_hash: self.source_hash@,
        }
    }
}

/// What compiling a module gives: the first phase that fails decides on the error.
pub open spec fn compilation(module: CirModule, source: Seq<char>, host: Host) -> core::result::Result<
    OutputView,
    GuardErrorView,
> {
    match lowering::lower_all(module).1 {
        Ok(program) => match codegen::compiled(program) {
            Ok(code) => match certificate::certificate(
                module,
                source,
                flux::encoding(flux::words(code)),
                host,
            ) {
                Ok(certificate) => Ok(
                    OutputView {
                        bytecode: code,
                        certificate,
                        source_hash: digest::digest_text(vstd::utf8::encode_utf8(source)),
                    },
                ),
                Err(e) => Err(e),
            },
            Err(e) => Err(e),
        },
        Err(e) => Err(e),
    }
}

/// The module can be lowered, and the instructions are those of the lowered module.
pub open spec fn is_code_of(code: Seq<InstructionView>, module: CirModule) -> bool {
    &&& lowering::lower_all(module).1 is Ok
    &&& code == codegen::program_code(lowering::lower_all(module).1->Ok_0)
}

/// There is room for what the compiler builds.
pub open spec fn compilable(module: CirModule) -> bool {
    &&& lowering::lower_all(module).0.fits()
    &&& module.proof_config@.len() > 0 ==> certificate::numerable(module)
}

/// A compilation's output or error, as views.
pub open spec fn compile_outcome(r: Result<CompileOutput>) -> core::result::Result<
    OutputView,
    GuardErrorView,
> {
    match r {
        Ok(output) => Ok(output@),
        Err(e) => Err(e@),
    }
}

/// Compile a CIR module directly.
pub fn compile(module: &CirModule, source_text: &str, host: &Host) -> (r: Result<CompileOutput>)
    requires
        compilable(*module),
    ensures
        compile_outcome(r) == compilation(*module, source_text@, *host),
        r matches Ok(output) ==> is_code_of(output.bytecode@, *module),
{
    match compile_checked(module, source_text, host) {
        Some(r) => r,
        None => vstd::pervasive::unreached(),
    }
}

/// [`compile`], as long as there is room for what it builds.
pub fn compile_checked(module: &CirModule, source_text: &str, host: &Host) -> (r: Option<
    Result<CompileOutput>,
>)
    ensures
        r is Some <==> compilable(*module),
        r matches Some(r) ==> compile_outcome(r) == compilation(*module, source_text@, *host),
        r matches Some(Ok(output)) ==> is_code_of(output.bytecode@, *module),
{
    if module.proof_config.len() > 0 {
        let invariants: usize = module.invariants.len();
        let derived: usize = module.derived.len();
        if invariants as u64 > u32::MAX as u64 || derived as u64 > (u32::MAX - invariants as u32) as u64 {
            return None;
        }
    }
    // Phase 1: Lowering — CIR → LCIR

    let lcir = match lower::lower_module_checked(module) {
        Some(Ok(program)) => program,
        Some(Err(e)) => {
            return Some(Err(e));
        },
        None => {
            return None;
        },
    };
    // Phase 2: Codegen — LCIR → FLUX bytecode
    proof {
        order::law_lowered_program_is_orderly(*module);
    }
    let bytecode = match codegen::codegen(&lcir) {
        Ok(bytecode) => bytecode,
        Err(e) => {
            return Some(Err(e));
        },
    };
    // Phase 3: Encode bytecode for hashing
    let bytecode_bytes = bytecode.encode();
    // Phase 4: Proof certificate generation
    let proof_gen = ProofGen::new(module, source_text, bytecode_bytes.as_slice());
    let certificate = match proof_gen.generate(host) {
        Ok(certificate) => certificate,
        Err(e) => {
            return Some(Err(e));
        },
    };
    let source_hash = digest::sha256_hex(source_text.as_bytes());
    Some(Ok(CompileOutput { bytecode, certificate, source_hash }))
}

// ---------------------------------------------------------------------------
// Laws
// ---------------------------------------------------------------------------

/// A certificate belongs to what was compiled: it names the module, it carries
/// the hash of the source that the output carries too, and the hash of the
/// encoded bytecode, and it has one proof for each configuration.
pub proof fn law_certificate_belongs_to_output(module: CirModule, source: Seq<char>, host: Host)
    requires
        compilation(module, source, host) is Ok,
    ensures
        ({
            let out = compilation(module, source, host)->Ok_0;
            &&& out.certificate.module == module.name@
            &&& out.certificate.version == module.version@
            &&& out.certificate.source_hash == "sha256:"@ + out.source_hash
            &&& out.certificate.bytecode_hash == digest::tagged(
                digest::sha256_digest(flux::encoding(flux::words(out.bytecode))),
            )
            &&& out.certificate.proofs.len() == module.proof_config@.len()
        }),
{
}

/// Which modules compile: of those that can be lowered, the ones whose code never
/// takes more from the stack than is there, gone through in order, and, where
/// proofs are asked for, whose obligations can all be written as formulas.
pub proof fn law_what_compiles(module: CirModule, source: Seq<char>, host: Host)
    requires
        lowering::lower_all(module).0.fits(),
        lowering::lower_all(module).1 is Ok,
        ({
            let code = codegen::program_code(lowering::lower_all(module).1->Ok_0);
            &&& code.len() <= usize::MAX
            &&& code.len() <= 2 * binary64::BINADE
        }),
    ensures
        ({
            let w = flux::words(codegen::program_code(lowering::lower_all(module).1->Ok_0));
            compilation(module, source, host) is Ok <==> {
                &&& flux::lowest(w, w.len()) >= 0
                &&& module.proof_config@.len() > 0 ==> certificate::all_obligations(module) is Ok
            }
        }),
{
    lowering::lemma_module(module);
    codegen::law_only_the_stack_can_run_short(lowering::lower_all(module).1->Ok_0);
}

/// A module can be compiled as long as lowering has room for it and, where proofs are
/// asked for, its obligations can be numbered in 32 bits.
pub proof fn law_what_is_compilable(module: CirModule)
    ensures
        compilable(module) <==> {
            &&& lowering::lower_all(module).0.fits()
            &&& module.proof_config@.len() == 0 || module.invariants@.len()
                + module.derived@.len() < 0x1_0000_0000
        },
{
}

/// The bytecode that comes out is the code of the lowered module, all of it, and
/// the validator has nothing to complain of.
pub proof fn law_output_is_the_code_of_the_module(module: CirModule, source: Seq<char>, host: Host)
    requires
        compilation(module, source, host) is Ok,
    ensures
        ({
            let out = compilation(module, source, host)->Ok_0;
            &&& lowering::lower_all(module).1 is Ok
            &&& out.bytecode == codegen::program_code(lowering::lower_all(module).1->Ok_0)
            &&& flux::complaint(flux::words(out.bytecode)) is None
            &&& out.source_hash == text::hex(
                digest::sha256_digest(vstd::utf8::encode_utf8(source)),
            )
        }),
{
}

/// The first phase that fails decides on the error: lowering, then code generation,
/// then, where proofs are asked for, writing the obligations as formulas. Where none
/// fails there is an output.
pub proof fn law_first_failing_phase_decides(module: CirModule, source: Seq<char>, host: Host)
    ensures
        ({
            let outcome = compilation(module, source, host);
            let program = lowering::lower_all(module).1;
            match program {
                Err(e) => outcome == Err::<OutputView, GuardErrorView>(e),
                Ok(p) => match codegen::compiled(p) {
                    Err(e) => outcome == Err::<OutputView, GuardErrorView>(e),
                    Ok(_) => if module.proof_config@.len() == 0 {
                        outcome is Ok
                    } else {
                        match certificate::all_obligations(module) {
                            Err(e) => outcome == Err::<OutputView, GuardErrorView>(e),
                            Ok(_) => outcome is Ok,
                        }
                    },
                },
            }
        }),
{
}

/// The bytecode is one for which the laws of runs hold.
pub open spec fn runnable(module: CirModule, code: Seq<InstructionView>) -> bool {
    &&& lowering::lower_all(module).0.fits()
    &&& code.len() <= usize::MAX
    &&& code.len() < 2 * binary64::BINADE
    &&& cycle::buffers_in_place(module)
    &&& forall|i: int|
        0 <= i < module.invariants@.len() ==> cycle::checkable(
            module,
            #[trigger] module.invariants@[i],
        )
}

/// So many copies, one after the other.
pub open spec fn repeated<T>(s: Seq<T>, n: nat) -> Seq<T>
    decreases n,
{
    if n == 0 {
        Seq::empty()
    } else {
        repeated(s, (n - 1) as nat) + s
    }
}

/// The stack machine that is started with the bytecode, seen as one at the entry of
/// the program.
pub open spec fn at_entry<V>(v: Vm<V>) -> Machine<V> {
    Machine {
        block: 0,
        at: 0,
        slots: v.memory.slots,
        stack: v.memory.stack,
        checks: v.memory.checks,
    }
}

/// The bytecode that comes out does what it is for: a stack machine that starts at
/// its first instruction and holds the readings checks, in each cycle of as many as
/// there are to be, every invariant of the module that has no guard or whose guard
/// holds, and finds the value of its constraint.
pub proof fn law_output_checks_the_invariants<V>(
    module: CirModule,
    source: Seq<char>,
    host: Host,
    m: Arithmetic<V>,
    r: Readings<V>,
    v: Vm<V>,
    cycles: nat,
)
    requires
        compilation(module, source, host) is Ok,
        runnable(module, compilation(module, source, host)->Ok_0.bytecode),
        stack::conventional(m),
        v.at == 0,
        meaning::holds(lowering::prepared(module), module, at_entry(v), r),
    ensures
        exists|i: nat|
            (#[trigger] stack::vm_run(
                compilation(module, source, host)->Ok_0.bytecode,
                m,
                v,
                i,
            )).memory.checks == v.memory.checks + repeated(
                cycle::findings(m, module, r, module.invariants@.len()),
                cycles,
            ),
{
    let p = lowering::lower_all(module).1->Ok_0;
    let code = codegen::program_code(p);
    let found = cycle::findings(m, module, r, module.invariants@.len());
    let i = lemma_cycles(module, m, r, v, cycles);
    assert(compilation(module, source, host)->Ok_0.bytecode == code);
    assert(stack::vm_run(code, m, v, i).memory.checks == v.memory.checks + repeated(
        found,
        cycles,
    ));
}

/// [`law_output_checks_the_invariants`], back at the head of the loop.
proof fn lemma_cycles<V>(
    module: CirModule,
    m: Arithmetic<V>,
    r: Readings<V>,
    v: Vm<V>,
    cycles: nat,
) -> (i: nat)
    requires
        lowering::lower_all(module).1 is Ok,
        runnable(module, codegen::program_code(lowering::lower_all(module).1->Ok_0)),
        stack::conventional(m),
        v.at == 0,
        meaning::holds(lowering::prepared(module), module, at_entry(v), r),
    ensures
        ({
            let p = lowering::lower_all(module).1->Ok_0;
            let end = stack::vm_run(codegen::program_code(p), m, v, i);
            &&& cycle::at_loop_head(module, stack::at_head(end), r)
            &&& stack::mirrors(p, stack::at_head(end), end)
            &&& end.memory.checks == v.memory.checks + repeated(
                cycle::findings(m, module, r, module.invariants@.len()),
                cycles,
            )
        }),
    decreases cycles,
{
    let p = lowering::lower_all(module).1->Ok_0;
    let code = codegen::program_code(p);
    let found = cycle::findings(m, module, r, module.invariants@.len());
    lowering::lemma_module(module);
    if cycles == 0 {
        let k = at_entry(v);
        assert(p.blocks[0].stmts.take(0) =~= Seq::empty());
        assert(stack::mirrors(p, k, v));
        cycle::law_start_leads_to_the_loop(module, m, r, k);
        let n = choose|n: nat| cycle::started(module, r, k, #[trigger] meaning::run(p, m, k, n));
        stack::law_code_runs_like_the_program(p, m, k, v, n);
        let i = choose|i: nat|
            stack::mirrors(p, meaning::run(p, m, k, n), #[trigger] stack::vm_run(code, m, v, i));
        assert(stack::at_head(stack::vm_run(code, m, v, i)) == meaning::run(p, m, k, n));
        assert(v.memory.checks + repeated(found, 0) =~= v.memory.checks);
        i
    } else {
        let before = (cycles - 1) as nat;
        let i = lemma_cycles(module, m, r, v, before);
        let start = stack::vm_run(code, m, v, i);
        stack::law_bytecode_checks_the_invariants(module, m, r, stack::at_head(start), start);
        let j = choose|j: nat|
            stack::code_cycle_done(
                module,
                m,
                r,
                start,
                #[trigger] stack::vm_run(code, m, start, j),
            ) && j > 0;
        stack::lemma_vm_run_adds(code, m, v, i, j);
        assert(v.memory.checks + repeated(found, before) + found =~= v.memory.checks + repeated(
            found,
            cycles,
        ));
        i + j
    }
}

/// A view shows an output as it is, and outcomes are told apart: a success shows all that
/// came out, and a failure its error.
pub proof fn law_outcomes_of_compilation(r: Result<CompileOutput>)
    ensures
        r matches Err(e) ==> compile_outcome(r) == Err::<OutputView, GuardErrorView>(e@),
        r matches Ok(out) ==> {
            &&& compile_outcome(r) is Ok
            &&& compile_outcome(r)->Ok_0.bytecode == out.bytecode@
            &&& compile_outcome(r)->Ok_0.certificate == out.certificate@
            &&& compile_outcome(r)->Ok_0.source_hash == out.source_hash@
        },
{
}

} // verus!
