//! Proof certificate generation.
//!
//! Certificates contain:
//!   - Source and bytecode hashes (tamper detection)
//!   - Per-obligation verification conditions in SMT-LIB format
//!   - Solver results, counterexamples, and a Merkle root

use crate::cir;
use crate::cir::CirInvariant;
use crate::cir::CirModule;
use crate::cir::Expr;
use crate::cir::ProofConfig;
use crate::digest;
use crate::error::GuardErrorView;
use crate::error::Result;
use crate::error::Span;
use crate::error::SpanView;
use crate::smt;
use crate::text;
use vstd::prelude::*;

verus! {

// ---------------------------------------------------------------------------
// Certificate Types
// ---------------------------------------------------------------------------

/// Top-level certificate structure.
#[derive(Debug, Clone, PartialEq)]
pub struct ProofCertificate {
    pub certificate_format: String,
    pub module: String,
    pub version: String,
    pub compiler: CompilerInfo,
    pub source_hash: String,
    pub bytecode_hash: String,
    pub proofs: Vec<ProofBlock>,
    pub metadata: CertMetadata,
}

#[derive(Debug, Clone, PartialEq)]
pub struct CompilerInfo {
    pub name: String,
    pub version: String,
    pub target: String,
}

#[derive(Debug, Clone, PartialEq)]
pub struct ProofBlock {
    pub proof_id: String,
    pub tactics: Vec<String>,
    pub status: ProofStatus,
    pub verification_time_ms: u64,
    pub obligations: Vec<Obligation>,
    pub merkle_root: String,
}

#[derive(Debug, Clone, Copy, PartialEq, Eq)]
pub enum ProofStatus {
    Verified,
    Bounded,
    Runtime,
    Failed,
}

#[derive(Debug, Clone, PartialEq)]
pub struct Obligation {
    pub obligation_id: String,
    pub kind: ObligationKind,
    pub name: String,
    pub source_span: String,
    pub vc: VerificationCondition,
    pub trace_digest: String,
    pub counterexample: Option<Counterexample>,
}

#[derive(Debug, Clone, Copy, PartialEq, Eq)]
pub enum ObligationKind {
    InvariantPreservation,
    InvariantInitiation,
    DerivedRuleSanity,
    TemporalLiveness,
    TemporalSafety,
    UnitConsistency,
    DomainMembership,
}

#[derive(Debug, Clone, PartialEq)]
pub struct VerificationCondition {
    pub logic: String,
    pub formula: String,
    pub status: VcStatus,
}

#[derive(Debug, Clone, Copy, PartialEq, Eq)]
pub enum VcStatus {
    Sat,
    Unsat,
    Unknown,
}

#[derive(Debug, Clone, PartialEq)]
pub struct Counterexample {
    /// The variables by name, each with its value as JSON text.
    pub model: Vec<(String, String)>,
    pub time_step: usize,
    pub violated_invariant: String,
    pub explanation: String,
}

#[derive(Debug, Clone, PartialEq)]
pub struct CertMetadata {
    pub generated_at: String,
    pub host_os: String,
    pub deterministic: bool,
}

/// What a certificate says of the machine that made it.
#[derive(Debug, Clone, PartialEq)]
pub struct Host {
    /// The time in seconds since the beginning of 1970.
    pub seconds: u64,
    /// The operating system.
    pub os: String,
    /// The processor architecture.
    pub arch: String,
}

// ---------------------------------------------------------------------------
// Views
// ---------------------------------------------------------------------------

/// A certificate with its texts as character sequences.
#[verifier::ext_equal]
pub struct CertificateView {
    pub certificate_format: Seq<char>,
    pub module: Seq<char>,
    pub version: Seq<char>,
    pub compiler_name: Seq<char>,
    pub compiler_version: Seq<char>,
    pub compiler_target: Seq<char>,
    pub source_hash: Seq<char>,
    pub bytecode_hash: Seq<char>,
    pub proofs: Seq<ProofView>,
    pub generated_at: Seq<char>,
    pub host_os: Seq<char>,
    pub deterministic: bool,
}

/// A proof with its texts as character sequences.
#[verifier::ext_equal]
pub struct ProofView {
    pub proof_id: Seq<char>,
    pub tactics: Seq<Seq<char>>,
    pub status: ProofStatus,
    pub verification_time_ms: u64,
    pub obligations: Seq<ObligationView>,
    pub merkle_root: Seq<char>,
}

/// An obligation with its texts as character sequences.
#[verifier::ext_equal]
pub struct ObligationView {
    pub obligation_id: Seq<char>,
    pub kind: ObligationKind,
    pub name: Seq<char>,
    pub source_span: Seq<char>,
    pub logic: Seq<char>,
    pub formula: Seq<char>,
    pub vc_status: VcStatus,
    pub trace_digest: Seq<char>,
    pub counterexample: Option<Counterexample>,
}

impl View for Obligation {
    type V = ObligationView;

    open spec fn view(&self) -> ObligationView {
        ObligationView {
            obligation_id: self.obligation_id@,
            kind: self.kind,
            name: self.name@,
            source_span: self.source_span@,
            logic: self.vc.logic@,
            formula: self.vc.formula@,
            vc_status: self.vc.status,
            trace_digest: self.trace_digest@,
            counterexample: self.counterexample,
        }
    }
}

/// The views of obligations.
pub open spec fn obligation_views(list: Seq<Obligation>) -> Seq<ObligationView> {
    list.map_values(|o: Obligation| o@)
}

/// Texts as character sequences.
pub open spec fn texts(list: Seq<String>) -> Seq<Seq<char>> {
    list.map_values(|s: String| s@)
}

impl View for ProofBlock {
    type V = ProofView;

    open spec fn view(&self) -> ProofView {
        ProofView {
            proof_id: self.proof_id@,
            tactics: texts(self.tactics@),
            status: self.status,
            verification_time_ms: self.verification_time_ms,
            obligations: obligation_views(self.obligations@),
            merkle_root: self.merkle_root@,
        }
    }
}

/// The views of proofs.
pub open spec fn proof_views(list: Seq<ProofBlock>) -> Seq<ProofView> {
    list.map_values(|p: ProofBlock| p@)
}

impl View for ProofCertificate {
    type V = CertificateView;

    open spec fn view(&self) -> CertificateView {
        CertificateView {
            certificate_format: self.certificate_format@,
            module: self.module@,
            version: self.version@,
            compiler_name: self.compiler.name@,
            compiler_version: self.compiler.version@,
            compiler_target: self.compiler.target@,
            source_hash: self.source_hash@,
            bytecode_hash: self.bytecode_hash@,
            proofs: proof_views(self.proofs@),
            generated_at: self.metadata.generated_at@,
            host_os: self.metadata.host_os@,
            deterministic: self.metadata.deterministic,
        }
    }
}

// ---------------------------------------------------------------------------
// What a certificate says
// ---------------------------------------------------------------------------

/// The obligation to show a formula.
pub open spec fn obligation(
    id: Seq<char>,
    kind: ObligationKind,
    name: Seq<char>,
    span: SpanView,
    e: Expr,
    formula: Seq<char>,
) -> ObligationView {
    ObligationView {
        obligation_id: id,
        kind,
        name,
        source_span: span.text(),
        logic: smt::logic(e),
        formula,
        vc_status: VcStatus::Unknown,
        trace_digest: digest::digest_text(vstd::utf8::encode_utf8("placeholder"@)),
        counterexample: None,
    }
}

/// The obligations of the first `n` invariants: each preserves itself. They are
/// numbered from one on.
pub open spec fn invariant_obligations(invariants: Seq<CirInvariant>, n: nat) -> core::result::Result<
    Seq<ObligationView>,
    GuardErrorView,
>
    decreases n,
{
    if n == 0 {
        Ok(Seq::empty())
    } else {
        match invariant_obligations(invariants, (n - 1) as nat) {
            Ok(list) => {
                let inv = invariants[n - 1];
                match smt::formula(inv.ensure) {
                    Ok(formula) => Ok(
                        list.push(
                            obligation(
                                "inv-"@ + text::padded_decimal(n),
                                ObligationKind::InvariantPreservation,
                                inv.name@,
                                inv.source_span@,
                                inv.ensure,
                                formula,
                            ),
                        ),
                    ),
                    Err(e) => Err(e),
                }
            },
            failed => failed,
        }
    }
}

/// The obligations of the invariants and of the first `n` derived rules, which
/// are numbered on.
pub open spec fn obligations(module: CirModule, n: nat) -> core::result::Result<
    Seq<ObligationView>,
    GuardErrorView,
>
    decreases n,
{
    let count = module.invariants@.len();
    if n == 0 {
        invariant_obligations(module.invariants@, count)
    } else {
        match obligations(module, (n - 1) as nat) {
            Ok(list) => {
                let der = module.derived@[n - 1];
                match smt::formula(der.conclude) {
                    Ok(formula) => Ok(
                        list.push(
                            obligation(
                                "der-"@ + text::padded_decimal(count + n),
                                ObligationKind::DerivedRuleSanity,
                                der.name@,
                                der.source_span@,
                                der.conclude,
                                formula,
                            ),
                        ),
                    ),
                    Err(e) => Err(e),
                }
            },
            failed => failed,
        }
    }
}

/// All obligations of a module.
pub open spec fn all_obligations(module: CirModule) -> core::result::Result<
    Seq<ObligationView>,
    GuardErrorView,
> {
    obligations(module, module.derived@.len())
}

/// The digest that an obligation contributes to the Merkle root.
pub open spec fn leaf(o: ObligationView) -> Seq<u8> {
    digest::sha256_digest(
        vstd::utf8::encode_utf8(o.obligation_id) + vstd::utf8::encode_utf8(o.trace_digest),
    )
}

/// The Merkle root over obligations.
pub open spec fn merkle_root_of(list: Seq<ObligationView>) -> Seq<char> {
    digest::root_text(list.map_values(|o: ObligationView| leaf(o)))
}

/// The proof for a configuration. No solver is asked, so nothing is established
/// beforehand: what is left is the check that the bytecode makes at run time.
pub open spec fn proof_of(config: ProofConfig, list: Seq<ObligationView>) -> ProofView {
    ProofView {
        proof_id: config.name@,
        tactics: texts(config.tactics@),
        status: ProofStatus::Runtime,
        verification_time_ms: 0,
        obligations: list,
        merkle_root: merkle_root_of(list),
    }
}

/// A year with 366 days.
pub open spec fn is_leap(year: nat) -> bool {
    year % 4 == 0 && (year % 100 != 0 || year % 400 == 0)
}

/// The number of days of a year.
pub open spec fn year_len(year: nat) -> nat {
    if is_leap(year) {
        366
    } else {
        365
    }
}

/// The number of days of a month, which is counted from one on.
pub open spec fn month_len(year: nat, month: nat) -> nat {
    if month == 2 {
        if is_leap(year) {
            29
        } else {
            28
        }
    } else if month == 4 || month == 6 || month == 9 || month == 11 {
        30
    } else {
        31
    }
}

/// The year of a day that is counted from the beginning of `year` on, and the
/// days of that year that are over.
pub open spec fn year_at(year: nat, day: nat) -> (nat, nat)
    decreases day,
{
    if day < year_len(year) {
        (year, day)
    } else {
        year_at(year + 1, (day - year_len(year)) as nat)
    }
}

/// The month of a day that is counted from the beginning of `month` on, and the
/// days of that month that are over.
pub open spec fn month_at(year: nat, month: nat, day: nat) -> (nat, nat)
    decreases 12 - month,
{
    if month >= 12 || day < month_len(year, month) {
        (month, day)
    } else {
        month_at(year, month + 1, (day - month_len(year, month)) as nat)
    }
}

/// The number of days after which the calendar repeats: those of 400 years.
pub const CALENDAR_CYCLE: u64 = 146097;

/// The year, the month and the day of a day that is counted from the first of
/// January 1970 on.
pub open spec fn civil_date(days: nat) -> (nat, nat, nat) {
    let (year, rest) = year_at(
        1970 + 400 * (days / CALENDAR_CYCLE as nat),
        days % CALENDAR_CYCLE as nat,
    );
    let (month, day) = month_at(year, 1, rest);
    (year, month, day + 1)
}

/// A time in seconds as text in the form of RFC 3339.
pub open spec fn iso_text(seconds: nat) -> Seq<char> {
    let (year, month, day) = civil_date(seconds / 86400);
    text::decimal(year) + "-"@ + text::padded_decimal(month) + "-"@ + text::padded_decimal(day)
        + "T"@ + text::padded_decimal(seconds % 86400 / 3600) + ":"@ + text::padded_decimal(
        seconds % 86400 % 3600 / 60,
    ) + ":"@ + text::padded_decimal(seconds % 86400 % 60) + "Z"@
}

/// The certificate of a module, its source and its bytecode. A module without
/// proof configurations has no obligations generated.
pub open spec fn certificate(
    module: CirModule,
    source: Seq<char>,
    bytecode: Seq<u8>,
    host: Host,
) -> core::result::Result<CertificateView, GuardErrorView> {
    let configs = module.proof_config@;
    if configs.len() > 0 && all_obligations(module) is Err {
        Err(all_obligations(module)->Err_0)
    } else {
        Ok(
            CertificateView {
                certificate_format: "guard-native-v1"@,
                module: module.name@,
                version: module.version@,
                compiler_name: "guardc"@,
                compiler_version: "0.1.0"@,
                compiler_target: "flux-isa-43"@,
                source_hash: digest::tagged(
                    digest::sha256_digest(vstd::utf8::encode_utf8(source)),
                ),
                bytecode_hash: digest::tagged(digest::sha256_digest(bytecode)),
                proofs: proofs_of(configs, all_obligations(module)->Ok_0),
                generated_at: iso_text(host.seconds as nat),
                host_os: host.os@ + "-"@ + host.arch@,
                deterministic: true,
            },
        )
    }
}

/// The proofs for configurations: each has the same obligations.
pub open spec fn proofs_of(configs: Seq<ProofConfig>, list: Seq<ObligationView>) -> Seq<
    ProofView,
> {
    configs.map_values(|config: ProofConfig| proof_of(config, list))
}

// ---------------------------------------------------------------------------
// Generator
// ---------------------------------------------------------------------------

pub struct ProofGen<'a> {
    pub module: &'a CirModule,
    pub source_text: &'a str,
    pub bytecode_bytes: &'a [u8],
}

/// Obligations or an error, as views.
pub open spec fn obligations_outcome(r: Result<Vec<Obligation>>) -> core::result::Result<
    Seq<ObligationView>,
    GuardErrorView,
> {
    match r {
        Ok(list) => Ok(obligation_views(list@)),
        Err(e) => Err(e@),
    }
}

/// A certificate or an error, as views.
pub open spec fn certificate_outcome(r: Result<ProofCertificate>) -> core::result::Result<
    CertificateView,
    GuardErrorView,
> {
    match r {
        Ok(certificate) => Ok(certificate@),
        Err(e) => Err(e@),
    }
}

/// The obligations of a module can be numbered.
pub open spec fn numerable(module: CirModule) -> bool {
    module.invariants@.len() + module.derived@.len() <= u32::MAX
}

/// The obligation to show an expression.
fn new_obligation(
    prefix: &str,
    number: u32,
    kind: ObligationKind,
    name: &String,
    span: &Span,
    expr: &Expr,
    formula: String,
) -> (o: Obligation)
    ensures
        o@ == obligation(
            prefix@ + text::padded_decimal(number as nat),
            kind,
            name@,
            span@,
            *expr,
            formula@,
        ),
{
    let mut obligation_id: String = prefix.to_owned();
    text::push_padded_decimal(&mut obligation_id, number as u64);
    Obligation {
        obligation_id,
        kind,
        name: name.clone(),
        source_span: span.text(),
        vc: VerificationCondition {
            logic: smt::select_logic(expr),
            formula,
            status: VcStatus::Unknown,  // no solver is asked
        },
        trace_digest: digest::sha256_hex("placeholder".as_bytes()),
        counterexample: None,
    }
}

impl<'a> ProofGen<'a> {
    /// A generator for the certificate of a module, its source and its bytecode.
    pub fn new(module: &'a CirModule, source_text: &'a str, bytecode_bytes: &'a [u8]) -> (gen: Self)
        ensures
            gen.module == module,
            gen.source_text == source_text,
            gen.bytecode_bytes == bytecode_bytes,
    {
        ProofGen { module, source_text, bytecode_bytes }
    }

    /// The certificate.
    pub fn generate(&self, host: &Host) -> (r: Result<ProofCertificate>)
        requires
            self.module.proof_config@.len() > 0 ==> numerable(*self.module),
        ensures
            certificate_outcome(r) == certificate(
                *self.module,
                self.source_text@,
                self.bytecode_bytes@,
                *host,
            ),
    {
        let source_hash = digest::sha256_hex(self.source_text.as_bytes());
        let bytecode_hash = digest::sha256_hex(self.bytecode_bytes);
        let ghost list = all_obligations(*self.module)->Ok_0;
        let ghost configs = self.module.proof_config@;
        let mut proofs: Vec<ProofBlock> = Vec::new();
        let count: usize = self.module.proof_config.len();
        let mut i: usize = 0;
        while i < count
            invariant
                i <= count == self.module.proof_config@.len(),
                configs == self.module.proof_config@,
                count > 0 ==> numerable(*self.module),
                list == all_obligations(*self.module)->Ok_0,
                i > 0 ==> all_obligations(*self.module) is Ok,
                proof_views(proofs@) == proofs_of(configs.take(i as int), list),
            decreases count - i,
        {
            let config = &self.module.proof_config[i];
            let obligations = match self.generate_obligations() {
                Ok(list) => list,
                Err(e) => {
                    return Err(e);
                },
            };
            let merkle_root = compute_merkle_root(obligations.as_slice());
            let tactics = cir::copy_texts(&config.tactics);
            assert(texts(tactics@) =~= texts(config.tactics@));
            let ghost before = proof_views(proofs@);
            proofs.push(
                ProofBlock {
                    proof_id: config.name.clone(),
                    tactics,
                    status: ProofStatus::Runtime,  // no solver is asked
                    verification_time_ms: 0,
                    obligations,
                    merkle_root,
                },
            );
            proof {
                let (shorter, longer) = (configs.take(i as int), configs.take(i + 1));
                assert(proofs@.last()@ == proof_of(configs[i as int], list));
                assert(proof_views(proofs@) =~= before.push(proofs@.last()@));
                assert(proofs_of(longer, list) =~= proofs_of(shorter, list).push(
                    proof_of(configs[i as int], list),
                ));
            }
            i += 1;
        }
        proof {
            assert(configs.take(count as int) =~= configs);
        }
        Ok(
            ProofCertificate {
                certificate_format: "guard-native-v1".to_owned(),
                module: self.module.name.clone(),
                version: self.module.version.clone(),
                compiler: CompilerInfo {
                    name: "guardc".to_owned(),
                    version: "0.1.0".to_owned(),
                    target: "flux-isa-43".to_owned(),
                },
                source_hash: digest::with_algorithm(source_hash.as_str()),
                bytecode_hash: digest::with_algorithm(bytecode_hash.as_str()),
                proofs,
                metadata: CertMetadata {
                    generated_at: format_iso(host.seconds),
                    host_os: host_text(host),
                    deterministic: true,
                },
            },
        )
    }

    /// The obligations of the module.
    pub fn generate_obligations(&self) -> (r: Result<Vec<Obligation>>)
        requires
            numerable(*self.module),
        ensures
            obligations_outcome(r) == all_obligations(*self.module),
    {
        let invariants = &self.module.invariants;
        let derived = &self.module.derived;
        let mut list: Vec<Obligation> = Vec::new();
        let mut id: u32 = 0;
        assert(obligation_views(list@) =~= Seq::empty());
        let count: usize = invariants.len();
        let mut i: usize = 0;
        while i < count
            invariant
                i <= count == invariants@.len(),
                invariants@ == self.module.invariants@,
                derived@ == self.module.derived@,
                count <= u32::MAX,
                id == i,
                invariant_obligations(invariants@, i as nat) == Ok::<
                    Seq<ObligationView>,
                    GuardErrorView,
                >(obligation_views(list@)),
            decreases count - i,
        {
            let inv = &invariants[i];
            id = id + 1;
            match smt::expr_to_smt(&inv.ensure, &self.module.symbol_table) {
                Ok(formula) => {
                    let ghost before = obligation_views(list@);
                    list.push(
                        new_obligation(
                            "inv-",
                            id,
                            ObligationKind::InvariantPreservation,
                            &inv.name,
                            &inv.source_span,
                            &inv.ensure,
                            formula,
                        ),
                    );
                    assert(obligation_views(list@) =~= before.push(list@.last()@));
                },
                Err(e) => {
                    proof {
                        lemma_invariant_error(invariants@, (i + 1) as nat, count as nat);
                        lemma_derived_error(*self.module, 0, derived@.len());
                    }
                    return Err(e);
                },
            }
            i += 1;
        }
        let count: usize = derived.len();
        let mut i: usize = 0;
        while i < count
            invariant
                i <= count == derived@.len(),
                derived@ == self.module.derived@,
                id == self.module.invariants@.len() + i,
                numerable(*self.module),
                obligations(*self.module, i as nat) == Ok::<Seq<ObligationView>, GuardErrorView>(
                    obligation_views(list@),
                ),
            decreases count - i,
        {
            let der = &derived[i];
            id = id + 1;
            match smt::expr_to_smt(&der.conclude, &self.module.symbol_table) {
                Ok(formula) => {
                    let ghost before = obligation_views(list@);
                    list.push(
                        new_obligation(
                            "der-",
                            id,
                            ObligationKind::DerivedRuleSanity,
                            &der.name,
                            &der.source_span,
                            &der.conclude,
                            formula,
                        ),
                    );
                    assert(obligation_views(list@) =~= before.push(list@.last()@));
                },
                Err(e) => {
                    proof {
                        lemma_derived_error(*self.module, (i + 1) as nat, count as nat);
                    }
                    return Err(e);
                },
            }
            i += 1;
        }
        Ok(list)
    }
}

/// An error stays.
proof fn lemma_invariant_error(invariants: Seq<CirInvariant>, m: nat, n: nat)
    requires
        m <= n,
    ensures
        invariant_obligations(invariants, m) is Err ==> invariant_obligations(invariants, n)
            == invariant_obligations(invariants, m),
    decreases n,
{
    if m < n {
        lemma_invariant_error(invariants, m, (n - 1) as nat);
    }
}

/// An error stays.
proof fn lemma_derived_error(module: CirModule, m: nat, n: nat)
    requires
        m <= n,
    ensures
        obligations(module, m) is Err ==> obligations(module, n) == obligations(module, m),
    decreases n,
{
    if m < n {
        lemma_derived_error(module, m, (n - 1) as nat);
    }
}

/// The Merkle root over obligations: the name of the algorithm and 64 digits.
pub fn compute_merkle_root(list: &[Obligation]) -> (root: String)
    ensures
        root@ == merkle_root_of(obligation_views(list@)),
        root@.len() == "sha256:"@.len() + 64,
{
    let ghost views = obligation_views(list@);
    let mut leaves: Vec<Vec<u8>> = Vec::new();
    let count: usize = list.len();
    let mut i: usize = 0;
    while i < count
        invariant
            i <= count == list@.len(),
            views == obligation_views(list@),
            leaves@.len() == i,
            forall|j: int|
                0 <= j < i ==> (#[trigger] leaves@[j])@ == leaf(views[j]) && leaves@[j]@.len() == 32,
        decreases count - i,
    {
        let o = &list[i];
        assert(views[i as int] == o@);
        leaves.push(
            digest::sha256_of_two(o.obligation_id.as_str().as_bytes(), o.trace_digest.as_str().as_bytes()),
        );
        i += 1;
    }
    assert(digest::digests(leaves@) =~= views.map_values(|o: ObligationView| leaf(o)));
    digest::merkle_root(leaves)
}

/// Whether a year has 366 days.
fn leap(year: u64) -> (b: bool)
    ensures
        b == is_leap(year as nat),
{
    year % 4 == 0 && (year % 100 != 0 || year % 400 == 0)
}

/// The number of days of a month.
fn days_of_month(year: u64, month: u64) -> (n: u64)
    ensures
        n == month_len(year as nat, month as nat),
{
    if month == 2 {
        if leap(year) {
            29
        } else {
            28
        }
    } else if month == 4 || month == 6 || month == 9 || month == 11 {
        30
    } else {
        31
    }
}

/// The year, the month and the day of a day since the beginning of 1970.
fn date_of(days: u64) -> (date: (u64, u64, u64))
    requires
        days <= u64::MAX / 86400,
    ensures
        (date.0 as nat, date.1 as nat, date.2 as nat) == civil_date(days as nat),
{
    let start: u64 = 1970 + 400 * (days / CALENDAR_CYCLE);
    let mut year: u64 = start;
    let mut rest: u64 = days % CALENDAR_CYCLE;
    let ghost first = rest;
    while rest >= 366 || (rest == 365 && !leap(year))
        invariant
            start <= year <= start + (first - rest),
            rest <= first < CALENDAR_CYCLE,
            start <= 1970 + 400 * (u64::MAX / 86400 / CALENDAR_CYCLE),
            year_at(start as nat, first as nat) == year_at(year as nat, rest as nat),
        decreases rest,
    {
        let length: u64 = if leap(year) {
            366
        } else {
            365
        };
        rest = rest - length;
        year = year + 1;
    }
    let mut month: u64 = 1;
    let mut day: u64 = rest;
    while month < 12 && day >= days_of_month(year, month)
        invariant
            1 <= month <= 12,
            day <= rest < CALENDAR_CYCLE,
            month_at(year as nat, 1, rest as nat) == month_at(year as nat, month as nat, day as nat),
        decreases 12 - month,
    {
        day = day - days_of_month(year, month);
        month = month + 1;
    }
    (year, month, day + 1)
}

/// A time in seconds since the beginning of 1970 as text.
pub fn format_iso(seconds: u64) -> (s: String)
    ensures
        s@ == iso_text(seconds as nat),
{
    let days: u64 = seconds / 86400;
    let rem: u64 = seconds % 86400;
    let hours: u64 = rem / 3600;
    let mins: u64 = (rem % 3600) / 60;
    let secs: u64 = rem % 60;
    let (year, month, day) = date_of(days);
    let mut s: String = String::new();
    text::push_decimal(&mut s, year);
    assert(s@ =~= text::decimal(year as nat));
    s.push_str("-");
    text::push_padded_decimal(&mut s, month);
    s.push_str("-");
    text::push_padded_decimal(&mut s, day);
    s.push_str("T");
    text::push_padded_decimal(&mut s, hours);
    s.push_str(":");
    text::push_padded_decimal(&mut s, mins);
    s.push_str(":");
    text::push_padded_decimal(&mut s, secs);
    s.push_str("Z");
    s
}

/// The operating system and the architecture of a host.
fn host_text(host: &Host) -> (s: String)
    ensures
        s@ == host.os@ + "-"@ + host.arch@,
{
    let mut s: String = host.os.clone();
    s.push_str("-");
    s.push_str(host.arch.as_str());
    s
}

// ---------------------------------------------------------------------------
// Laws
// ---------------------------------------------------------------------------

/// The number of an obligation with what it is about before it.
pub open spec fn id_of(module: CirModule, i: int) -> Seq<char> {
    if i < module.invariants@.len() {
        "inv-"@ + text::padded_decimal((i + 1) as nat)
    } else {
        "der-"@ + text::padded_decimal((i + 1) as nat)
    }
}

/// The obligations of the first `n` invariants are numbered.
proof fn lemma_invariants_numbered(module: CirModule, n: nat)
    requires
        n <= module.invariants@.len(),
    ensures
        invariant_obligations(module.invariants@, n) matches Ok(list) ==> {
            &&& list.len() == n
            &&& forall|i: int| 0 <= i < n ==> {
                let o = #[trigger] list[i];
                let inv = module.invariants@[i];
                &&& o.obligation_id == id_of(module, i)
                &&& o.kind == ObligationKind::InvariantPreservation
                &&& o.name == inv.name@
                &&& smt::formula(inv.ensure) == Ok::<Seq<char>, GuardErrorView>(o.formula)
            }
        },
    decreases n,
{
    if n > 0 {
        lemma_invariants_numbered(module, (n - 1) as nat);
    }
}

/// The obligations of the invariants and the first `n` derived rules are numbered.
proof fn lemma_derived_numbered(module: CirModule, n: nat)
    requires
        n <= module.derived@.len(),
    ensures
        obligations(module, n) matches Ok(list) ==> {
            &&& list.len() == module.invariants@.len() + n
            &&& forall|i: int| 0 <= i < list.len() ==> about(module, #[trigger] list[i], i)
        },
    decreases n,
{
    lemma_invariants_numbered(module, module.invariants@.len());
    if n > 0 {
        lemma_derived_numbered(module, (n - 1) as nat);
    }
}

/// The obligation is the one for the place `i` among the invariants and, after
/// them, the derived rules.
pub open spec fn about(module: CirModule, o: ObligationView, i: int) -> bool {
    let count = module.invariants@.len();
    &&& o.obligation_id == id_of(module, i)
    &&& if i < count {
        let inv = module.invariants@[i];
        &&& o.kind == ObligationKind::InvariantPreservation
        &&& o.name == inv.name@
        &&& smt::formula(inv.ensure) == Ok::<Seq<char>, GuardErrorView>(o.formula)
    } else {
        let der = module.derived@[i - count];
        &&& o.kind == ObligationKind::DerivedRuleSanity
        &&& o.name == der.name@
        &&& smt::formula(der.conclude) == Ok::<Seq<char>, GuardErrorView>(o.formula)
    }
}

/// Every invariant and every derived rule has its obligation, in order, under
/// its own name and with its own formula, and there are no others.
pub proof fn law_every_rule_has_its_obligation(module: CirModule, i: int)
    requires
        all_obligations(module) is Ok,
        0 <= i < module.invariants@.len() + module.derived@.len(),
    ensures
        all_obligations(module)->Ok_0.len() == module.invariants@.len() + module.derived@.len(),
        about(module, all_obligations(module)->Ok_0[i], i),
{
    lemma_derived_numbered(module, module.derived@.len());
}

/// No two obligations have the same identifier.
pub proof fn law_obligations_have_their_own_identifiers(module: CirModule, i: int, j: int)
    requires
        all_obligations(module) is Ok,
        0 <= i < j < module.invariants@.len() + module.derived@.len(),
    ensures
        all_obligations(module)->Ok_0[i].obligation_id
            != all_obligations(module)->Ok_0[j].obligation_id,
{
    law_every_rule_has_its_obligation(module, i);
    law_every_rule_has_its_obligation(module, j);
    let (a, b) = (
        text::padded_decimal((i + 1) as nat),
        text::padded_decimal((j + 1) as nat),
    );
    reveal_strlit("inv-");
    reveal_strlit("der-");
    text::law_numerals_are_unambiguous((i + 1) as nat, (j + 1) as nat);
    if id_of(module, i) == id_of(module, j) {
        assert(id_of(module, i).skip(4) =~= a);
        assert(id_of(module, j).skip(4) =~= b);
    }
}

/// Certificates are deterministic: on two hosts the same module, source and
/// bytecode have the same certificate, but for the time and the host's name.
pub proof fn law_certificates_are_deterministic(
    module: CirModule,
    source: Seq<char>,
    bytecode: Seq<u8>,
    here: Host,
    there: Host,
)
    requires
        certificate(module, source, bytecode, here) is Ok,
    ensures
        certificate(module, source, bytecode, there) == Ok::<CertificateView, GuardErrorView>(
            CertificateView {
                generated_at: iso_text(there.seconds as nat),
                host_os: there.os@ + "-"@ + there.arch@,
                ..certificate(module, source, bytecode, here)->Ok_0
            },
        ),
{
}

/// The rest of a year has a month for each of its days.
proof fn lemma_month_at(year: nat, month: nat, day: nat, left: nat)
    requires
        1 <= month <= 12,
        left == days_from(year, month),
        day < left,
    ensures
        ({
            let (m, d) = month_at(year, month, day);
            1 <= m <= 12 && d < month_len(year, m)
        }),
    decreases 12 - month,
{
    reveal_with_fuel(days_from, 2);
    if month < 12 && day >= month_len(year, month) {
        lemma_month_at(
            year,
            month + 1,
            (day - month_len(year, month)) as nat,
            (left - month_len(year, month)) as nat,
        );
    }
}

/// The number of days of a year from the beginning of a month on.
pub open spec fn days_from(year: nat, month: nat) -> nat
    decreases 13 - month,
{
    if month > 12 {
        0
    } else {
        month_len(year, month) + days_from(year, month + 1)
    }
}

/// A year is found in which the day lies.
proof fn lemma_year_at(year: nat, day: nat)
    ensures
        year_at(year, day).0 >= year,
        year_at(year, day).1 < year_len(year_at(year, day).0),
    decreases day,
{
    if day >= year_len(year) {
        lemma_year_at(year + 1, (day - year_len(year)) as nat);
    }
}

/// Every day has a date: a month of the twelve, and a day that the month has.
pub proof fn law_dates_are_valid(days: nat)
    ensures
        ({
            let (year, month, day) = civil_date(days);
            &&& year >= 1970
            &&& 1 <= month <= 12
            &&& 1 <= day <= month_len(year, month)
        }),
{
    let first = 1970 + 400 * (days / CALENDAR_CYCLE as nat);
    let rest = days % CALENDAR_CYCLE as nat;
    let year = year_at(first, rest).0;
    lemma_year_at(first, rest);
    reveal_with_fuel(days_from, 14);
    assert(days_from(year, 1) == year_len(year));
    lemma_month_at(year, 1, year_at(first, rest).1, days_from(year, 1));
}

/// The name, the place and the expression of the rule with the number `i` among the
/// invariants and, after them, the derived rules.
pub open spec fn rule(module: CirModule, i: int) -> (Seq<char>, SpanView, Expr) {
    let count = module.invariants@.len();
    if i < count {
        let inv = module.invariants@[i];
        (inv.name@, inv.source_span@, inv.ensure)
    } else {
        let der = module.derived@[i - count];
        (der.name@, der.source_span@, der.conclude)
    }
}

/// What an obligation says besides its number and its name.
pub open spec fn states(o: ObligationView, span: SpanView, e: Expr) -> bool {
    &&& o.source_span == span.file + ":"@ + text::decimal(span.start_line as nat) + ":"@
        + text::decimal(span.start_col as nat) + "-"@ + text::decimal(span.end_line as nat) + ":"@
        + text::decimal(span.end_col as nat)
    &&& o.logic == smt::logic(e)
    &&& smt::formula(e) == Ok::<Seq<char>, GuardErrorView>(o.formula)
    &&& o.vc_status == VcStatus::Unknown
    &&& o.trace_digest == text::hex(
        digest::sha256_digest(vstd::utf8::encode_utf8("placeholder"@)),
    )
    &&& o.counterexample is None
}

/// [`law_what_an_obligation_says`] for the first `n` invariants.
proof fn lemma_invariants_stated(module: CirModule, n: nat)
    requires
        n <= module.invariants@.len(),
    ensures
        invariant_obligations(module.invariants@, n) matches Ok(list) ==> list.len() == n
            && forall|i: int|
            0 <= i < n ==> states(
                #[trigger] list[i],
                module.invariants@[i].source_span@,
                module.invariants@[i].ensure,
            ),
    decreases n,
{
    if n > 0 {
        lemma_invariants_stated(module, (n - 1) as nat);
    }
}

/// [`law_what_an_obligation_says`] for the invariants and the first `n` derived
/// rules.
proof fn lemma_derived_stated(module: CirModule, n: nat)
    requires
        n <= module.derived@.len(),
    ensures
        obligations(module, n) matches Ok(list) ==> list.len() == module.invariants@.len() + n
            && forall|i: int|
            0 <= i < list.len() ==> states(
                #[trigger] list[i],
                rule(module, i).1,
                rule(module, i).2,
            ),
    decreases n,
{
    lemma_invariants_stated(module, module.invariants@.len());
    if n > 0 {
        lemma_derived_stated(module, (n - 1) as nat);
    }
}

/// Each obligation carries the number of its rule, counted from one on through the
/// invariants and the derived rules, with what kind of rule it is before it; the name
/// and the place of the rule; the formula of its expression and the logic of that. No
/// solver was asked.
pub proof fn law_what_an_obligation_says(module: CirModule, i: int)
    requires
        all_obligations(module) is Ok,
        0 <= i < module.invariants@.len() + module.derived@.len(),
    ensures
        ({
            let o = all_obligations(module)->Ok_0[i];
            let (name, span, e) = rule(module, i);
            let number = o.obligation_id.skip(4);
            &&& o.obligation_id.len() >= 6
            &&& o.obligation_id.take(4) == if i < module.invariants@.len() {
                "inv-"@
            } else {
                "der-"@
            }
            &&& text::all_digits(number)
            &&& text::read_decimal(number) == i + 1
            &&& o.kind == if i < module.invariants@.len() {
                ObligationKind::InvariantPreservation
            } else {
                ObligationKind::DerivedRuleSanity
            }
            &&& o.name == name
            &&& states(o, span, e)
        }),
{
    law_every_rule_has_its_obligation(module, i);
    lemma_derived_stated(module, module.derived@.len());
    let n = (i + 1) as nat;
    let o = all_obligations(module)->Ok_0[i];
    text::law_numerals_are_read_back(n);
    reveal_strlit("inv-");
    reveal_strlit("der-");
    assert(o.obligation_id.skip(4) =~= text::padded_decimal(n));
    if i < module.invariants@.len() {
        assert(o.obligation_id.take(4) =~= "inv-"@);
    } else {
        assert(o.obligation_id.take(4) =~= "der-"@);
    }
    if n >= 100 {
        lemma_long_numeral(n);
    }
}

/// The numeral of a number from one hundred on has more than two digits.
proof fn lemma_long_numeral(n: nat)
    requires
        n >= 10,
    ensures
        text::padded_decimal(n).len() >= 2,
{
    text::law_numerals_are_read_back(n / 10);
}

/// The first rule that cannot be written as a formula decides on the error, and where
/// all can be, there is none.
pub proof fn law_first_rule_without_a_formula_decides(module: CirModule, i: int)
    requires
        0 <= i <= module.invariants@.len() + module.derived@.len(),
        forall|j: int| 0 <= j < i ==> smt::formula((#[trigger] rule(module, j)).2) is Ok,
    ensures
        i == module.invariants@.len() + module.derived@.len() ==> all_obligations(module) is Ok,
        i < module.invariants@.len() + module.derived@.len() && smt::formula(
            rule(module, i).2,
        ) is Err ==> all_obligations(module) is Err && all_obligations(module)->Err_0
            == smt::formula(rule(module, i).2)->Err_0,
{
    let count = module.invariants@.len();
    if i <= count {
        lemma_invariants_written(module, i as nat);
        if i < count {
            if smt::formula(rule(module, i).2) is Err {
                assert(invariant_obligations(module.invariants@, (i + 1) as nat) is Err);
                lemma_invariant_error(module.invariants@, (i + 1) as nat, count);
                lemma_derived_error(module, 0, module.derived@.len());
            }
        } else {
            lemma_derived_written(module, 0, i);
        }
    } else {
        lemma_invariants_written(module, count);
        lemma_derived_written(module, (i - count) as nat, i);
    }
    if i >= count && i < count + module.derived@.len() && smt::formula(rule(module, i).2) is Err {
        let n = (i - count + 1) as nat;
        assert(obligations(module, n) is Err);
        lemma_derived_error(module, n, module.derived@.len());
    }
}

/// The first `n` invariants have obligations.
proof fn lemma_invariants_written(module: CirModule, n: nat)
    requires
        n <= module.invariants@.len(),
        forall|j: int| 0 <= j < n ==> smt::formula((#[trigger] rule(module, j)).2) is Ok,
    ensures
        invariant_obligations(module.invariants@, n) is Ok,
    decreases n,
{
    if n > 0 {
        lemma_invariants_written(module, (n - 1) as nat);
        assert(smt::formula(rule(module, n - 1).2) is Ok);
    }
}

/// The invariants and the first `n` derived rules have obligations.
proof fn lemma_derived_written(module: CirModule, n: nat, i: int)
    requires
        n <= module.derived@.len(),
        i == module.invariants@.len() + n,
        invariant_obligations(module.invariants@, module.invariants@.len()) is Ok,
        forall|j: int| 0 <= j < i ==> smt::formula((#[trigger] rule(module, j)).2) is Ok,
    ensures
        obligations(module, n) is Ok,
    decreases n,
{
    if n > 0 {
        lemma_derived_written(module, (n - 1) as nat, i - 1);
        assert(smt::formula(rule(module, i - 1).2) is Ok);
    }
}

/// Every obligation enters the Merkle root of its proof, with its identifier and its
/// trace: the leaves are the digests of the two, in the order of the obligations.
pub proof fn law_leaves_of_the_root(list: Seq<ObligationView>, leaves: Seq<Seq<u8>>)
    requires
        leaves.len() == list.len(),
        forall|i: int|
            0 <= i < list.len() ==> #[trigger] leaves[i] == digest::sha256_digest(
                vstd::utf8::encode_utf8(list[i].obligation_id) + vstd::utf8::encode_utf8(
                    list[i].trace_digest,
                ),
            ),
    ensures
        merkle_root_of(list) == digest::root_text(leaves),
{
    assert(list.map_values(|o: ObligationView| leaf(o)) =~= leaves);
}

/// A certificate has a proof for each configuration, in order, with its name and its
/// tactics, all obligations of the module, and their Merkle root. Nothing is claimed
/// to be proved beforehand.
pub proof fn law_each_configuration_has_its_proof(
    module: CirModule,
    source: Seq<char>,
    bytecode: Seq<u8>,
    host: Host,
    i: int,
)
    requires
        certificate(module, source, bytecode, host) is Ok,
        0 <= i < module.proof_config@.len(),
    ensures
        ({
            let proofs = certificate(module, source, bytecode, host)->Ok_0.proofs;
            let config = module.proof_config@[i];
            &&& proofs.len() == module.proof_config@.len()
            &&& all_obligations(module) is Ok
            &&& proofs[i].proof_id == config.name@
            &&& proofs[i].tactics.len() == config.tactics@.len()
            &&& forall|j: int|
                0 <= j < config.tactics@.len() ==> #[trigger] proofs[i].tactics[j]
                    == config.tactics@[j]@
            &&& proofs[i].obligations == all_obligations(module)->Ok_0
            &&& proofs[i].merkle_root == merkle_root_of(all_obligations(module)->Ok_0)
            &&& proofs[i].status == ProofStatus::Runtime
            &&& proofs[i].verification_time_ms == 0
        }),
{
}

/// What a certificate says of itself, of the compiler, of the source and of the
/// bytecode, and of the machine that made it. There is one unless proofs are asked
/// for and an obligation cannot be written as a formula.
pub proof fn law_what_a_certificate_says(
    module: CirModule,
    source: Seq<char>,
    bytecode: Seq<u8>,
    host: Host,
)
    ensures
        certificate(module, source, bytecode, host) is Err <==> module.proof_config@.len() > 0
            && all_obligations(module) is Err,
        certificate(module, source, bytecode, host) matches Err(e) ==> e == all_obligations(
            module,
        )->Err_0,
        certificate(module, source, bytecode, host) matches Ok(c) ==> {
            &&& c.certificate_format == "guard-native-v1"@
            &&& c.compiler_name == "guardc"@
            &&& c.compiler_version == "0.1.0"@
            &&& c.compiler_target == "flux-isa-43"@
            &&& c.module == module.name@
            &&& c.version == module.version@
            &&& c.source_hash == "sha256:"@ + text::hex(
                digest::sha256_digest(vstd::utf8::encode_utf8(source)),
            )
            &&& c.bytecode_hash == "sha256:"@ + text::hex(digest::sha256_digest(bytecode))
            &&& c.generated_at == iso_text(host.seconds as nat)
            &&& c.host_os == host.os@ + "-"@ + host.arch@
            &&& c.deterministic
            &&& c.proofs.len() == module.proof_config@.len()
        },
{
}

// ---------------------------------------------------------------------------
// Dates
// ---------------------------------------------------------------------------

/// The Gregorian calendar has a leap day in every fourth year, but in none of the
/// hundreds that are no multiples of four hundred.
pub open spec fn leap_days_before(year: int) -> int {
    (year - 1) / 4 - (year - 1) / 100 + (year - 1) / 400
}

/// The number of days from the beginning of 1970 to the beginning of a year.
pub open spec fn days_before_year(year: int) -> int {
    365 * (year - 1970) + leap_days_before(year) - leap_days_before(1970)
}

/// The number of days from the beginning of a year to that of a month.
pub open spec fn days_before_month(year: int, month: int) -> int {
    seq![0int, 31, 59, 90, 120, 151, 181, 212, 243, 273, 304, 334][month - 1] + if month > 2 {
        leap_days_before(year + 1) - leap_days_before(year)
    } else {
        0
    }
}

/// A year is as long as the next one begins later.
proof fn lemma_year_len(year: nat)
    requires
        year >= 1,
    ensures
        days_before_year(year as int + 1) == days_before_year(year as int) + year_len(year),
        leap_days_before(year as int + 1) - leap_days_before(year as int) == if is_leap(year) {
            1int
        } else {
            0int
        },
{
}

/// The days before the year that is found, and those of that year that are over.
proof fn lemma_year_counted(year: nat, day: nat)
    requires
        year >= 1,
    ensures
        ({
            let (y, rest) = year_at(year, day);
            days_before_year(y as int) + rest == days_before_year(year as int) + day
        }),
    decreases day,
{
    if day >= year_len(year) {
        lemma_year_len(year);
        lemma_year_counted(year + 1, (day - year_len(year)) as nat);
    }
}

/// The days before the month that is found, and those of that month that are over.
proof fn lemma_month_counted(year: nat, month: nat, day: nat)
    requires
        year >= 1,
        1 <= month <= 12,
    ensures
        ({
            let (m, rest) = month_at(year, month, day);
            days_before_month(year as int, m as int) + rest == days_before_month(
                year as int,
                month as int,
            ) + day
        }),
    decreases 12 - month,
{
    lemma_year_len(year);
    if month < 12 && day >= month_len(year, month) {
        lemma_month_counted(year, month + 1, (day - month_len(year, month)) as nat);
        lemma_month_len(year, month);
    }
}

/// A month is as long as the next one begins later.
proof fn lemma_month_len(year: nat, month: nat)
    requires
        year >= 1,
        1 <= month < 12,
    ensures
        days_before_month(year as int, month as int + 1) == days_before_month(year as int, month as int)
            + month_len(year, month),
{
    lemma_year_len(year);
    let table = seq![0int, 31, 59, 90, 120, 151, 181, 212, 243, 273, 304, 334];
    assert(table[0] == 0 && table[1] == 31 && table[2] == 59 && table[3] == 90);
    assert(table[4] == 120 && table[5] == 151 && table[6] == 181 && table[7] == 212);
    assert(table[8] == 243 && table[9] == 273 && table[10] == 304 && table[11] == 334);
    if month == 1 {
    } else if month == 2 {
    } else if month == 3 {
    } else if month == 4 {
    } else if month == 5 {
    } else if month == 6 {
    } else if month == 7 {
    } else if month == 8 {
    } else if month == 9 {
    } else if month == 10 {
    } else {
        assert(month == 11);
    }
}

/// A date is that of its day: it exists in the Gregorian calendar, and from the first
/// of January 1970 to it are as many days as were counted.
pub proof fn law_dates_are_those_of_the_calendar(days: nat)
    ensures
        ({
            let (year, month, day) = civil_date(days);
            &&& days_before_year(year as int) + days_before_month(year as int, month as int) + (day
                - 1) == days
            &&& 1 <= month <= 12
            &&& day >= 1
            &&& month < 12 ==> days_before_month(year as int, month as int) + day
                <= days_before_month(year as int, month as int + 1)
            &&& month == 12 ==> day <= 31
        }),
{
    let cycles = days / CALENDAR_CYCLE as nat;
    let first = 1970 + 400 * cycles;
    let rest = days % CALENDAR_CYCLE as nat;
    let (year, over) = year_at(first, rest);
    let (month, day) = month_at(year, 1, over);
    law_dates_are_valid(days);
    lemma_year_at(first, rest);
    lemma_year_counted(first, rest);
    lemma_month_counted(year, 1, over);
    assert(days_before_month(year as int, 1) == 0);
    assert((first - 1) / 4 == 1969int / 4 + 100 * cycles);
    assert((first - 1) / 100 == 1969int / 100 + 4 * cycles);
    assert((first - 1) / 400 == 1969int / 400 + cycles);
    assert(days_before_year(first as int) == 146097 * cycles);
    if month < 12 {
        lemma_month_len(year, month);
    }
}

/// A time is written as the date of its day and the time of that day: hours, minutes
/// and seconds that together make up the seconds since its beginning.
pub proof fn law_times_are_written_in_full(seconds: nat)
    ensures
        ({
            let (year, month, day) = civil_date(seconds / 86400);
            let (h, m, s) = (
                seconds % 86400 / 3600,
                seconds % 3600 / 60,
                seconds % 60,
            );
            &&& iso_text(seconds) == text::decimal(year) + "-"@ + text::padded_decimal(month)
                + "-"@ + text::padded_decimal(day) + "T"@ + text::padded_decimal(h) + ":"@
                + text::padded_decimal(m) + ":"@ + text::padded_decimal(s) + "Z"@
            &&& h < 24
            &&& m < 60
            &&& s < 60
            &&& seconds == 86400 * (seconds / 86400) + 3600 * h + 60 * m + s
        }),
{
    assert(seconds % 86400 % 3600 == seconds % 3600);
    assert(seconds % 86400 % 60 == seconds % 60);
}

/// A view shows an obligation as it is.
pub proof fn law_view_of_an_obligation(o: Obligation)
    ensures
        o@.obligation_id == o.obligation_id@,
        o@.kind == o.kind,
        o@.name == o.name@,
        o@.source_span == o.source_span@,
        o@.logic == o.vc.logic@,
        o@.formula == o.vc.formula@,
        o@.vc_status == o.vc.status,
        o@.trace_digest == o.trace_digest@,
        o@.counterexample == o.counterexample,
{
}

/// A view shows a proof as it is, with all its tactics and obligations.
pub proof fn law_view_of_a_proof(p: ProofBlock, i: int)
    ensures
        p@.proof_id == p.proof_id@,
        p@.status == p.status,
        p@.verification_time_ms == p.verification_time_ms,
        p@.merkle_root == p.merkle_root@,
        p@.tactics.len() == p.tactics@.len(),
        p@.obligations.len() == p.obligations@.len(),
        0 <= i < p.tactics@.len() ==> p@.tactics[i] == p.tactics@[i]@,
        0 <= i < p.obligations@.len() ==> p@.obligations[i] == p.obligations@[i]@,
{
}

/// A view shows a certificate as it is, with all its proofs.
pub proof fn law_view_of_a_certificate(c: ProofCertificate, i: int)
    ensures
        c@.certificate_format == c.certificate_format@,
        c@.module == c.module@,
        c@.version == c.version@,
        c@.compiler_name == c.compiler.name@,
        c@.compiler_version == c.compiler.version@,
        c@.compiler_target == c.compiler.target@,
        c@.source_hash == c.source_hash@,
        c@.bytecode_hash == c.bytecode_hash@,
        c@.generated_at == c.metadata.generated_at@,
        c@.host_os == c.metadata.host_os@,
        c@.deterministic == c.metadata.deterministic,
        c@.proofs.len() == c.proofs@.len(),
        0 <= i < c.proofs@.len() ==> c@.proofs[i] == c.proofs@[i]@,
{
}

/// Outcomes are told apart: a success shows all that came out, and a failure its error.
pub proof fn law_outcomes_of_generation(
    r: Result<ProofCertificate>,
    q: Result<Vec<Obligation>>,
    list: Seq<Obligation>,
    i: int,
)
    ensures
        r matches Ok(c) ==> certificate_outcome(r) == Ok::<CertificateView, GuardErrorView>(c@),
        r matches Err(e) ==> certificate_outcome(r) == Err::<CertificateView, GuardErrorView>(
            e@,
        ),
        q matches Ok(found) ==> obligations_outcome(q) == Ok::<
            Seq<ObligationView>,
            GuardErrorView,
        >(obligation_views(found@)),
        q matches Err(e) ==> obligations_outcome(q) == Err::<
            Seq<ObligationView>,
            GuardErrorView,
        >(e@),
        obligation_views(list).len() == list.len(),
        0 <= i < list.len() ==> obligation_views(list)[i] == list[i]@,
{
}

} // verus!
