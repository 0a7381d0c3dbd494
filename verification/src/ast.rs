//! Raw AST produced by the GUARD parser.
//!
//! This is a direct representation of the source syntax.  Type checking
//! and unit analysis happen on this tree before lowering to CIR.

use crate::binary64::Real;
use crate::error::Span;
use vstd::prelude::*;

verus! {

// ---------------------------------------------------------------------------
// Identifiers & Literals
// ---------------------------------------------------------------------------

#[derive(Debug, PartialEq)]
pub struct Ident {
    pub name: String,
    pub span: Span,
}

impl Clone for Ident {
    fn clone(&self) -> (copy: Self)
        ensures
            copy == *self,
    {
        Ident { name: self.name.clone(), span: self.span.clone() }
    }
}

#[derive(Debug, PartialEq)]
pub struct QualifiedId {
    pub parts: Vec<Ident>,
}

/// The same identifiers.
fn copy_idents(list: &Vec<Ident>) -> (copy: Vec<Ident>)
    ensures
        copy@ == list@,
{
    let mut copy: Vec<Ident> = Vec::new();
    for i in 0..list.len()
        invariant
            copy@ == list@.take(i as int),
    {
        copy.push(list[i].clone());
        assert(copy@ =~= list@.take(i + 1));
    }
    assert(list@.take(list@.len() as int) =~= list@);
    copy
}

impl Clone for QualifiedId {
    fn clone(&self) -> (copy: Self)
        ensures
            copy.parts@ == self.parts@,
    {
        QualifiedId { parts: copy_idents(&self.parts) }
    }
}

#[derive(Debug, PartialEq)]
pub struct Quantity {
    pub value: Real,
    pub unit: String,
    pub span: Span,
}

impl Clone for Quantity {
    fn clone(&self) -> (copy: Self)
        ensures
            copy == *self,
    {
        Quantity { value: self.value, unit: self.unit.clone(), span: self.span.clone() }
    }
}

// ---------------------------------------------------------------------------
// Types
// ---------------------------------------------------------------------------

#[derive(Debug, PartialEq)]
pub enum TypeDesc {
    Real,
    Integer,
    Boolean,
    Enum(QualifiedId),
    Array { low: Quantity, high: Quantity, of: Box<TypeDesc> },
    Record { fields: Vec<Field> },
}

#[derive(Debug, PartialEq)]
pub struct Field {
    pub name: Ident,
    pub ty: TypeDesc,
    pub domain: Option<DomainRef>,
}

impl TypeDesc {
    /// The same type, part by part.
    pub open spec fn same(self, other: TypeDesc) -> bool
        decreases self,
    {
        match (self, other) {
            (TypeDesc::Real, TypeDesc::Real) => true,
            (TypeDesc::Integer, TypeDesc::Integer) => true,
            (TypeDesc::Boolean, TypeDesc::Boolean) => true,
            (TypeDesc::Enum(a), TypeDesc::Enum(b)) => a.parts@ == b.parts@,
            (
                TypeDesc::Array { low, high, of },
                TypeDesc::Array { low: other_low, high: other_high, of: other_of },
            ) => low == other_low && high == other_high && of.same(*other_of),
            (TypeDesc::Record { fields: a }, TypeDesc::Record { fields: b }) => {
                &&& a@.len() == b@.len()
                &&& forall|i: int| 0 <= i < a@.len() ==> (#[trigger] a@[i]).same(b@[i])
            },
            _ => false,
        }
    }
}

impl Field {
    /// The same field, part by part.
    pub open spec fn same(self, other: Field) -> bool
        decreases self,
    {
        &&& self.name == other.name
        &&& self.ty.same(other.ty)
        &&& same_domain(self.domain, other.domain)
    }
}

/// The same domain, or none.
pub open spec fn same_domain(a: Option<DomainRef>, b: Option<DomainRef>) -> bool {
    match (a, b) {
        (Some(a), Some(b)) => a.same(b),
        (None, None) => true,
        _ => false,
    }
}

impl Clone for TypeDesc {
    fn clone(&self) -> (copy: Self)
        ensures
            self.same(copy),
        decreases self,
    {
        match self {
            TypeDesc::Real => TypeDesc::Real,
            TypeDesc::Integer => TypeDesc::Integer,
            TypeDesc::Boolean => TypeDesc::Boolean,
            TypeDesc::Enum(name) => TypeDesc::Enum(name.clone()),
            TypeDesc::Array { low, high, of } => TypeDesc::Array {
                low: low.clone(),
                high: high.clone(),
                of: Box::new((**of).clone()),
            },
            TypeDesc::Record { fields } => {
                let mut copies: Vec<Field> = Vec::new();
                for i in 0..fields.len()
                    invariant
                        *self == (TypeDesc::Record { fields: *fields }),
                        copies@.len() == i,
                        forall|j: int| 0 <= j < i ==> (#[trigger] fields@[j]).same(copies@[j]),
                {
                    assert(decreases_to!(*self => self->fields));
                    assert(decreases_to!(*fields => fields@));
                    assert(decreases_to!(fields@ => fields@[i as int]));
                    copies.push(fields[i].clone());
                }
                TypeDesc::Record { fields: copies }
            },
        }
    }
}

impl Clone for Field {
    fn clone(&self) -> (copy: Self)
        ensures
            self.same(copy),
        decreases self,
    {
        let domain = match &self.domain {
            Some(domain) => Some(domain.clone()),
            None => None,
        };
        Field { name: self.name.clone(), ty: self.ty.clone(), domain }
    }
}

// ---------------------------------------------------------------------------
// Domains
// ---------------------------------------------------------------------------

#[derive(Debug, PartialEq)]
pub enum DomainBody {
    Enum { variants: Vec<Ident> },
    Interval { low: Quantity, high: Quantity },
    Product { members: Vec<DomainBody> },
}

impl DomainBody {
    /// The same domain, part by part.
    pub open spec fn same(self, other: DomainBody) -> bool
        decreases self,
    {
        match (self, other) {
            (DomainBody::Enum { variants: a }, DomainBody::Enum { variants: b }) => a@ == b@,
            (
                DomainBody::Interval { low, high },
                DomainBody::Interval { low: other_low, high: other_high },
            ) => low == other_low && high == other_high,
            (DomainBody::Product { members: a }, DomainBody::Product { members: b }) => {
                &&& a@.len() == b@.len()
                &&& forall|i: int| 0 <= i < a@.len() ==> (#[trigger] a@[i]).same(b@[i])
            },
            _ => false,
        }
    }
}

impl Clone for DomainBody {
    fn clone(&self) -> (copy: Self)
        ensures
            self.same(copy),
        decreases self,
    {
        match self {
            DomainBody::Enum { variants } => DomainBody::Enum { variants: copy_idents(variants) },
            DomainBody::Interval { low, high } => DomainBody::Interval {
                low: low.clone(),
                high: high.clone(),
            },
            DomainBody::Product { members } => {
                let mut copies: Vec<DomainBody> = Vec::new();
                for i in 0..members.len()
                    invariant
                        *self == (DomainBody::Product { members: *members }),
                        copies@.len() == i,
                        forall|j: int| 0 <= j < i ==> (#[trigger] members@[j]).same(copies@[j]),
                {
                    assert(decreases_to!(*self => self->members));
                    assert(decreases_to!(*members => members@));
                    assert(decreases_to!(members@ => members@[i as int]));
                    copies.push(members[i].clone());
                }
                DomainBody::Product { members: copies }
            },
        }
    }
}

#[derive(Debug, PartialEq)]
pub enum DomainRef {
    Named(QualifiedId),
    Inline(DomainBody),
}

impl DomainRef {
    /// The same domain, part by part.
    pub open spec fn same(self, other: DomainRef) -> bool {
        match (self, other) {
            (DomainRef::Named(a), DomainRef::Named(b)) => a.parts@ == b.parts@,
            (DomainRef::Inline(a), DomainRef::Inline(b)) => a.same(b),
            _ => false,
        }
    }
}

impl Clone for DomainRef {
    fn clone(&self) -> (copy: Self)
        ensures
            self.same(copy),
    {
        match self {
            DomainRef::Named(name) => DomainRef::Named(name.clone()),
            DomainRef::Inline(body) => DomainRef::Inline(body.clone()),
        }
    }
}

// ---------------------------------------------------------------------------
// Expressions
// ---------------------------------------------------------------------------

#[derive(Debug, PartialEq)]
pub enum Expr {
    Ident(QualifiedId),
    Quantity(Quantity),
    Bool(bool),
    Unary { op: UnaryOp, expr: Box<Expr>, span: Span },
    Binary { op: BinOp, left: Box<Expr>, right: Box<Expr>, span: Span },
    If { cond: Box<Expr>, then_branch: Box<Expr>, else_branch: Box<Expr>, span: Span },
    Call { func: Ident, args: Vec<Expr>, span: Span },
    ArrayIndex { array: Ident, index: Box<Expr>, span: Span },
    FieldAccess { record: Ident, field: Ident, span: Span },
    // Quantified expressions (sugar before lowering)
    Forall { var: Ident, domain: DomainRef, body: Box<Expr>, span: Span },
    Exists { var: Ident, domain: DomainRef, body: Box<Expr>, span: Span },
    // Temporal operators
    Always(Box<Expr>, Span),
    Eventually(Box<Expr>, Span),
    Next(Box<Expr>, Span),
    Until { left: Box<Expr>, right: Box<Expr>, span: Span },
    Since { left: Box<Expr>, right: Box<Expr>, span: Span },
    For { duration: Quantity, body: Box<Expr>, span: Span },
    After { duration: Quantity, body: Box<Expr>, span: Span },
    // Special accessors
    Old(Box<Expr>, Span),
    RateOf(Box<Expr>, Span),
    Delta(Box<Expr>, Span),
}

impl Expr {
    /// The same expression, part by part.
    pub open spec fn same(self, other: Expr) -> bool
        decreases self,
    {
        match (self, other) {
            (
                Expr::Ident(a0),
                Expr::Ident(b0),
            ) => a0.parts@ == b0.parts@,
            (
                Expr::Quantity(a0),
                Expr::Quantity(b0),
            ) => a0 == b0,
            (
                Expr::Bool(a0),
                Expr::Bool(b0),
            ) => a0 == b0,
            (
                Expr::Unary { op, expr, span },
                Expr::Unary { op: other_op, expr: other_expr, span: other_span },
            ) => op == other_op && expr.same(*other_expr) && span == other_span,
            (
                Expr::Binary { op, left, right, span },
                Expr::Binary {
                    op: other_op,
                    left: other_left,
                    right: other_right,
                    span: other_span,
                },
            ) => {
                &&& op == other_op
                &&& left.same(*other_left)
                &&& right.same(*other_right)
                &&& span == other_span
            },
            (
                Expr::If { cond, then_branch, else_branch, span },
                Expr::If {
                    cond: other_cond,
                    then_branch: other_then_branch,
                    else_branch: other_else_branch,
                    span: other_span,
                },
            ) => {
                &&& cond.same(*other_cond)
                &&& then_branch.same(*other_then_branch)
                &&& else_branch.same(*other_else_branch)
                &&& span == other_span
            },
            (
                Expr::Call { func, args, span },
                Expr::Call { func: other_func, args: other_args, span: other_span },
            ) => {
                &&& func == other_func
                &&& args@.len() == other_args@.len()
                &&& (forall|i: int| 0 <= i < args@.len()
                    ==> (#[trigger] args@[i]).same(other_args@[i]))
                &&& span == other_span
            },
            (
                Expr::ArrayIndex { array, index, span },
                Expr::ArrayIndex { array: other_array, index: other_index, span: other_span },
            ) => array == other_array && index.same(*other_index) && span == other_span,
            (
                Expr::FieldAccess { record, field, span },
                Expr::FieldAccess { record: other_record, field: other_field, span: other_span },
            ) => record == other_record && field == other_field && span == other_span,
            (
                Expr::Forall { var, domain, body, span },
                Expr::Forall {
                    var: other_var,
                    domain: other_domain,
                    body: other_body,
                    span: other_span,
                },
            ) => {
                &&& var == other_var
                &&& domain.same(other_domain)
                &&& body.same(*other_body)
                &&& span == other_span
            },
            (
                Expr::Exists { var, domain, body, span },
                Expr::Exists {
                    var: other_var,
                    domain: other_domain,
                    body: other_body,
                    span: other_span,
                },
            ) => {
                &&& var == other_var
                &&& domain.same(other_domain)
                &&& body.same(*other_body)
                &&& span == other_span
            },
            (
                Expr::Always(a0, a1),
                Expr::Always(b0, b1),
            ) => a0.same(*b0) && a1 == b1,
            (
                Expr::Eventually(a0, a1),
                Expr::Eventually(b0, b1),
            ) => a0.same(*b0) && a1 == b1,
            (
                Expr::Next(a0, a1),
                Expr::Next(b0, b1),
            ) => a0.same(*b0) && a1 == b1,
            (
                Expr::Until { left, right, span },
                Expr::Until { left: other_left, right: other_right, span: other_span },
            ) => left.same(*other_left) && right.same(*other_right) && span == other_span,
            (
                Expr::Since { left, right, span },
                Expr::Since { left: other_left, right: other_right, span: other_span },
            ) => left.same(*other_left) && right.same(*other_right) && span == other_span,
            (
                Expr::For { duration, body, span },
                Expr::For { duration: other_duration, body: other_body, span: other_span },
            ) => duration == other_duration && body.same(*other_body) && span == other_span,
            (
                Expr::After { duration, body, span },
                Expr::After { duration: other_duration, body: other_body, span: other_span },
            ) => duration == other_duration && body.same(*other_body) && span == other_span,
            (
                Expr::Old(a0, a1),
                Expr::Old(b0, b1),
            ) => a0.same(*b0) && a1 == b1,
            (
                Expr::RateOf(a0, a1),
                Expr::RateOf(b0, b1),
            ) => a0.same(*b0) && a1 == b1,
            (
                Expr::Delta(a0, a1),
                Expr::Delta(b0, b1),
            ) => a0.same(*b0) && a1 == b1,
            _ => false,
        }
    }
}

impl Clone for Expr {
    fn clone(&self) -> (copy: Self)
        ensures
            self.same(copy),
        decreases self,
    {
        match self {
            Expr::Ident(name) => Expr::Ident(name.clone()),
            Expr::Quantity(quantity) => Expr::Quantity(quantity.clone()),
            Expr::Bool(value) => Expr::Bool(*value),
            Expr::Unary { op, expr, span } => Expr::Unary {
                op: *op,
                expr: Box::new((**expr).clone()),
                span: span.clone(),
            },
            Expr::Binary { op, left, right, span } => Expr::Binary {
                op: *op,
                left: Box::new((**left).clone()),
                right: Box::new((**right).clone()),
                span: span.clone(),
            },
            Expr::If { cond, then_branch, else_branch, span } => Expr::If {
                cond: Box::new((**cond).clone()),
                then_branch: Box::new((**then_branch).clone()),
                else_branch: Box::new((**else_branch).clone()),
                span: span.clone(),
            },
            Expr::Call { func, args, span } => {
                let mut copies: Vec<Expr> = Vec::new();
                for i in 0..args.len()
                    invariant
                        *self == (Expr::Call { func: *func, args: *args, span: *span }),
                        copies@.len() == i,
                        forall|j: int| 0 <= j < i ==> (#[trigger] args@[j]).same(copies@[j]),
                {
                    assert(decreases_to!(*self => self->args));
                    assert(decreases_to!(*args => args@));
                    assert(decreases_to!(args@ => args@[i as int]));
                    copies.push(args[i].clone());
                }
                Expr::Call { func: func.clone(), args: copies, span: span.clone() }
            },
            Expr::ArrayIndex { array, index, span } => Expr::ArrayIndex {
                array: array.clone(),
                index: Box::new((**index).clone()),
                span: span.clone(),
            },
            Expr::FieldAccess { record, field, span } => Expr::FieldAccess {
                record: record.clone(),
                field: field.clone(),
                span: span.clone(),
            },
            Expr::Forall { var, domain, body, span } => Expr::Forall {
                var: var.clone(),
                domain: domain.clone(),
                body: Box::new((**body).clone()),
                span: span.clone(),
            },
            Expr::Exists { var, domain, body, span } => Expr::Exists {
                var: var.clone(),
                domain: domain.clone(),
                body: Box::new((**body).clone()),
                span: span.clone(),
            },
            Expr::Always(inner, span) => Expr::Always(Box::new((**inner).clone()), span.clone()),
            Expr::Eventually(inner, span) => Expr::Eventually(Box::new((**inner).clone()), span.clone()),
            Expr::Next(inner, span) => Expr::Next(Box::new((**inner).clone()), span.clone()),
            Expr::Until { left, right, span } => Expr::Until {
                left: Box::new((**left).clone()),
                right: Box::new((**right).clone()),
                span: span.clone(),
            },
            Expr::Since { left, right, span } => Expr::Since {
                left: Box::new((**left).clone()),
                right: Box::new((**right).clone()),
                span: span.clone(),
            },
            Expr::For { duration, body, span } => Expr::For {
                duration: duration.clone(),
                body: Box::new((**body).clone()),
                span: span.clone(),
            },
            Expr::After { duration, body, span } => Expr::After {
                duration: duration.clone(),
                body: Box::new((**body).clone()),
                span: span.clone(),
            },
            Expr::Old(inner, span) => Expr::Old(Box::new((**inner).clone()), span.clone()),
            Expr::RateOf(inner, span) => Expr::RateOf(Box::new((**inner).clone()), span.clone()),
            Expr::Delta(inner, span) => Expr::Delta(Box::new((**inner).clone()), span.clone()),
        }
    }
}

#[derive(Debug, Clone, Copy, PartialEq, Eq, Hash)]
pub enum UnaryOp {
    Neg,
    Abs,
    Not,
    Old,
    RateOf,
    Delta,
}

#[derive(Debug, Clone, Copy, PartialEq, Eq, Hash)]
pub enum BinOp {
    // Arithmetic
    Add,
    Sub,
    Mul,
    Div,
    Mod,
    // Comparison
    Eq,
    Neq,
    Lt,
    Gt,
    Lte,
    Gte,
    In,
    // Logic
    And,
    Or,
    Implies,
    Iff,
}

// ---------------------------------------------------------------------------
// Declarations
// ---------------------------------------------------------------------------

#[derive(Debug, Clone, PartialEq)]
pub struct Module {
    pub name: Ident,
    pub version: Option<String>,
    pub system_desc: Option<String>,
    pub imports: Vec<Import>,
    pub dimensions: Vec<DimensionDecl>,
    pub domains: Vec<DomainDecl>,
    pub states: Vec<StateDecl>,
    pub invariants: Vec<InvariantDecl>,
    pub derives: Vec<DeriveDecl>,
    pub proofs: Vec<ProofDecl>,
}

#[derive(Debug, Clone, PartialEq)]
pub struct Import {
    pub path: QualifiedId,
    pub alias: Option<Ident>,
}

#[derive(Debug, Clone, PartialEq)]
pub struct DimensionDecl {
    pub name: Ident,
    pub base: String, // "real", "integer"
    pub unit_expr: String,
    pub range: Option<(Quantity, Quantity)>,
}

#[derive(Debug, Clone, PartialEq)]
pub struct DomainDecl {
    pub name: Ident,
    pub body: DomainBody,
}

#[derive(Debug, Clone, PartialEq)]
pub struct StateDecl {
    pub name: Ident,
    pub ty: TypeDesc,
    pub domain: Option<DomainRef>,
    pub initial: Option<Expr>,
    pub sample_period: Option<Quantity>,
}

#[derive(Debug, Clone, Copy, PartialEq, Eq, Hash)]
pub enum Priority {
    Critical,
    Major,
    Minor,
}

#[derive(Debug, Clone, PartialEq)]
pub enum ViolationAction {
    Halt,
    Warn,
    Log,
    Transition(Ident),
}

#[derive(Debug, Clone, PartialEq)]
pub struct InvariantDecl {
    pub name: Ident,
    pub priority: Option<Priority>,
    pub when: Option<Expr>,
    pub ensure: Expr,
    pub on_violation: Option<ViolationAction>,
}

#[derive(Debug, Clone, PartialEq)]
pub struct DeriveDecl {
    pub name: Ident,
    pub premises: Vec<Premise>,
    pub when: Option<Expr>,
    pub conclude: Expr,
    pub proof_obligation: Option<Expr>,
}

#[derive(Debug, Clone, PartialEq)]
pub enum Premise {
    Named(Ident),
    Expr(Expr),
}

#[derive(Debug, Clone, PartialEq)]
pub struct ProofDecl {
    pub name: Ident,
    pub steps: Vec<ProofStep>,
}

#[derive(Debug, Clone, PartialEq)]
pub enum ProofStep {
    Tactic { name: Ident },
    Lemma { name: Ident, expr: Expr },
    ReduceTo(Ident),
    Certificate(CertConfig),
}

#[derive(Debug, Clone, PartialEq)]
pub struct CertConfig {
    pub format: CertFormat,
    pub include_trace: bool,
    pub include_counterexample: bool,
    pub hash: HashAlgo,
}

#[derive(Debug, Clone, Copy, PartialEq, Eq, Hash)]
pub enum CertFormat {
    Smt2,
    Lfsc,
    Native,
}

#[derive(Debug, Clone, Copy, PartialEq, Eq, Hash)]
pub enum HashAlgo {
    Sha256,
    Blake3,
}

/// Expressions are the same where they are of the same sort and agree in every part:
/// operators, names, durations and places are equal, and parts that are expressions
/// or domains are the same.
pub proof fn law_same_expressions_agree(a: Expr, b: Expr)
    ensures
        a.same(b) ==> match (a, b) {
            (
                Expr::Ident(a0),
                Expr::Ident(b0),
            ) => a0.parts@ == b0.parts@,
            (
                Expr::Quantity(a0),
                Expr::Quantity(b0),
            ) => a0 == b0,
            (
                Expr::Bool(a0),
                Expr::Bool(b0),
            ) => a0 == b0,
            (
                Expr::Unary { op, expr, span },
                Expr::Unary { op: other_op, expr: other_expr, span: other_span },
            ) => op == other_op && expr.same(*other_expr) && span == other_span,
            (
                Expr::Binary { op, left, right, span },
                Expr::Binary {
                    op: other_op,
                    left: other_left,
                    right: other_right,
                    span: other_span,
                },
            ) => {
                &&& op == other_op
                &&& left.same(*other_left)
                &&& right.same(*other_right)
                &&& span == other_span
            },
            (
                Expr::If { cond, then_branch, else_branch, span },
                Expr::If {
                    cond: other_cond,
                    then_branch: other_then_branch,
                    else_branch: other_else_branch,
                    span: other_span,
                },
            ) => {
                &&& cond.same(*other_cond)
                &&& then_branch.same(*other_then_branch)
                &&& else_branch.same(*other_else_branch)
                &&& span == other_span
            },
            (
                Expr::Call { func, args, span },
                Expr::Call { func: other_func, args: other_args, span: other_span },
            ) => {
                &&& func == other_func
                &&& args@.len() == other_args@.len()
                &&& (forall|i: int| 0 <= i < args@.len()
                    ==> (#[trigger] args@[i]).same(other_args@[i]))
                &&& span == other_span
            },
            (
                Expr::ArrayIndex { array, index, span },
                Expr::ArrayIndex { array: other_array, index: other_index, span: other_span },
            ) => array == other_array && index.same(*other_index) && span == other_span,
            (
                Expr::FieldAccess { record, field, span },
                Expr::FieldAccess { record: other_record, field: other_field, span: other_span },
            ) => record == other_record && field == other_field && span == other_span,
            (
                Expr::Forall { var, domain, body, span },
                Expr::Forall {
                    var: other_var,
                    domain: other_domain,
                    body: other_body,
                    span: other_span,
                },
            ) => {
                &&& var == other_var
                &&& domain.same(other_domain)
                &&& body.same(*other_body)
                &&& span == other_span
            },
            (
                Expr::Exists { var, domain, body, span },
                Expr::Exists {
                    var: other_var,
                    domain: other_domain,
                    body: other_body,
                    span: other_span,
                },
            ) => {
                &&& var == other_var
                &&& domain.same(other_domain)
                &&& body.same(*other_body)
                &&& span == other_span
            },
            (
                Expr::Always(a0, a1),
                Expr::Always(b0, b1),
            ) => a0.same(*b0) && a1 == b1,
            (
                Expr::Eventually(a0, a1),
                Expr::Eventually(b0, b1),
            ) => a0.same(*b0) && a1 == b1,
            (
                Expr::Next(a0, a1),
                Expr::Next(b0, b1),
            ) => a0.same(*b0) && a1 == b1,
            (
                Expr::Until { left, right, span },
                Expr::Until { left: other_left, right: other_right, span: other_span },
            ) => left.same(*other_left) && right.same(*other_right) && span == other_span,
            (
                Expr::Since { left, right, span },
                Expr::Since { left: other_left, right: other_right, span: other_span },
            ) => left.same(*other_left) && right.same(*other_right) && span == other_span,
            (
                Expr::For { duration, body, span },
                Expr::For { duration: other_duration, body: other_body, span: other_span },
            ) => duration == other_duration && body.same(*other_body) && span == other_span,
            (
                Expr::After { duration, body, span },
                Expr::After { duration: other_duration, body: other_body, span: other_span },
            ) => duration == other_duration && body.same(*other_body) && span == other_span,
            (
                Expr::Old(a0, a1),
                Expr::Old(b0, b1),
            ) => a0.same(*b0) && a1 == b1,
            (
                Expr::RateOf(a0, a1),
                Expr::RateOf(b0, b1),
            ) => a0.same(*b0) && a1 == b1,
            (
                Expr::Delta(a0, a1),
                Expr::Delta(b0, b1),
            ) => a0.same(*b0) && a1 == b1,
            _ => false,
        },
{
}

/// Every domain is the same as itself.
proof fn lemma_domain_itself(d: DomainBody)
    ensures
        d.same(d),
    decreases d,
{
    if let DomainBody::Product { members } = d {
        assert forall|i: int| 0 <= i < members@.len() implies (#[trigger] members@[i]).same(
            members@[i],
        ) by {
            assert(decreases_to!(d => d->members));
            assert(decreases_to!(members => members@));
            assert(decreases_to!(members@ => members@[i]));
            lemma_domain_itself(members@[i]);
        }
    }
}

/// Every type is the same as itself.
pub proof fn law_types_are_the_same_as_themselves(t: TypeDesc)
    ensures
        t.same(t),
    decreases t,
{
    match t {
        TypeDesc::Array { low, high, of } => law_types_are_the_same_as_themselves(*of),
        TypeDesc::Record { fields } => {
            assert forall|i: int| 0 <= i < fields@.len() implies (#[trigger] fields@[i]).same(
                fields@[i],
            ) by {
                assert(decreases_to!(t => t->fields));
                assert(decreases_to!(fields => fields@));
                assert(decreases_to!(fields@ => fields@[i]));
                assert(decreases_to!(fields@[i] => fields@[i].ty));
                law_types_are_the_same_as_themselves(fields@[i].ty);
                if let Some(DomainRef::Inline(d)) = fields@[i].domain {
                    lemma_domain_itself(d);
                }
            }
        },
        _ => {},
    }
}

/// Every expression is the same as itself.
pub proof fn law_expressions_are_the_same_as_themselves(e: Expr)
    ensures
        e.same(e),
    decreases e,
{
    match e {
        Expr::Unary { op, expr, span } => law_expressions_are_the_same_as_themselves(*expr),
        Expr::Binary { op, left, right, span } => {
            law_expressions_are_the_same_as_themselves(*left);
            law_expressions_are_the_same_as_themselves(*right);
        },
        Expr::If { cond, then_branch, else_branch, span } => {
            law_expressions_are_the_same_as_themselves(*cond);
            law_expressions_are_the_same_as_themselves(*then_branch);
            law_expressions_are_the_same_as_themselves(*else_branch);
        },
        Expr::Call { func, args, span } => {
            assert forall|i: int| 0 <= i < args@.len() implies (#[trigger] args@[i]).same(
                args@[i],
            ) by {
                assert(decreases_to!(e => e->args));
                assert(decreases_to!(args => args@));
                assert(decreases_to!(args@ => args@[i]));
                law_expressions_are_the_same_as_themselves(args@[i]);
            }
        },
        Expr::ArrayIndex { array, index, span } => {
            law_expressions_are_the_same_as_themselves(*index);
        },
        Expr::Forall { var, domain, body, span } => {
            if let DomainRef::Inline(d) = domain {
                lemma_domain_itself(d);
            }
            law_expressions_are_the_same_as_themselves(*body);
        },
        Expr::Exists { var, domain, body, span } => {
            if let DomainRef::Inline(d) = domain {
                lemma_domain_itself(d);
            }
            law_expressions_are_the_same_as_themselves(*body);
        },
        Expr::Always(inner, span) => law_expressions_are_the_same_as_themselves(*inner),
        Expr::Eventually(inner, span) => law_expressions_are_the_same_as_themselves(*inner),
        Expr::Next(inner, span) => law_expressions_are_the_same_as_themselves(*inner),
        Expr::Until { left, right, span } => {
            law_expressions_are_the_same_as_themselves(*left);
            law_expressions_are_the_same_as_themselves(*right);
        },
        Expr::Since { left, right, span } => {
            law_expressions_are_the_same_as_themselves(*left);
            law_expressions_are_the_same_as_themselves(*right);
        },
        Expr::For { duration, body, span } => law_expressions_are_the_same_as_themselves(*body),
        Expr::After { duration, body, span } => law_expressions_are_the_same_as_themselves(*body),
        Expr::Old(inner, span) => law_expressions_are_the_same_as_themselves(*inner),
        Expr::RateOf(inner, span) => law_expressions_are_the_same_as_themselves(*inner),
        Expr::Delta(inner, span) => law_expressions_are_the_same_as_themselves(*inner),
        _ => {},
    }
}

} // verus!
