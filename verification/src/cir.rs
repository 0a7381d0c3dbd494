//! Constraint IR (CIR) — the first high-level intermediate representation.
//!
//! CIR retains relational, quantified, and temporal structure.  It is the
//! output of type-checking and the input to lowering.

use crate::binary64::Real;
use crate::debug;
use crate::error;
use crate::error::GuardError;
use crate::error::GuardErrorView;
use crate::error::Result;
use crate::error::Span;
use crate::table;
use crate::table::Table;
use vstd::prelude::*;

pub use crate::unit::BaseDimension;
pub use crate::unit::Unit;
pub use crate::unit::UnitView;

verus! {

// ---------------------------------------------------------------------------
// Types
// ---------------------------------------------------------------------------

/// CIR types carry both a value kind and a unit.
#[derive(Debug, PartialEq)]
pub struct CirType {
    pub kind: TypeKind,
    pub unit: Unit,
}

impl CirType {
    /// The same type, part by part.
    pub open spec fn same(self, other: CirType) -> bool {
        self.kind.same(other.kind) && self.unit@ == other.unit@
    }
}

impl Clone for CirType {
    fn clone(&self) -> (copy: Self)
        ensures
            self.same(copy),
    {
        CirType { kind: self.kind.clone(), unit: self.unit.clone() }
    }
}

#[derive(Debug, Eq)]
pub enum TypeKind {
    Real,
    Integer,
    Boolean,
    Enum(Vec<String>),
    Array { size: usize, elem: Box<TypeKind> },
    Record { fields: RecordFields },
}

/// The fields of a record in the order in which they were declared.
#[derive(Debug, Eq)]
pub struct RecordFields {
    pub entries: Vec<(String, TypeKind)>,
}

impl RecordFields {
    /// No two fields have the same name.
    pub open spec fn well_formed(self) -> bool {
        forall|i: int, j: int|
            0 <= i < j < self.entries@.len() ==> #[trigger] self.entries@[i].0@
                != #[trigger] self.entries@[j].0@
    }

    /// A record without fields.
    pub fn new() -> (fields: Self)
        ensures
            fields.entries@.len() == 0,
            fields.well_formed(),
    {
        RecordFields { entries: Vec::new() }
    }

    /// Gives the field `name` the kind `kind`: in the field's old place, or last.
    pub fn insert(&mut self, name: String, kind: TypeKind)
        requires
            old(self).well_formed(),
        ensures
            final(self).well_formed(),
            forall|i: int|
                0 <= i < old(self).entries@.len() && #[trigger] old(self).entries@[i].0@ == name@
                    ==> final(self).entries@ == old(self).entries@.update(i, (name, kind)),
            (forall|i: int|
                0 <= i < old(self).entries@.len() ==> #[trigger] old(self).entries@[i].0@
                    != name@) ==> final(self).entries@ == old(self).entries@.push((name, kind)),
    {
        let mut i: usize = 0;
        while i < self.entries.len()
            invariant
                *self == *old(self),
                i <= self.entries@.len(),
                forall|j: int| 0 <= j < i ==> #[trigger] self.entries@[j].0@ != name@,
                self.well_formed(),
            decreases self.entries@.len() - i,
        {
            if self.entries[i].0 == name {
                self.entries.set(i, (name, kind));
                return ;
            }
            i = i + 1;
        }
        self.entries.push((name, kind));
    }
}

/// The same texts in the same order.
pub open spec fn same_texts(a: Seq<String>, b: Seq<String>) -> bool {
    a.len() == b.len() && forall|i: int| 0 <= i < a.len() ==> (#[trigger] a[i])@ == b[i]@
}

impl TypeKind {
    /// The same kind, part by part.
    pub open spec fn same(self, other: TypeKind) -> bool
        decreases self,
    {
        match (self, other) {
            (TypeKind::Real, TypeKind::Real) => true,
            (TypeKind::Integer, TypeKind::Integer) => true,
            (TypeKind::Boolean, TypeKind::Boolean) => true,
            (TypeKind::Enum(a), TypeKind::Enum(b)) => same_texts(a@, b@),
            (
                TypeKind::Array { size, elem },
                TypeKind::Array { size: other_size, elem: other_elem },
            ) => size == other_size && elem.same(*other_elem),
            (TypeKind::Record { fields }, TypeKind::Record { fields: other_fields }) => fields.same(
                other_fields,
            ),
            _ => false,
        }
    }
}

impl RecordFields {
    /// The same fields in the same order.
    pub open spec fn same(self, other: RecordFields) -> bool
        decreases self,
    {
        let (a, b) = (self.entries@, other.entries@);
        &&& a.len() == b.len()
        &&& forall|i: int|
            0 <= i < a.len() ==> (#[trigger] a[i]).0@ == b[i].0@ && a[i].1.same(b[i].1)
    }
}

impl TypeKind {
    /// Equal kinds. Records are equal where they have equal fields in whatever
    /// order.
    pub open spec fn equals(self, other: TypeKind) -> bool
        decreases self,
    {
        match (self, other) {
            (TypeKind::Real, TypeKind::Real) => true,
            (TypeKind::Integer, TypeKind::Integer) => true,
            (TypeKind::Boolean, TypeKind::Boolean) => true,
            (TypeKind::Enum(a), TypeKind::Enum(b)) => same_texts(a@, b@),
            (
                TypeKind::Array { size, elem },
                TypeKind::Array { size: other_size, elem: other_elem },
            ) => size == other_size && elem.equals(*other_elem),
            (TypeKind::Record { fields }, TypeKind::Record { fields: other_fields }) => {
                fields.equals(other_fields)
            },
            _ => false,
        }
    }
}

/// The place of the field with a name, or -1.
pub open spec fn place_of_field(entries: Seq<(String, TypeKind)>, name: Seq<char>) -> int
    decreases entries.len(),
{
    if entries.len() == 0 {
        -1
    } else if entries.last().0@ == name {
        entries.len() - 1
    } else {
        place_of_field(entries.drop_last(), name)
    }
}

impl RecordFields {
    /// As many fields, and for each an equal one of the same name.
    pub open spec fn equals(self, other: RecordFields) -> bool
        decreases self,
    {
        let (a, b) = (self.entries@, other.entries@);
        &&& a.len() == b.len()
        &&& forall|i: int|
            0 <= i < a.len() ==> {
                let j = place_of_field(b, (#[trigger] a[i]).0@);
                j >= 0 && a[i].1.equals(b[j].1)
            }
    }
}

/// The place of the field with a name.
fn field_place(entries: &Vec<(String, TypeKind)>, name: &String) -> (place: Option<usize>)
    ensures
        place is Some <==> place_of_field(entries@, name@) >= 0,
        place matches Some(j) ==> j < entries@.len() && j == place_of_field(entries@, name@),
{
    let mut j: usize = entries.len();
    assert(entries@.take(j as int) =~= entries@);
    while j > 0
        invariant
            j <= entries@.len(),
            place_of_field(entries@, name@) == place_of_field(entries@.take(j as int), name@),
        decreases j,
    {
        assert(entries@.take(j as int).drop_last() =~= entries@.take(j - 1));
        if entries[j - 1].0 == *name {
            return Some(j - 1);
        }
        j -= 1;
    }
    None
}

/// Whether two lists hold the same texts in the same order.
fn equal_texts(a: &Vec<String>, b: &Vec<String>) -> (r: bool)
    ensures
        r == same_texts(a@, b@),
{
    let count: usize = a.len();
    if count != b.len() {
        return false;
    }
    let mut i: usize = 0;
    while i < count
        invariant
            i <= count == a@.len() == b@.len(),
            forall|j: int| 0 <= j < i ==> (#[trigger] a@[j])@ == b@[j]@,
        decreases count - i,
    {
        if a[i] != b[i] {
            return false;
        }
        i += 1;
    }
    true
}

impl vstd::std_specs::cmp::PartialEqSpecImpl for TypeKind {
    open spec fn obeys_eq_spec() -> bool {
        true
    }

    open spec fn eq_spec(&self, other: &TypeKind) -> bool {
        self.equals(*other)
    }
}

impl PartialEq for TypeKind {
    fn eq(&self, other: &TypeKind) -> (r: bool)
        decreases self,
    {
        match (self, other) {
            (TypeKind::Real, TypeKind::Real) => true,
            (TypeKind::Integer, TypeKind::Integer) => true,
            (TypeKind::Boolean, TypeKind::Boolean) => true,
            (TypeKind::Enum(a), TypeKind::Enum(b)) => equal_texts(a, b),
            (
                TypeKind::Array { size, elem },
                TypeKind::Array { size: other_size, elem: other_elem },
            ) => *size == *other_size && (**elem).eq(&**other_elem),
            (TypeKind::Record { fields }, TypeKind::Record { fields: other_fields }) => {
                fields.eq(other_fields)
            },
            _ => false,
        }
    }
}

impl vstd::std_specs::cmp::PartialEqSpecImpl for RecordFields {
    open spec fn obeys_eq_spec() -> bool {
        true
    }

    open spec fn eq_spec(&self, other: &RecordFields) -> bool {
        self.equals(*other)
    }
}

impl PartialEq for RecordFields {
    fn eq(&self, other: &RecordFields) -> (r: bool)
        decreases self,
    {
        let (a, b) = (&self.entries, &other.entries);
        let count: usize = a.len();
        if count != b.len() {
            return false;
        }
        let mut i: usize = 0;
        while i < count
            invariant
                a == &self.entries,
                b == &other.entries,
                i <= count == a@.len() == b@.len(),
                forall|k: int|
                    0 <= k < i ==> {
                        let j = place_of_field(b@, (#[trigger] a@[k]).0@);
                        j >= 0 && a@[k].1.equals(b@[j].1)
                    },
            decreases count - i,
        {
            assert(decreases_to!(self.entries@ => self.entries@[i as int]));
            let same = match field_place(b, &a[i].0) {
                Some(j) => a[i].1.eq(&b[j].1),
                None => false,
            };
            if !same {
                return false;
            }
            i += 1;
        }
        true
    }
}

/// The same texts.
pub(crate) fn copy_texts(list: &Vec<String>) -> (copy: Vec<String>)
    ensures
        same_texts(list@, copy@),
{
    let mut copy: Vec<String> = Vec::new();
    let count: usize = list.len();
    let mut i: usize = 0;
    while i < count
        invariant
            i <= count == list@.len(),
            copy@ == list@.take(i as int),
        decreases count - i,
    {
        copy.push(list[i].clone());
        assert(copy@ =~= list@.take(i + 1));
        i += 1;
    }
    copy
}

impl Clone for TypeKind {
    fn clone(&self) -> (copy: Self)
        ensures
            self.same(copy),
        decreases self,
    {
        match self {
            TypeKind::Real => TypeKind::Real,
            TypeKind::Integer => TypeKind::Integer,
            TypeKind::Boolean => TypeKind::Boolean,
            TypeKind::Enum(names) => TypeKind::Enum(copy_texts(names)),
            TypeKind::Array { size, elem } => TypeKind::Array {
                size: *size,
                elem: Box::new((**elem).clone()),
            },
            TypeKind::Record { fields } => TypeKind::Record { fields: fields.clone() },
        }
    }
}

impl Clone for RecordFields {
    fn clone(&self) -> (copy: Self)
        ensures
            self.same(copy),
        decreases self,
    {
        let mut entries: Vec<(String, TypeKind)> = Vec::new();
        for i in 0..self.entries.len()
            invariant
                entries@.len() == i,
                forall|j: int|
                    0 <= j < i ==> (#[trigger] self.entries@[j]).0@ == entries@[j].0@
                        && self.entries@[j].1.same(entries@[j].1),
        {
            assert(decreases_to!(self.entries@ => self.entries@[i as int]));
            entries.push((self.entries[i].0.clone(), self.entries[i].1.clone()));
        }
        RecordFields { entries }
    }
}

// ---------------------------------------------------------------------------
// Variables & Constants
// ---------------------------------------------------------------------------

/// A unique identifier for a CIR variable.
#[derive(Debug, Clone, Copy, PartialEq, Eq, Hash)]
pub struct VarId(pub u32);

/// A unique identifier for a temporal history buffer.
#[derive(Debug, Clone, Copy, PartialEq, Eq, Hash)]
pub struct BufferId(pub u32);

/// A real constant: its value, and the two texts in which it is written out.
#[derive(Debug)]
pub struct RealLiteral {
    pub value: Real,
    /// The number with six digits after the point.
    pub fixed: String,
    /// The shortest text from which the number can be read back.
    pub shortest: String,
}

impl vstd::std_specs::cmp::PartialEqSpecImpl for RealLiteral {
    open spec fn obeys_eq_spec() -> bool {
        true
    }

    open spec fn eq_spec(&self, other: &RealLiteral) -> bool {
        self.value.equals(other.value)
    }
}

impl PartialEq for RealLiteral {
    fn eq(&self, other: &RealLiteral) -> (r: bool) {
        self.value.eq(&other.value)
    }
}

impl Clone for RealLiteral {
    fn clone(&self) -> (copy: Self)
        ensures
            copy == *self,
    {
        RealLiteral {
            value: self.value,
            fixed: self.fixed.clone(),
            shortest: self.shortest.clone(),
        }
    }
}

#[derive(Debug, PartialEq)]
pub enum ConstValue {
    Real(RealLiteral),
    Integer(i64),
    Bool(bool),
}

impl Clone for ConstValue {
    fn clone(&self) -> (copy: Self)
        ensures
            copy == *self,
    {
        match self {
            ConstValue::Real(v) => ConstValue::Real(v.clone()),
            ConstValue::Integer(v) => ConstValue::Integer(*v),
            ConstValue::Bool(b) => ConstValue::Bool(*b),
        }
    }
}

// ---------------------------------------------------------------------------
// CIR Expressions
// ---------------------------------------------------------------------------

/// CIR expression — fully typed, with explicit temporal and quantified nodes.
#[derive(Debug, PartialEq)]
pub enum Expr {
    Const(ConstValue),
    Var(VarId),
    Unary { op: UnOp, operand: Box<Expr>, ty: CirType },
    Binary { op: BinOp, left: Box<Expr>, right: Box<Expr>, ty: CirType },
    If { cond: Box<Expr>, then_branch: Box<Expr>, else_branch: Box<Expr>, ty: CirType },
    // Array / record access
    Index { array: VarId, index: Box<Expr>, ty: CirType },
    Field { record: VarId, field: String, ty: CirType },
    // Quantified (retained in CIR; eliminated in lowering)
    Forall { var: VarId, domain: Domain, body: Box<Expr>, ty: CirType },
    Exists { var: VarId, domain: Domain, body: Box<Expr>, ty: CirType },
    // Temporal (retained in CIR; expanded to buffer ops in lowering)
    Always(Box<Expr>, CirType),
    Eventually(Box<Expr>, CirType),
    Next(Box<Expr>, CirType),
    Until { left: Box<Expr>, right: Box<Expr>, ty: CirType },
    Since { left: Box<Expr>, right: Box<Expr>, ty: CirType },
    For { duration: usize, body: Box<Expr>, ty: CirType },  // duration in samples
    After { duration: usize, body: Box<Expr>, ty: CirType },
    Old(VarId, CirType),
    RateOf(VarId, CirType),  // derivative: (x - old x) / dt
    Delta(VarId, CirType),  // x - old x
}

impl Expr {
    /// The same expression, part by part.
    pub open spec fn same(self, other: Expr) -> bool
        decreases self,
    {
        match (self, other) {
            (
                Expr::Const(a0),
                Expr::Const(b0),
            ) => a0 == b0,
            (
                Expr::Var(a0),
                Expr::Var(b0),
            ) => a0 == b0,
            (
                Expr::Unary { op, operand, ty },
                Expr::Unary { op: other_op, operand: other_operand, ty: other_ty },
            ) => op == other_op && operand.same(*other_operand) && ty.same(other_ty),
            (
                Expr::Binary { op, left, right, ty },
                Expr::Binary { op: other_op, left: other_left, right: other_right, ty: other_ty },
            ) => {
                &&& op == other_op
                &&& left.same(*other_left)
                &&& right.same(*other_right)
                &&& ty.same(other_ty)
            },
            (
                Expr::If { cond, then_branch, else_branch, ty },
                Expr::If {
                    cond: other_cond,
                    then_branch: other_then_branch,
                    else_branch: other_else_branch,
                    ty: other_ty,
                },
            ) => {
                &&& cond.same(*other_cond)
                &&& then_branch.same(*other_then_branch)
                &&& else_branch.same(*other_else_branch)
                &&& ty.same(other_ty)
            },
            (
                Expr::Index { array, index, ty },
                Expr::Index { array: other_array, index: other_index, ty: other_ty },
            ) => array == other_array && index.same(*other_index) && ty.same(other_ty),
            (
                Expr::Field { record, field, ty },
                Expr::Field { record: other_record, field: other_field, ty: other_ty },
            ) => record == other_record && field@ == other_field@ && ty.same(other_ty),
            (
                Expr::Forall { var, domain, body, ty },
                Expr::Forall {
                    var: other_var,
                    domain: other_domain,
                    body: other_body,
                    ty: other_ty,
                },
            ) => {
                &&& var == other_var
                &&& domain.same(other_domain)
                &&& body.same(*other_body)
                &&& ty.same(other_ty)
            },
            (
                Expr::Exists { var, domain, body, ty },
                Expr::Exists {
                    var: other_var,
                    domain: other_domain,
                    body: other_body,
                    ty: other_ty,
                },
            ) => {
                &&& var == other_var
                &&& domain.same(other_domain)
                &&& body.same(*other_body)
                &&& ty.same(other_ty)
            },
            (
                Expr::Always(a0, a1),
                Expr::Always(b0, b1),
            ) => a0.same(*b0) && a1.same(b1),
            (
                Expr::Eventually(a0, a1),
                Expr::Eventually(b0, b1),
            ) => a0.same(*b0) && a1.same(b1),
            (
                Expr::Next(a0, a1),
                Expr::Next(b0, b1),
            ) => a0.same(*b0) && a1.same(b1),
            (
                Expr::Until { left, right, ty },
                Expr::Until { left: other_left, right: other_right, ty: other_ty },
            ) => left.same(*other_left) && right.same(*other_right) && ty.same(other_ty),
            (
                Expr::Since { left, right, ty },
                Expr::Since { left: other_left, right: other_right, ty: other_ty },
            ) => left.same(*other_left) && right.same(*other_right) && ty.same(other_ty),
            (
                Expr::For { duration, body, ty },
                Expr::For { duration: other_duration, body: other_body, ty: other_ty },
            ) => duration == other_duration && body.same(*other_body) && ty.same(other_ty),
            (
                Expr::After { duration, body, ty },
                Expr::After { duration: other_duration, body: other_body, ty: other_ty },
            ) => duration == other_duration && body.same(*other_body) && ty.same(other_ty),
            (
                Expr::Old(a0, a1),
                Expr::Old(b0, b1),
            ) => a0 == b0 && a1.same(b1),
            (
                Expr::RateOf(a0, a1),
                Expr::RateOf(b0, b1),
            ) => a0 == b0 && a1.same(b1),
            (
                Expr::Delta(a0, a1),
                Expr::Delta(b0, b1),
            ) => a0 == b0 && a1.same(b1),
            _ => false,
        }
    }
}

impl Clone for Expr {
    fn clone(&self) -> (copy: Self)
        ensures
            self.same(copy),
        decreases self,
    {
        match self {
            Expr::Const(value) => Expr::Const(value.clone()),
            Expr::Var(var) => Expr::Var(*var),
            Expr::Unary { op, operand, ty } => Expr::Unary {
                op: *op,
                operand: Box::new((**operand).clone()),
                ty: ty.clone(),
            },
            Expr::Binary { op, left, right, ty } => Expr::Binary {
                op: *op,
                left: Box::new((**left).clone()),
                right: Box::new((**right).clone()),
                ty: ty.clone(),
            },
            Expr::If { cond, then_branch, else_branch, ty } => Expr::If {
                cond: Box::new((**cond).clone()),
                then_branch: Box::new((**then_branch).clone()),
                else_branch: Box::new((**else_branch).clone()),
                ty: ty.clone(),
            },
            Expr::Index { array, index, ty } => Expr::Index {
                array: *array,
                index: Box::new((**index).clone()),
                ty: ty.clone(),
            },
            Expr::Field { record, field, ty } => Expr::Field {
                record: *record,
                field: field.clone(),
                ty: ty.clone(),
            },
            Expr::Forall { var, domain, body, ty } => Expr::Forall {
                var: *var,
                domain: domain.clone(),
                body: Box::new((**body).clone()),
                ty: ty.clone(),
            },
            Expr::Exists { var, domain, body, ty } => Expr::Exists {
                var: *var,
                domain: domain.clone(),
                body: Box::new((**body).clone()),
                ty: ty.clone(),
            },
            Expr::Always(inner, ty) => Expr::Always(Box::new((**inner).clone()), ty.clone()),
            Expr::Eventually(inner, ty) => Expr::Eventually(Box::new((**inner).clone()), ty.clone()),
            Expr::Next(inner, ty) => Expr::Next(Box::new((**inner).clone()), ty.clone()),
            Expr::Until { left, right, ty } => Expr::Until {
                left: Box::new((**left).clone()),
                right: Box::new((**right).clone()),
                ty: ty.clone(),
            },
            Expr::Since { left, right, ty } => Expr::Since {
                left: Box::new((**left).clone()),
                right: Box::new((**right).clone()),
                ty: ty.clone(),
            },
            Expr::For { duration, body, ty } => Expr::For {
                duration: *duration,
                body: Box::new((**body).clone()),
                ty: ty.clone(),
            },
            Expr::After { duration, body, ty } => Expr::After {
                duration: *duration,
                body: Box::new((**body).clone()),
                ty: ty.clone(),
            },
            Expr::Old(var, ty) => Expr::Old(*var, ty.clone()),
            Expr::RateOf(var, ty) => Expr::RateOf(*var, ty.clone()),
            Expr::Delta(var, ty) => Expr::Delta(*var, ty.clone()),
        }
    }
}

#[derive(Debug, Clone, Copy, PartialEq, Eq, Hash)]
pub enum UnOp {
    Neg,
    Abs,
    Not,
}

#[derive(Debug, Clone, Copy, PartialEq, Eq, Hash)]
pub enum BinOp {
    Add,
    Sub,
    Mul,
    Div,
    Mod,
    Eq,
    Neq,
    Lt,
    Gt,
    Lte,
    Gte,
    And,
    Or,
    Implies,
}

/// A finite domain for quantifier expansion.
#[derive(Debug, PartialEq)]
pub enum Domain {
    Enum(Vec<String>),
    Interval { low: i64, high: i64 },
    Array { size: usize },
}

impl Clone for Domain {
    fn clone(&self) -> (copy: Self)
        ensures
            self.same(copy),
    {
        match self {
            Domain::Enum(variants) => Domain::Enum(copy_texts(variants)),
            Domain::Interval { low, high } => Domain::Interval { low: *low, high: *high },
            Domain::Array { size } => Domain::Array { size: *size },
        }
    }
}

impl Domain {
    /// The same domain, part by part.
    pub open spec fn same(self, other: Domain) -> bool {
        match (self, other) {
            (Domain::Enum(a), Domain::Enum(b)) => same_texts(a@, b@),
            (Domain::Enum(_), _) => false,
            (_, Domain::Enum(_)) => false,
            _ => self == other,
        }
    }

    /// The number of members.
    pub open spec fn size(self) -> nat {
        match self {
            Domain::Enum(variants) => variants@.len(),
            Domain::Interval { low, high } => if low <= high {
                (high - low + 1) as nat
            } else {
                0
            },
            Domain::Array { size } => size as nat,
        }
    }

    /// The member with the number `i`, counted from zero on: an integer of the
    /// interval, the place of a variant, or an index of the array.
    pub open spec fn member(self, i: nat) -> i64 {
        match self {
            Domain::Enum(variants) => i as i64,
            Domain::Interval { low, high } => (low + i) as i64,
            Domain::Array { size } => i as i64,
        }
    }
}

/// A dimensionless type.
pub open spec fn plain(kind: TypeKind) -> CirType {
    CirType { kind, unit: Unit::Dimensionless }
}

impl Expr {
    /// The type that an expression carries. A variable carries none.
    pub open spec fn type_of(self) -> CirType
        recommends
            self !is Var,
    {
        match self {
            Expr::Const(ConstValue::Real(_)) => plain(TypeKind::Real),
            Expr::Const(ConstValue::Integer(_)) => plain(TypeKind::Integer),
            Expr::Const(ConstValue::Bool(_)) => plain(TypeKind::Boolean),
            Expr::Var(_) => arbitrary(),
            Expr::Unary { op, operand, ty } => ty,
            Expr::Binary { op, left, right, ty } => ty,
            Expr::If { cond, then_branch, else_branch, ty } => ty,
            Expr::Index { array, index, ty } => ty,
            Expr::Field { record, field, ty } => ty,
            Expr::Forall { var, domain, body, ty } => ty,
            Expr::Exists { var, domain, body, ty } => ty,
            Expr::Always(_, ty) => ty,
            Expr::Eventually(_, ty) => ty,
            Expr::Next(_, ty) => ty,
            Expr::Until { left, right, ty } => ty,
            Expr::Since { left, right, ty } => ty,
            Expr::For { duration, body, ty } => ty,
            Expr::After { duration, body, ty } => ty,
            Expr::Old(_, ty) => ty,
            Expr::RateOf(_, ty) => ty,
            Expr::Delta(_, ty) => ty,
        }
    }

    /// Return the type of this expression. The type of a variable is in the
    /// symbol table.
    pub fn ty(&self) -> (ty: &CirType)
        requires
            self !is Var,
        ensures
            *ty == self.type_of(),
    {
        match self {
            Expr::Const(c) => match c {
                ConstValue::Real(_) => &CirType { kind: TypeKind::Real, unit: Unit::Dimensionless },
                ConstValue::Integer(_) => &CirType {
                    kind: TypeKind::Integer,
                    unit: Unit::Dimensionless,
                },
                ConstValue::Bool(_) => &CirType {
                    kind: TypeKind::Boolean,
                    unit: Unit::Dimensionless,
                },
            },
            Expr::Var(_) => vstd::pervasive::unreached(),
            Expr::Unary { ty, .. } => ty,
            Expr::Binary { ty, .. } => ty,
            Expr::If { ty, .. } => ty,
            Expr::Index { ty, .. } => ty,
            Expr::Field { ty, .. } => ty,
            Expr::Forall { ty, .. } => ty,
            Expr::Exists { ty, .. } => ty,
            Expr::Always(_, ty) => ty,
            Expr::Eventually(_, ty) => ty,
            Expr::Next(_, ty) => ty,
            Expr::Until { ty, .. } => ty,
            Expr::Since { ty, .. } => ty,
            Expr::For { ty, .. } => ty,
            Expr::After { ty, .. } => ty,
            Expr::Old(_, ty) => ty,
            Expr::RateOf(_, ty) => ty,
            Expr::Delta(_, ty) => ty,
        }
    }

    /// Check that this expression is boolean (for use in invariants).
    pub fn expect_bool(&self) -> (checked: Result<()>)
        requires
            self !is Var,
        ensures
            checked is Ok <==> self.type_of().kind is Boolean,
            checked matches Err(e) ==> e@ == (GuardErrorView::Type {
                span: error::point_span("<cir>"@, 0, 0),
                message: "expected boolean expression, got "@ + debug::kind_text(
                    self.type_of().kind,
                ),
            }),
    {
        let ty = self.ty();
        match &ty.kind {
            TypeKind::Boolean => Ok(()),
            kind => {
                let mut message = "expected boolean expression, got ".to_owned();
                debug::push_kind(&mut message, kind);
                Err(GuardError::Type { span: Span::new("<cir>", 0, 0), message })
            },
        }
    }
}

// ---------------------------------------------------------------------------
// CIR Module
// ---------------------------------------------------------------------------

/// A complete CIR module, ready for lowering.
#[derive(Debug, Clone, PartialEq)]
pub struct CirModule {
    pub name: String,
    pub version: String,
    pub sample_period_ms: Real,
    pub symbol_table: SymbolTable,
    pub invariants: Vec<CirInvariant>,
    pub derived: Vec<CirDerived>,
    pub proof_config: Vec<ProofConfig>,
}

/// Symbol table mapping variable IDs to their metadata.
#[derive(Debug, Clone, PartialEq)]
pub struct SymbolTable {
    pub vars: Table<VarInfo>,
    pub buffers: Table<BufferInfo>,
    /// The identifier that the next new variable gets.
    pub next_var: u32,
    /// The identifier that the next new buffer gets.
    pub next_buffer: u32,
}

#[derive(Debug, Clone, PartialEq)]
pub struct VarInfo {
    pub name: String,
    pub ty: CirType,
    pub kind: VarKind,
    pub source_span: Span,
}

#[derive(Debug, Clone, PartialEq, Eq, Hash)]
pub enum VarKind {
    State,  // Updated by host every cycle
    Constant,  // Pre-loaded at boot
    Temporal,  // History buffer reference
    Local,  // Introduced by lowering
}

#[derive(Debug, Clone, PartialEq)]
pub struct BufferInfo {
    pub name: String,
    pub var: VarId,
    pub depth: usize,  // number of historical samples retained
    pub slot_base: u8,  // FLUX memory slot for buffer head
}

impl Default for SymbolTable {
    fn default() -> (symbols: Self)
        ensures
            symbols.vars@ == Seq::<(u32, VarInfo)>::empty(),
            symbols.buffers@ == Seq::<(u32, BufferInfo)>::empty(),
            symbols.next_var == 0,
            symbols.next_buffer == 0,
    {
        SymbolTable { vars: Table::new(), buffers: Table::new(), next_var: 0, next_buffer: 0 }
    }
}

impl SymbolTable {
    /// Every identifier in use was given out by this table.
    pub open spec fn well_formed(self) -> bool {
        &&& forall|i: int|
            0 <= i < self.vars@.len() ==> (#[trigger] self.vars@[i]).0 < self.next_var
        &&& forall|i: int|
            0 <= i < self.buffers@.len() ==> (#[trigger] self.buffers@[i]).0
                < self.next_buffer
    }

    /// A table without variables and buffers.
    pub fn new() -> (symbols: Self)
        ensures
            symbols.vars@ == Seq::<(u32, VarInfo)>::empty(),
            symbols.buffers@ == Seq::<(u32, BufferInfo)>::empty(),
            symbols.next_var == 0,
            symbols.next_buffer == 0,
            symbols.well_formed(),
    {
        SymbolTable { vars: Table::new(), buffers: Table::new(), next_var: 0, next_buffer: 0 }
    }

    /// Adds a variable under the next identifier.
    pub fn fresh_var(&mut self, name: String, ty: CirType, kind: VarKind, span: Span) -> (id: VarId)
        requires
            old(self).next_var < u32::MAX,
        ensures
            id.0 == old(self).next_var,
            final(self).vars@ == table::put(
                old(self).vars@,
                id.0,
                (VarInfo { name, ty, kind, source_span: span }),
            ),
            final(self).next_var == old(self).next_var + 1,
            final(self).buffers == old(self).buffers,
            final(self).next_buffer == old(self).next_buffer,
            old(self).well_formed() ==> final(self).well_formed(),
    {
        let id = VarId(self.next_var);
        proof {
            table::lemma_place_of(self.vars@, id.0);
        }
        self.next_var = self.next_var + 1;
        self.vars.insert(id.0, VarInfo { name, ty, kind, source_span: span });
        id
    }

    /// Adds a history buffer under the next identifier.
    pub fn fresh_buffer(&mut self, name: String, var: VarId, depth: usize, slot_base: u8) -> (id:
        BufferId)
        requires
            old(self).next_buffer < u32::MAX,
        ensures
            id.0 == old(self).next_buffer,
            final(self).buffers@ == table::put(
                old(self).buffers@,
                id.0,
                (BufferInfo { name, var, depth, slot_base }),
            ),
            final(self).next_buffer == old(self).next_buffer + 1,
            final(self).vars == old(self).vars,
            final(self).next_var == old(self).next_var,
            old(self).well_formed() ==> final(self).well_formed(),
    {
        let id = BufferId(self.next_buffer);
        proof {
            table::lemma_place_of(self.buffers@, id.0);
        }
        self.next_buffer = self.next_buffer + 1;
        self.buffers.insert(id.0, BufferInfo { name, var, depth, slot_base });
        id
    }

    /// The metadata of a variable, where the table has it.
    pub fn var_info(&self, id: VarId) -> (info: Option<&VarInfo>)
        ensures
            info == (match table::lookup(self.vars@, id.0) {
                Some(v) => Some(&v),
                None => None,
            }),
    {
        self.vars.get(id.0)
    }
}

#[derive(Debug, Clone, PartialEq)]
pub struct CirInvariant {
    pub name: String,
    pub priority: Priority,
    pub when: Option<Expr>,  // guard condition
    pub ensure: Expr,  // boolean constraint
    pub on_violation: ViolationAction,
    pub source_span: Span,
}

#[derive(Debug, PartialEq, Eq, Hash)]
pub enum Priority {
    Critical,
    Major,
    Minor,
}

impl Clone for Priority {
    fn clone(&self) -> (copy: Self)
        ensures
            copy == *self,
    {
        match self {
            Priority::Critical => Priority::Critical,
            Priority::Major => Priority::Major,
            Priority::Minor => Priority::Minor,
        }
    }
}

#[derive(Debug, PartialEq)]
pub enum ViolationAction {
    Halt,
    Warn,
    Log,
    Transition(String),
}

impl Clone for ViolationAction {
    fn clone(&self) -> (copy: Self)
        ensures
            copy == *self,
    {
        match self {
            ViolationAction::Halt => ViolationAction::Halt,
            ViolationAction::Warn => ViolationAction::Warn,
            ViolationAction::Log => ViolationAction::Log,
            ViolationAction::Transition(state) => ViolationAction::Transition(state.clone()),
        }
    }
}

#[derive(Debug, Clone, PartialEq)]
pub struct CirDerived {
    pub name: String,
    pub premises: Vec<Expr>,
    pub when: Option<Expr>,
    pub conclude: Expr,
    pub source_span: Span,
}

#[derive(Debug, Clone, PartialEq)]
pub struct ProofConfig {
    pub name: String,
    pub tactics: Vec<String>,
    pub cert_format: CertFormat,
    pub include_trace: bool,
    pub include_counterexample: bool,
    pub hash_algo: HashAlgo,
}

#[derive(Debug, Clone, Copy, PartialEq, Eq, Hash)]
pub enum CertFormat {
    Smt2,
    Lfsc,
    Native,
}

#[derive(Debug, Clone, Copy, PartialEq, Eq, Hash)]
pub enum HashAlgo {
    Sha256,
    Blake3,
}

/// A new variable is found under its identifier with the metadata that it was
/// given, and the metadata of every variable before it stay as they are.
pub proof fn law_new_variable_is_found(
    before: Seq<(u32, VarInfo)>,
    id: u32,
    info: VarInfo,
    other: u32,
)
    requires
        table::keys_distinct(before),
        forall|i: int| 0 <= i < before.len() ==> (#[trigger] before[i]).0 < id,
        other < id,
    ensures
        table::lookup(table::put(before, id, info), id) == Some(info),
        table::lookup(table::put(before, id, info), other) == table::lookup(before, other),
        table::put(before, id, info) == before.push((id, info)),
{
    table::law_lookup_after_put(before, id, info, other);
    table::lemma_place_of(before, id);
}

/// An integer is a member of an interval exactly where it lies between the bounds,
/// both of which are members; an index of an array where it is below its size, and
/// the place of a variant where there is such a variant.
pub proof fn law_members_of_domains(low: i64, high: i64, names: Vec<String>, size: usize, x: i64)
    requires
        names@.len() <= i64::MAX,
        size <= i64::MAX,
    ensures
        ({
            let d = Domain::Interval { low, high };
            (exists|i: nat| i < d.size() && #[trigger] d.member(i) == x) <==> low <= x <= high
        }),
        ({
            let d = Domain::Array { size };
            (exists|i: nat| i < d.size() && #[trigger] d.member(i) == x) <==> 0 <= x < size
        }),
        ({
            let d = Domain::Enum(names);
            (exists|i: nat| i < d.size() && #[trigger] d.member(i) == x) <==> 0 <= x
                < names@.len()
        }),
{
    let (a, b, c) = (Domain::Interval { low, high }, Domain::Array { size }, Domain::Enum(names));
    if low <= x <= high {
        let i = (x - low) as nat;
        assert(i < a.size() && a.member(i) == x);
    }
    if 0 <= x {
        let i = x as nat;
        assert(b.member(i) == x && c.member(i) == x);
    }
}

/// The members of a domain are counted in ascending order, and none twice.
pub proof fn law_members_ascend(d: Domain, i: nat, j: nat)
    requires
        i < j < d.size(),
        d is Interval || d.size() <= i64::MAX,
    ensures
        d.member(i) < d.member(j),
{
}

/// An expression carries the type that it was given, and a constant is a plain number
/// or truth value.
pub proof fn law_expressions_carry_their_types(
    a: Expr,
    b: Expr,
    c: Expr,
    op: UnOp,
    on_two: BinOp,
    v: VarId,
    domain: Domain,
    field: String,
    n: usize,
    ty: CirType,
    constant: ConstValue,
)
    ensures
        ({
            let (x, y, z) = (Box::new(a), Box::new(b), Box::new(c));
            &&& Expr::Unary { op, operand: x, ty }.type_of() == ty
            &&& Expr::Binary { op: on_two, left: x, right: y, ty }.type_of() == ty
            &&& Expr::If { cond: x, then_branch: y, else_branch: z, ty }.type_of() == ty
            &&& Expr::Index { array: v, index: x, ty }.type_of() == ty
            &&& Expr::Field { record: v, field, ty }.type_of() == ty
            &&& Expr::Forall { var: v, domain, body: x, ty }.type_of() == ty
            &&& Expr::Exists { var: v, domain, body: x, ty }.type_of() == ty
            &&& Expr::Always(x, ty).type_of() == ty
            &&& Expr::Eventually(x, ty).type_of() == ty
            &&& Expr::Next(x, ty).type_of() == ty
            &&& Expr::Until { left: x, right: y, ty }.type_of() == ty
            &&& Expr::Since { left: x, right: y, ty }.type_of() == ty
            &&& Expr::For { duration: n, body: x, ty }.type_of() == ty
            &&& Expr::After { duration: n, body: x, ty }.type_of() == ty
            &&& Expr::Old(v, ty).type_of() == ty
            &&& Expr::RateOf(v, ty).type_of() == ty
            &&& Expr::Delta(v, ty).type_of() == ty
        }),
        ({
            let carried = Expr::Const(constant).type_of();
            &&& carried.unit is Dimensionless
            &&& constant is Real <==> carried.kind is Real
            &&& constant is Integer <==> carried.kind is Integer
            &&& constant is Bool <==> carried.kind is Boolean
        }),
{
}

/// Kinds are equal where they are the same: enumerations with the same names in the
/// same order, arrays of the same size with equal elements. Different sorts of kinds
/// are never equal.
pub proof fn law_equal_kinds(a: TypeKind, b: TypeKind)
    ensures
        a is Real ==> (a.equals(b) <==> b is Real),
        a is Integer ==> (a.equals(b) <==> b is Integer),
        a is Boolean ==> (a.equals(b) <==> b is Boolean),
        a matches TypeKind::Enum(x) ==> (a.equals(b) <==> (b matches TypeKind::Enum(y)
            && x@.len() == y@.len() && forall|i: int|
            0 <= i < x@.len() ==> (#[trigger] x@[i])@ == y@[i]@)),
        a matches TypeKind::Array { size, elem } ==> (a.equals(b) <==> (
        b matches TypeKind::Array { size: n, elem: e } && n == size && elem.equals(*e))),
        a matches TypeKind::Record { fields: x } ==> (a.equals(b) <==> (
        b matches TypeKind::Record { fields: y } && x.equals(y))),
{
}

/// A field is found by its name.
proof fn lemma_field_found(entries: Seq<(String, TypeKind)>, name: Seq<char>)
    ensures
        -1 <= place_of_field(entries, name) < entries.len(),
        place_of_field(entries, name) >= 0 ==> entries[place_of_field(entries, name)].0@ == name,
        place_of_field(entries, name) < 0 ==> forall|i: int|
            0 <= i < entries.len() ==> (#[trigger] entries[i]).0@ != name,
    decreases entries.len(),
{
    if entries.len() > 0 && entries.last().0@ != name {
        let front = entries.drop_last();
        lemma_field_found(front, name);
        assert forall|i: int|
            0 <= i < entries.len() && place_of_field(entries, name) < 0 implies (
        #[trigger] entries[i]).0@ != name by {
            if i < front.len() {
                assert(front[i] == entries[i]);
            }
        }
    }
}

/// There is a field of the same name with an equal kind.
pub open spec fn has_equal_field(entries: Seq<(String, TypeKind)>, field: (String, TypeKind)) -> bool {
    exists|j: int|
        0 <= j < entries.len() && (#[trigger] entries[j]).0@ == field.0@ && field.1.equals(
            entries[j].1,
        )
}

/// Records are equal where they have as many fields, and for each field of one there is
/// an equal one of the same name in the other, in whatever place.
pub proof fn law_equal_records(a: RecordFields, b: RecordFields)
    requires
        b.well_formed(),
    ensures
        a.equals(b) <==> {
            &&& a.entries@.len() == b.entries@.len()
            &&& forall|i: int|
                0 <= i < a.entries@.len() ==> has_equal_field(
                    b.entries@,
                    #[trigger] a.entries@[i],
                )
        },
{
    let (x, y) = (a.entries@, b.entries@);
    assert forall|i: int| 0 <= i < x.len() implies has_equal_field(y, #[trigger] x[i]) == (
    place_of_field(y, x[i].0@) >= 0 && x[i].1.equals(y[place_of_field(y, x[i].0@)].1)) by {
        lemma_field_found(y, x[i].0@);
        let k = place_of_field(y, x[i].0@);
        if has_equal_field(y, x[i]) {
            let j = choose|j: int|
                0 <= j < y.len() && (#[trigger] y[j]).0@ == x[i].0@ && x[i].1.equals(y[j].1);
            if j < k {
                assert(y[j].0@ != y[k].0@);
            } else if k >= 0 && k < j {
                assert(y[k].0@ != y[j].0@);
            }
        }
    }
}

} // verus!
