//! Developer-facing text of CIR values, as it appears in error messages.

use crate::cir;
use crate::cir::BinOp;
use crate::cir::CirType;
use crate::cir::ConstValue;
use crate::cir::Domain;
use crate::cir::Expr;
use crate::cir::RecordFields;
use crate::cir::TypeKind;
use crate::cir::UnOp;
use crate::cir::VarId;
use crate::text;
use crate::unit::BaseDimension;
use crate::unit::Unit;
use vstd::prelude::*;

verus! {

/// A string between double quotes, with the characters escaped that std's
/// debug formatting escapes.
pub uninterp spec fn quoted(s: Seq<char>) -> Seq<char>;

/// std's `{:?}` formatting of a string slice. Which characters it escapes, and
/// how, is not stated.
#[verifier::external_body]
fn quote(s: &str) -> (out: String)
    ensures
        out@ == quoted(s@),
{
    format!("{:?}", s)
}

// ---------------------------------------------------------------------------
// Types and units
// ---------------------------------------------------------------------------

/// The first `n` strings, quoted and separated by commas.
pub open spec fn strings_text(strings: Seq<String>, n: nat) -> Seq<char>
    decreases n,
{
    if n == 0 {
        Seq::empty()
    } else if n == 1 {
        quoted(strings[0]@)
    } else {
        strings_text(strings, (n - 1) as nat) + ", "@ + quoted(strings[n - 1]@)
    }
}

/// A value kind.
pub open spec fn kind_text(kind: TypeKind) -> Seq<char>
    decreases kind, 0nat,
{
    match kind {
        TypeKind::Real => "Real"@,
        TypeKind::Integer => "Integer"@,
        TypeKind::Boolean => "Boolean"@,
        TypeKind::Enum(names) => "Enum(["@ + strings_text(names@, names@.len()) + "])"@,
        TypeKind::Array { size, elem } => "Array { size: "@ + text::decimal(size as nat)
            + ", elem: "@ + kind_text(*elem) + " }"@,
        TypeKind::Record { fields } => "Record { fields: {"@ + fields_text(
            fields.entries@,
            fields.entries@.len(),
        ) + "} }"@,
    }
}

/// The first `n` fields, separated by commas.
pub open spec fn fields_text(entries: Seq<(String, TypeKind)>, n: nat) -> Seq<char>
    decreases entries, n,
{
    if n == 0 || n > entries.len() {
        Seq::empty()
    } else if n == 1 {
        quoted(entries[0].0@) + ": "@ + kind_text(entries[0].1)
    } else {
        fields_text(entries, (n - 1) as nat) + ", "@ + quoted(entries[n - 1].0@) + ": "@
            + kind_text(entries[n - 1].1)
    }
}

/// Appends the text of a value kind.
pub fn push_kind(out: &mut String, kind: &TypeKind)
    ensures
        final(out)@ == old(out)@ + kind_text(*kind),
    decreases kind, 0nat,
{
    match kind {
        TypeKind::Real => {
            out.push_str("Real");
        },
        TypeKind::Integer => {
            out.push_str("Integer");
        },
        TypeKind::Boolean => {
            out.push_str("Boolean");
        },
        TypeKind::Enum(names) => {
            out.push_str("Enum([");
            push_strings(out, names);
            out.push_str("])");
        },
        TypeKind::Array { size, elem } => {
            out.push_str("Array { size: ");
            text::push_decimal(out, *size as u64);
            out.push_str(", elem: ");
            push_kind(out, elem);
            out.push_str(" }");
        },
        TypeKind::Record { fields } => {
            out.push_str("Record { fields: {");
            push_fields(out, &fields.entries, fields.entries.len());
            out.push_str("} }");
        },
    }
    assert(out@ =~= old(out)@ + kind_text(*kind));
}

fn push_fields(out: &mut String, entries: &Vec<(String, TypeKind)>, n: usize)
    requires
        n <= entries@.len(),
    ensures
        final(out)@ == old(out)@ + fields_text(entries@, n as nat),
    decreases entries, n,
{
    if n > 0 {
        assert(decreases_to!(entries@ => entries@[n - 1]));
        if n > 1 {
            push_fields(out, entries, n - 1);
            out.push_str(", ");
        }
        out.push_str(quote(entries[n - 1].0.as_str()).as_str());
        out.push_str(": ");
        push_kind(out, &entries[n - 1].1);
    }
    assert(out@ =~= old(out)@ + fields_text(entries@, n as nat));
}

fn push_strings(out: &mut String, strings: &Vec<String>)
    ensures
        final(out)@ == old(out)@ + strings_text(strings@, strings@.len()),
{
    for i in 0..strings.len()
        invariant
            out@ == old(out)@ + strings_text(strings@, i as nat),
    {
        if i > 0 {
            out.push_str(", ");
        }
        out.push_str(quote(strings[i].as_str()).as_str());
        assert(out@ =~= old(out)@ + strings_text(strings@, (i + 1) as nat));
    }
}

/// The name of a base dimension.
pub open spec fn dimension_name(value: BaseDimension) -> Seq<char> {
    match value {
        BaseDimension::Length => "Length"@,
        BaseDimension::Mass => "Mass"@,
        BaseDimension::Time => "Time"@,
        BaseDimension::Temperature => "Temperature"@,
        BaseDimension::Angle => "Angle"@,
        BaseDimension::Current => "Current"@,
        BaseDimension::Amount => "Amount"@,
    }
}

fn dimension_str(value: BaseDimension) -> (name: &'static str)
    ensures
        name@ == dimension_name(value),
{
    match value {
        BaseDimension::Length => "Length",
        BaseDimension::Mass => "Mass",
        BaseDimension::Time => "Time",
        BaseDimension::Temperature => "Temperature",
        BaseDimension::Angle => "Angle",
        BaseDimension::Current => "Current",
        BaseDimension::Amount => "Amount",
    }
}

/// The name of a unary operator.
pub open spec fn unary_name(value: UnOp) -> Seq<char> {
    match value {
        UnOp::Neg => "Neg"@,
        UnOp::Abs => "Abs"@,
        UnOp::Not => "Not"@,
    }
}

fn unary_str(value: UnOp) -> (name: &'static str)
    ensures
        name@ == unary_name(value),
{
    match value {
        UnOp::Neg => "Neg",
        UnOp::Abs => "Abs",
        UnOp::Not => "Not",
    }
}

/// The name of a binary operator.
pub open spec fn binary_name(value: BinOp) -> Seq<char> {
    match value {
        BinOp::Add => "Add"@,
        BinOp::Sub => "Sub"@,
        BinOp::Mul => "Mul"@,
        BinOp::Div => "Div"@,
        BinOp::Mod => "Mod"@,
        BinOp::Eq => "Eq"@,
        BinOp::Neq => "Neq"@,
        BinOp::Lt => "Lt"@,
        BinOp::Gt => "Gt"@,
        BinOp::Lte => "Lte"@,
        BinOp::Gte => "Gte"@,
        BinOp::And => "And"@,
        BinOp::Or => "Or"@,
        BinOp::Implies => "Implies"@,
    }
}

fn binary_str(value: BinOp) -> (name: &'static str)
    ensures
        name@ == binary_name(value),
{
    match value {
        BinOp::Add => "Add",
        BinOp::Sub => "Sub",
        BinOp::Mul => "Mul",
        BinOp::Div => "Div",
        BinOp::Mod => "Mod",
        BinOp::Eq => "Eq",
        BinOp::Neq => "Neq",
        BinOp::Lt => "Lt",
        BinOp::Gt => "Gt",
        BinOp::Lte => "Lte",
        BinOp::Gte => "Gte",
        BinOp::And => "And",
        BinOp::Or => "Or",
        BinOp::Implies => "Implies",
    }
}

/// The first `n` terms of a unit, each as a pair, separated by commas.
pub open spec fn terms_text(terms: Seq<(BaseDimension, i32)>, n: nat) -> Seq<char>
    decreases n,
{
    if n == 0 {
        Seq::empty()
    } else {
        terms_text(terms, (n - 1) as nat) + (if n > 1 {
            ", ("@
        } else {
            "("@
        }) + dimension_name(terms[n - 1].0) + ", "@ + text::signed_decimal(terms[n - 1].1 as int)
            + ")"@
    }
}

/// A unit as it is written, not normalized.
pub open spec fn unit_text(unit: Unit) -> Seq<char> {
    match unit {
        Unit::Dimensionless => "Dimensionless"@,
        Unit::Base(d, e) => "Base("@ + dimension_name(d) + ", "@ + text::signed_decimal(e as int)
            + ")"@,
        Unit::Product(terms) => "Product(["@ + terms_text(terms@, terms@.len()) + "])"@,
    }
}

fn push_unit(out: &mut String, unit: &Unit)
    ensures
        final(out)@ == old(out)@ + unit_text(*unit),
{
    match unit {
        Unit::Dimensionless => {
            out.push_str("Dimensionless");
        },
        Unit::Base(d, e) => {
            out.push_str("Base(");
            out.push_str(dimension_str(*d));
            out.push_str(", ");
            text::push_signed_decimal(out, *e as i64);
            out.push_str(")");
        },
        Unit::Product(terms) => {
            out.push_str("Product([");
            let ghost head = out@;
            for i in 0..terms.len()
                invariant
                    out@ == head + terms_text(terms@, i as nat),
            {
                let (d, e) = terms[i];
                if i > 0 {
                    out.push_str(", (");
                } else {
                    out.push_str("(");
                }
                out.push_str(dimension_str(d));
                out.push_str(", ");
                text::push_signed_decimal(out, e as i64);
                out.push_str(")");
                assert(out@ =~= head + terms_text(terms@, (i + 1) as nat));
            }
            out.push_str("])");
        },
    }
    assert(out@ =~= old(out)@ + unit_text(*unit));
}

/// A type: its kind and its unit.
pub open spec fn type_text(ty: CirType) -> Seq<char> {
    "CirType { kind: "@ + kind_text(ty.kind) + ", unit: "@ + unit_text(ty.unit) + " }"@
}

fn push_type(out: &mut String, ty: &CirType)
    ensures
        final(out)@ == old(out)@ + type_text(*ty),
{
    out.push_str("CirType { kind: ");
    push_kind(out, &ty.kind);
    out.push_str(", unit: ");
    push_unit(out, &ty.unit);
    out.push_str(" }");
    assert(out@ =~= old(out)@ + type_text(*ty));
}

// ---------------------------------------------------------------------------
// Expressions
// ---------------------------------------------------------------------------

/// A variable identifier.
pub open spec fn var_text(var: VarId) -> Seq<char> {
    "VarId("@ + text::decimal(var.0 as nat) + ")"@
}

fn push_var(out: &mut String, var: VarId)
    ensures
        final(out)@ == old(out)@ + var_text(var),
{
    out.push_str("VarId(");
    text::push_decimal(out, var.0 as u64);
    out.push_str(")");
    assert(out@ =~= old(out)@ + var_text(var));
}

/// A constant.
pub open spec fn const_text(value: ConstValue) -> Seq<char> {
    match value {
        ConstValue::Real(v) => "Real("@ + v.shortest@ + ")"@,
        ConstValue::Integer(v) => "Integer("@ + text::signed_decimal(v as int) + ")"@,
        ConstValue::Bool(b) => if b {
            "Bool(true)"@
        } else {
            "Bool(false)"@
        },
    }
}

fn push_const(out: &mut String, value: &ConstValue)
    ensures
        final(out)@ == old(out)@ + const_text(*value),
{
    match value {
        ConstValue::Real(v) => {
            out.push_str("Real(");
            out.push_str(v.shortest.as_str());
            out.push_str(")");
        },
        ConstValue::Integer(v) => {
            out.push_str("Integer(");
            text::push_signed_decimal(out, *v);
            out.push_str(")");
        },
        ConstValue::Bool(b) => {
            out.push_str(if *b {
                "Bool(true)"
            } else {
                "Bool(false)"
            });
        },
    }
    assert(out@ =~= old(out)@ + const_text(*value));
}

/// A quantifier domain.
pub open spec fn domain_text(domain: Domain) -> Seq<char> {
    match domain {
        Domain::Enum(names) => "Enum(["@ + strings_text(names@, names@.len()) + "])"@,
        Domain::Interval { low, high } => "Interval { low: "@ + text::signed_decimal(low as int)
            + ", high: "@ + text::signed_decimal(high as int) + " }"@,
        Domain::Array { size } => "Array { size: "@ + text::decimal(size as nat) + " }"@,
    }
}

fn push_domain(out: &mut String, domain: &Domain)
    ensures
        final(out)@ == old(out)@ + domain_text(*domain),
{
    match domain {
        Domain::Enum(names) => {
            out.push_str("Enum([");
            push_strings(out, names);
            out.push_str("])");
        },
        Domain::Interval { low, high } => {
            out.push_str("Interval { low: ");
            text::push_signed_decimal(out, *low);
            out.push_str(", high: ");
            text::push_signed_decimal(out, *high);
            out.push_str(" }");
        },
        Domain::Array { size } => {
            out.push_str("Array { size: ");
            text::push_decimal(out, *size as u64);
            out.push_str(" }");
        },
    }
    assert(out@ =~= old(out)@ + domain_text(*domain));
}

/// An expression with all of its parts.
pub open spec fn expr_text(expr: Expr) -> Seq<char>
    decreases expr,
{
    match expr {
        Expr::Const(value) => "Const("@
            + const_text(value)
            + ")"@,
        Expr::Var(var) => "Var("@
            + var_text(var)
            + ")"@,
        Expr::Unary { op, operand, ty } => "Unary { op: "@
            + unary_name(op)
            + ", operand: "@
            + expr_text(*operand)
            + ", ty: "@
            + type_text(ty)
            + " }"@,
        Expr::Binary { op, left, right, ty } => "Binary { op: "@
            + binary_name(op)
            + ", left: "@
            + expr_text(*left)
            + ", right: "@
            + expr_text(*right)
            + ", ty: "@
            + type_text(ty)
            + " }"@,
        Expr::If { cond, then_branch, else_branch, ty } => "If { cond: "@
            + expr_text(*cond)
            + ", then_branch: "@
            + expr_text(*then_branch)
            + ", else_branch: "@
            + expr_text(*else_branch)
            + ", ty: "@
            + type_text(ty)
            + " }"@,
        Expr::Index { array, index, ty } => "Index { array: "@
            + var_text(array)
            + ", index: "@
            + expr_text(*index)
            + ", ty: "@
            + type_text(ty)
            + " }"@,
        Expr::Field { record, field, ty } => "Field { record: "@
            + var_text(record)
            + ", field: "@
            + quoted(field@)
            + ", ty: "@
            + type_text(ty)
            + " }"@,
        Expr::Forall { var, domain, body, ty } => "Forall { var: "@
            + var_text(var)
            + ", domain: "@
            + domain_text(domain)
            + ", body: "@
            + expr_text(*body)
            + ", ty: "@
            + type_text(ty)
            + " }"@,
        Expr::Exists { var, domain, body, ty } => "Exists { var: "@
            + var_text(var)
            + ", domain: "@
            + domain_text(domain)
            + ", body: "@
            + expr_text(*body)
            + ", ty: "@
            + type_text(ty)
            + " }"@,
        Expr::Always(inner, ty) => "Always("@
            + expr_text(*inner)
            + ", "@
            + type_text(ty)
            + ")"@,
        Expr::Eventually(inner, ty) => "Eventually("@
            + expr_text(*inner)
            + ", "@
            + type_text(ty)
            + ")"@,
        Expr::Next(inner, ty) => "Next("@
            + expr_text(*inner)
            + ", "@
            + type_text(ty)
            + ")"@,
        Expr::Until { left, right, ty } => "Until { left: "@
            + expr_text(*left)
            + ", right: "@
            + expr_text(*right)
            + ", ty: "@
            + type_text(ty)
            + " }"@,
        Expr::Since { left, right, ty } => "Since { left: "@
            + expr_text(*left)
            + ", right: "@
            + expr_text(*right)
            + ", ty: "@
            + type_text(ty)
            + " }"@,
        Expr::For { duration, body, ty } => "For { duration: "@
            + text::decimal(duration as nat)
            + ", body: "@
            + expr_text(*body)
            + ", ty: "@
            + type_text(ty)
            + " }"@,
        Expr::After { duration, body, ty } => "After { duration: "@
            + text::decimal(duration as nat)
            + ", body: "@
            + expr_text(*body)
            + ", ty: "@
            + type_text(ty)
            + " }"@,
        Expr::Old(var, ty) => "Old("@
            + var_text(var)
            + ", "@
            + type_text(ty)
            + ")"@,
        Expr::RateOf(var, ty) => "RateOf("@
            + var_text(var)
            + ", "@
            + type_text(ty)
            + ")"@,
        Expr::Delta(var, ty) => "Delta("@
            + var_text(var)
            + ", "@
            + type_text(ty)
            + ")"@,
    }
}

/// The text of an expression.
pub fn expr_debug(expr: &Expr) -> (out: String)
    ensures
        out@ == expr_text(*expr),
    decreases expr,
{
    match expr {
        Expr::Const(value) => {
            let mut out = "Const(".to_owned();
            push_const(&mut out, value);
            out.push_str(")");
            out
        },
        Expr::Var(var) => {
            let mut out = "Var(".to_owned();
            push_var(&mut out, *var);
            out.push_str(")");
            out
        },
        Expr::Unary { op, operand, ty } => {
            let mut out = "Unary { op: ".to_owned();
            out.push_str(unary_str(*op));
            out.push_str(", operand: ");
            out.push_str(expr_debug(operand).as_str());
            out.push_str(", ty: ");
            push_type(&mut out, ty);
            out.push_str(" }");
            out
        },
        Expr::Binary { op, left, right, ty } => {
            let mut out = "Binary { op: ".to_owned();
            out.push_str(binary_str(*op));
            out.push_str(", left: ");
            out.push_str(expr_debug(left).as_str());
            out.push_str(", right: ");
            out.push_str(expr_debug(right).as_str());
            out.push_str(", ty: ");
            push_type(&mut out, ty);
            out.push_str(" }");
            out
        },
        Expr::If { cond, then_branch, else_branch, ty } => {
            let mut out = "If { cond: ".to_owned();
            out.push_str(expr_debug(cond).as_str());
            out.push_str(", then_branch: ");
            out.push_str(expr_debug(then_branch).as_str());
            out.push_str(", else_branch: ");
            out.push_str(expr_debug(else_branch).as_str());
            out.push_str(", ty: ");
            push_type(&mut out, ty);
            out.push_str(" }");
            out
        },
        Expr::Index { array, index, ty } => {
            let mut out = "Index { array: ".to_owned();
            push_var(&mut out, *array);
            out.push_str(", index: ");
            out.push_str(expr_debug(index).as_str());
            out.push_str(", ty: ");
            push_type(&mut out, ty);
            out.push_str(" }");
            out
        },
        Expr::Field { record, field, ty } => {
            let mut out = "Field { record: ".to_owned();
            push_var(&mut out, *record);
            out.push_str(", field: ");
            out.push_str(quote(field.as_str()).as_str());
            out.push_str(", ty: ");
            push_type(&mut out, ty);
            out.push_str(" }");
            out
        },
        Expr::Forall { var, domain, body, ty } => {
            let mut out = "Forall { var: ".to_owned();
            push_var(&mut out, *var);
            out.push_str(", domain: ");
            push_domain(&mut out, domain);
            out.push_str(", body: ");
            out.push_str(expr_debug(body).as_str());
            out.push_str(", ty: ");
            push_type(&mut out, ty);
            out.push_str(" }");
            out
        },
        Expr::Exists { var, domain, body, ty } => {
            let mut out = "Exists { var: ".to_owned();
            push_var(&mut out, *var);
            out.push_str(", domain: ");
            push_domain(&mut out, domain);
            out.push_str(", body: ");
            out.push_str(expr_debug(body).as_str());
            out.push_str(", ty: ");
            push_type(&mut out, ty);
            out.push_str(" }");
            out
        },
        Expr::Always(inner, ty) => {
            let mut out = "Always(".to_owned();
            out.push_str(expr_debug(inner).as_str());
            out.push_str(", ");
            push_type(&mut out, ty);
            out.push_str(")");
            out
        },
        Expr::Eventually(inner, ty) => {
            let mut out = "Eventually(".to_owned();
            out.push_str(expr_debug(inner).as_str());
            out.push_str(", ");
            push_type(&mut out, ty);
            out.push_str(")");
            out
        },
        Expr::Next(inner, ty) => {
            let mut out = "Next(".to_owned();
            out.push_str(expr_debug(inner).as_str());
            out.push_str(", ");
            push_type(&mut out, ty);
            out.push_str(")");
            out
        },
        Expr::Until { left, right, ty } => {
            let mut out = "Until { left: ".to_owned();
            out.push_str(expr_debug(left).as_str());
            out.push_str(", right: ");
            out.push_str(expr_debug(right).as_str());
            out.push_str(", ty: ");
            push_type(&mut out, ty);
            out.push_str(" }");
            out
        },
        Expr::Since { left, right, ty } => {
            let mut out = "Since { left: ".to_owned();
            out.push_str(expr_debug(left).as_str());
            out.push_str(", right: ");
            out.push_str(expr_debug(right).as_str());
            out.push_str(", ty: ");
            push_type(&mut out, ty);
            out.push_str(" }");
            out
        },
        Expr::For { duration, body, ty } => {
            let mut out = "For { duration: ".to_owned();
            text::push_decimal(&mut out, *duration as u64);
            out.push_str(", body: ");
            out.push_str(expr_debug(body).as_str());
            out.push_str(", ty: ");
            push_type(&mut out, ty);
            out.push_str(" }");
            out
        },
        Expr::After { duration, body, ty } => {
            let mut out = "After { duration: ".to_owned();
            text::push_decimal(&mut out, *duration as u64);
            out.push_str(", body: ");
            out.push_str(expr_debug(body).as_str());
            out.push_str(", ty: ");
            push_type(&mut out, ty);
            out.push_str(" }");
            out
        },
        Expr::Old(var, ty) => {
            let mut out = "Old(".to_owned();
            push_var(&mut out, *var);
            out.push_str(", ");
            push_type(&mut out, ty);
            out.push_str(")");
            out
        },
        Expr::RateOf(var, ty) => {
            let mut out = "RateOf(".to_owned();
            push_var(&mut out, *var);
            out.push_str(", ");
            push_type(&mut out, ty);
            out.push_str(")");
            out
        },
        Expr::Delta(var, ty) => {
            let mut out = "Delta(".to_owned();
            push_var(&mut out, *var);
            out.push_str(", ");
            push_type(&mut out, ty);
            out.push_str(")");
            out
        },
    }
}

// ---------------------------------------------------------------------------
// Laws
// ---------------------------------------------------------------------------

/// A value of a variant with unnamed parts in words: the name of the variant and the
/// parts in parentheses.
pub open spec fn tuple_words(name: Seq<char>, parts: Seq<Seq<char>>) -> Seq<char> {
    name + "("@ + listed(parts) + ")"@
}

/// A value of a variant with named parts in words: the name of the variant and the
/// parts in braces, each with its name.
pub open spec fn struct_words(name: Seq<char>, parts: Seq<(Seq<char>, Seq<char>)>) -> Seq<char> {
    name + " { "@ + listed(
        parts.map_values(|part: (Seq<char>, Seq<char>)| part.0 + ": "@ + part.1),
    ) + " }"@
}

/// Texts with a comma and a space between each two.
pub open spec fn listed(parts: Seq<Seq<char>>) -> Seq<char>
    decreases parts.len(),
{
    if parts.len() == 0 {
        Seq::empty()
    } else if parts.len() == 1 {
        parts[0]
    } else {
        listed(parts.drop_last()) + ", "@ + parts.last()
    }
}

/// One, two, three or four listed texts.
proof fn lemma_listed(a: Seq<char>, b: Seq<char>, c: Seq<char>, d: Seq<char>)
    ensures
        listed(seq![a]) == a,
        listed(seq![a, b]) == a + ", "@ + b,
        listed(seq![a, b, c]) == a + ", "@ + b + ", "@ + c,
        listed(seq![a, b, c, d]) == a + ", "@ + b + ", "@ + c + ", "@ + d,
{
    reveal_with_fuel(listed, 5);
    assert(seq![a, b].drop_last() =~= seq![a]);
    assert(seq![a, b, c].drop_last() =~= seq![a, b]);
    assert(seq![a, b, c, d].drop_last() =~= seq![a, b, c]);
}

/// Two parts with their names.
proof fn lemma_struct_of_2(
    name: Seq<char>,
    p0: (Seq<char>, Seq<char>),
    p1: (Seq<char>, Seq<char>),
    s0: Seq<char>,
    s1: Seq<char>,
)
    requires
        s0 == name + " { "@ + p0.0 + ": "@,
        s1 == ", "@ + p1.0 + ": "@,
    ensures
        s0 + p0.1 + s1 + p1.1 + " }"@ == struct_words(name, seq![p0, p1]),
{
    let f = |part: (Seq<char>, Seq<char>)| part.0 + ": "@ + part.1;
    lemma_listed(f(p0), f(p1), f(p0), f(p0));
    assert(seq![p0, p1].map_values(f) =~= seq![f(p0), f(p1)]);
    assert(s0 + p0.1 + s1 + p1.1 + " }"@ =~= struct_words(name, seq![p0, p1]));
}

/// Three parts with their names.
proof fn lemma_struct_of_3(
    name: Seq<char>,
    p0: (Seq<char>, Seq<char>),
    p1: (Seq<char>, Seq<char>),
    p2: (Seq<char>, Seq<char>),
    s0: Seq<char>,
    s1: Seq<char>,
    s2: Seq<char>,
)
    requires
        s0 == name + " { "@ + p0.0 + ": "@,
        s1 == ", "@ + p1.0 + ": "@,
        s2 == ", "@ + p2.0 + ": "@,
    ensures
        s0 + p0.1 + s1 + p1.1 + s2 + p2.1 + " }"@ == struct_words(name, seq![p0, p1, p2]),
{
    let f = |part: (Seq<char>, Seq<char>)| part.0 + ": "@ + part.1;
    lemma_listed(f(p0), f(p1), f(p2), f(p0));
    assert(seq![p0, p1, p2].map_values(f) =~= seq![f(p0), f(p1), f(p2)]);
    assert(s0 + p0.1 + s1 + p1.1 + s2 + p2.1 + " }"@ =~= struct_words(name, seq![p0, p1, p2]));
}

/// Four parts with their names.
proof fn lemma_struct_of_4(
    name: Seq<char>,
    p0: (Seq<char>, Seq<char>),
    p1: (Seq<char>, Seq<char>),
    p2: (Seq<char>, Seq<char>),
    p3: (Seq<char>, Seq<char>),
    s0: Seq<char>,
    s1: Seq<char>,
    s2: Seq<char>,
    s3: Seq<char>,
)
    requires
        s0 == name + " { "@ + p0.0 + ": "@,
        s1 == ", "@ + p1.0 + ": "@,
        s2 == ", "@ + p2.0 + ": "@,
        s3 == ", "@ + p3.0 + ": "@,
    ensures
        s0 + p0.1 + s1 + p1.1 + s2 + p2.1 + s3 + p3.1 + " }"@
            == struct_words(name, seq![p0, p1, p2, p3]),
{
    let f = |part: (Seq<char>, Seq<char>)| part.0 + ": "@ + part.1;
    lemma_listed(f(p0), f(p1), f(p2), f(p3));
    assert(seq![p0, p1, p2, p3].map_values(f) =~= seq![f(p0), f(p1), f(p2), f(p3)]);
    assert(s0 + p0.1 + s1 + p1.1 + s2 + p2.1 + s3 + p3.1 + " }"@
        =~= struct_words(name, seq![p0, p1, p2, p3]));
}

/// One or two parts without names.
proof fn lemma_tuple(name: Seq<char>, a: Seq<char>, b: Seq<char>, open: Seq<char>)
    requires
        open == name + "("@,
    ensures
        open + a + ")"@ == tuple_words(name, seq![a]),
        open + a + ", "@ + b + ")"@ == tuple_words(name, seq![a, b]),
{
    lemma_listed(a, b, a, b);
    assert(open + a + ")"@ =~= tuple_words(name, seq![a]));
    assert(open + a + ", "@ + b + ")"@ =~= tuple_words(name, seq![a, b]));
}

/// The words between the parts are made of names and marks.
proof fn lemma_marks()
    ensures
        "Unary { op: "@ == "Unary"@ + " { "@ + "op"@ + ": "@,
        "Binary { op: "@ == "Binary"@ + " { "@ + "op"@ + ": "@,
        "If { cond: "@ == "If"@ + " { "@ + "cond"@ + ": "@,
        "Index { array: "@ == "Index"@ + " { "@ + "array"@ + ": "@,
        "Field { record: "@ == "Field"@ + " { "@ + "record"@ + ": "@,
        "Forall { var: "@ == "Forall"@ + " { "@ + "var"@ + ": "@,
        "Exists { var: "@ == "Exists"@ + " { "@ + "var"@ + ": "@,
        "Until { left: "@ == "Until"@ + " { "@ + "left"@ + ": "@,
        "Since { left: "@ == "Since"@ + " { "@ + "left"@ + ": "@,
        "For { duration: "@ == "For"@ + " { "@ + "duration"@ + ": "@,
        "After { duration: "@ == "After"@ + " { "@ + "duration"@ + ": "@,
        "Interval { low: "@ == "Interval"@ + " { "@ + "low"@ + ": "@,
        "Array { size: "@ == "Array"@ + " { "@ + "size"@ + ": "@,
        "CirType { kind: "@ == "CirType"@ + " { "@ + "kind"@ + ": "@,
        ", operand: "@ == ", "@ + "operand"@ + ": "@,
        ", left: "@ == ", "@ + "left"@ + ": "@,
        ", right: "@ == ", "@ + "right"@ + ": "@,
        ", ty: "@ == ", "@ + "ty"@ + ": "@,
        ", then_branch: "@ == ", "@ + "then_branch"@ + ": "@,
        ", else_branch: "@ == ", "@ + "else_branch"@ + ": "@,
        ", index: "@ == ", "@ + "index"@ + ": "@,
        ", field: "@ == ", "@ + "field"@ + ": "@,
        ", domain: "@ == ", "@ + "domain"@ + ": "@,
        ", body: "@ == ", "@ + "body"@ + ": "@,
        ", high: "@ == ", "@ + "high"@ + ": "@,
        ", elem: "@ == ", "@ + "elem"@ + ": "@,
        ", unit: "@ == ", "@ + "unit"@ + ": "@,
        "Always("@ == "Always"@ + "("@,
        "Eventually("@ == "Eventually"@ + "("@,
        "Next("@ == "Next"@ + "("@,
        "Old("@ == "Old"@ + "("@,
        "RateOf("@ == "RateOf"@ + "("@,
        "Delta("@ == "Delta"@ + "("@,
        "VarId("@ == "VarId"@ + "("@,
        "Var("@ == "Var"@ + "("@,
        "Const("@ == "Const"@ + "("@,
        "Real("@ == "Real"@ + "("@,
        "Integer("@ == "Integer"@ + "("@,
        "Bool(true)"@ == "Bool"@ + "("@ + "true"@ + ")"@,
        "Bool(false)"@ == "Bool"@ + "("@ + "false"@ + ")"@,
        "Enum(["@ == "Enum"@ + "("@ + "["@,
        "])"@ == "]"@ + ")"@,
        "Array { "@ == "Array"@ + " { "@,
{
    assert("Unary { op: "@ =~= "Unary"@ + " { "@ + "op"@ + ": "@) by {
        reveal_strlit("Unary { op: ");
        reveal_strlit("Unary");
        reveal_strlit(" { ");
        reveal_strlit("op");
        reveal_strlit(": ");
    }
    assert("Binary { op: "@ =~= "Binary"@ + " { "@ + "op"@ + ": "@) by {
        reveal_strlit("Binary { op: ");
        reveal_strlit("Binary");
        reveal_strlit(" { ");
        reveal_strlit("op");
        reveal_strlit(": ");
    }
    assert("If { cond: "@ =~= "If"@ + " { "@ + "cond"@ + ": "@) by {
        reveal_strlit("If { cond: ");
        reveal_strlit("If");
        reveal_strlit(" { ");
        reveal_strlit("cond");
        reveal_strlit(": ");
    }
    assert("Index { array: "@ =~= "Index"@ + " { "@ + "array"@ + ": "@) by {
        reveal_strlit("Index { array: ");
        reveal_strlit("Index");
        reveal_strlit(" { ");
        reveal_strlit("array");
        reveal_strlit(": ");
    }
    assert("Field { record: "@ =~= "Field"@ + " { "@ + "record"@ + ": "@) by {
        reveal_strlit("Field { record: ");
        reveal_strlit("Field");
        reveal_strlit(" { ");
        reveal_strlit("record");
        reveal_strlit(": ");
    }
    assert("Forall { var: "@ =~= "Forall"@ + " { "@ + "var"@ + ": "@) by {
        reveal_strlit("Forall { var: ");
        reveal_strlit("Forall");
        reveal_strlit(" { ");
        reveal_strlit("var");
        reveal_strlit(": ");
    }
    assert("Exists { var: "@ =~= "Exists"@ + " { "@ + "var"@ + ": "@) by {
        reveal_strlit("Exists { var: ");
        reveal_strlit("Exists");
        reveal_strlit(" { ");
        reveal_strlit("var");
        reveal_strlit(": ");
    }
    assert("Until { left: "@ =~= "Until"@ + " { "@ + "left"@ + ": "@) by {
        reveal_strlit("Until { left: ");
        reveal_strlit("Until");
        reveal_strlit(" { ");
        reveal_strlit("left");
        reveal_strlit(": ");
    }
    assert("Since { left: "@ =~= "Since"@ + " { "@ + "left"@ + ": "@) by {
        reveal_strlit("Since { left: ");
        reveal_strlit("Since");
        reveal_strlit(" { ");
        reveal_strlit("left");
        reveal_strlit(": ");
    }
    assert("For { duration: "@ =~= "For"@ + " { "@ + "duration"@ + ": "@) by {
        reveal_strlit("For { duration: ");
        reveal_strlit("For");
        reveal_strlit(" { ");
        reveal_strlit("duration");
        reveal_strlit(": ");
    }
    assert("After { duration: "@ =~= "After"@ + " { "@ + "duration"@ + ": "@) by {
        reveal_strlit("After { duration: ");
        reveal_strlit("After");
        reveal_strlit(" { ");
        reveal_strlit("duration");
        reveal_strlit(": ");
    }
    assert("Interval { low: "@ =~= "Interval"@ + " { "@ + "low"@ + ": "@) by {
        reveal_strlit("Interval { low: ");
        reveal_strlit("Interval");
        reveal_strlit(" { ");
        reveal_strlit("low");
        reveal_strlit(": ");
    }
    assert("Array { size: "@ =~= "Array"@ + " { "@ + "size"@ + ": "@) by {
        reveal_strlit("Array { size: ");
        reveal_strlit("Array");
        reveal_strlit(" { ");
        reveal_strlit("size");
        reveal_strlit(": ");
    }
    assert("CirType { kind: "@ =~= "CirType"@ + " { "@ + "kind"@ + ": "@) by {
        reveal_strlit("CirType { kind: ");
        reveal_strlit("CirType");
        reveal_strlit(" { ");
        reveal_strlit("kind");
        reveal_strlit(": ");
    }
    assert(", operand: "@ =~= ", "@ + "operand"@ + ": "@) by {
        reveal_strlit(", operand: ");
        reveal_strlit(", ");
        reveal_strlit("operand");
        reveal_strlit(": ");
    }
    assert(", left: "@ =~= ", "@ + "left"@ + ": "@) by {
        reveal_strlit(", left: ");
        reveal_strlit(", ");
        reveal_strlit("left");
        reveal_strlit(": ");
    }
    assert(", right: "@ =~= ", "@ + "right"@ + ": "@) by {
        reveal_strlit(", right: ");
        reveal_strlit(", ");
        reveal_strlit("right");
        reveal_strlit(": ");
    }
    assert(", ty: "@ =~= ", "@ + "ty"@ + ": "@) by {
        reveal_strlit(", ty: ");
        reveal_strlit(", ");
        reveal_strlit("ty");
        reveal_strlit(": ");
    }
    assert(", then_branch: "@ =~= ", "@ + "then_branch"@ + ": "@) by {
        reveal_strlit(", then_branch: ");
        reveal_strlit(", ");
        reveal_strlit("then_branch");
        reveal_strlit(": ");
    }
    assert(", else_branch: "@ =~= ", "@ + "else_branch"@ + ": "@) by {
        reveal_strlit(", else_branch: ");
        reveal_strlit(", ");
        reveal_strlit("else_branch");
        reveal_strlit(": ");
    }
    assert(", index: "@ =~= ", "@ + "index"@ + ": "@) by {
        reveal_strlit(", index: ");
        reveal_strlit(", ");
        reveal_strlit("index");
        reveal_strlit(": ");
    }
    assert(", field: "@ =~= ", "@ + "field"@ + ": "@) by {
        reveal_strlit(", field: ");
        reveal_strlit(", ");
        reveal_strlit("field");
        reveal_strlit(": ");
    }
    assert(", domain: "@ =~= ", "@ + "domain"@ + ": "@) by {
        reveal_strlit(", domain: ");
        reveal_strlit(", ");
        reveal_strlit("domain");
        reveal_strlit(": ");
    }
    assert(", body: "@ =~= ", "@ + "body"@ + ": "@) by {
        reveal_strlit(", body: ");
        reveal_strlit(", ");
        reveal_strlit("body");
        reveal_strlit(": ");
    }
    assert(", high: "@ =~= ", "@ + "high"@ + ": "@) by {
        reveal_strlit(", high: ");
        reveal_strlit(", ");
        reveal_strlit("high");
        reveal_strlit(": ");
    }
    assert(", elem: "@ =~= ", "@ + "elem"@ + ": "@) by {
        reveal_strlit(", elem: ");
        reveal_strlit(", ");
        reveal_strlit("elem");
        reveal_strlit(": ");
    }
    assert(", unit: "@ =~= ", "@ + "unit"@ + ": "@) by {
        reveal_strlit(", unit: ");
        reveal_strlit(", ");
        reveal_strlit("unit");
        reveal_strlit(": ");
    }
    assert("Always("@ =~= "Always"@ + "("@) by {
        reveal_strlit("Always(");
        reveal_strlit("Always");
        reveal_strlit("(");
    }
    assert("Eventually("@ =~= "Eventually"@ + "("@) by {
        reveal_strlit("Eventually(");
        reveal_strlit("Eventually");
        reveal_strlit("(");
    }
    assert("Next("@ =~= "Next"@ + "("@) by {
        reveal_strlit("Next(");
        reveal_strlit("Next");
        reveal_strlit("(");
    }
    assert("Old("@ =~= "Old"@ + "("@) by {
        reveal_strlit("Old(");
        reveal_strlit("Old");
        reveal_strlit("(");
    }
    assert("RateOf("@ =~= "RateOf"@ + "("@) by {
        reveal_strlit("RateOf(");
        reveal_strlit("RateOf");
        reveal_strlit("(");
    }
    assert("Delta("@ =~= "Delta"@ + "("@) by {
        reveal_strlit("Delta(");
        reveal_strlit("Delta");
        reveal_strlit("(");
    }
    assert("VarId("@ =~= "VarId"@ + "("@) by {
        reveal_strlit("VarId(");
        reveal_strlit("VarId");
        reveal_strlit("(");
    }
    assert("Var("@ =~= "Var"@ + "("@) by {
        reveal_strlit("Var(");
        reveal_strlit("Var");
        reveal_strlit("(");
    }
    assert("Const("@ =~= "Const"@ + "("@) by {
        reveal_strlit("Const(");
        reveal_strlit("Const");
        reveal_strlit("(");
    }
    assert("Real("@ =~= "Real"@ + "("@) by {
        reveal_strlit("Real(");
        reveal_strlit("Real");
        reveal_strlit("(");
    }
    assert("Integer("@ =~= "Integer"@ + "("@) by {
        reveal_strlit("Integer(");
        reveal_strlit("Integer");
        reveal_strlit("(");
    }
    assert("Bool(true)"@ =~= "Bool"@ + "("@ + "true"@ + ")"@) by {
        reveal_strlit("Bool(true)");
        reveal_strlit("Bool");
        reveal_strlit("(");
        reveal_strlit("true");
        reveal_strlit(")");
    }
    assert("Bool(false)"@ =~= "Bool"@ + "("@ + "false"@ + ")"@) by {
        reveal_strlit("Bool(false)");
        reveal_strlit("Bool");
        reveal_strlit("(");
        reveal_strlit("false");
        reveal_strlit(")");
    }
    assert("Enum(["@ =~= "Enum"@ + "("@ + "["@) by {
        reveal_strlit("Enum([");
        reveal_strlit("Enum");
        reveal_strlit("(");
        reveal_strlit("[");
    }
    assert("])"@ =~= "]"@ + ")"@) by {
        reveal_strlit("])");
        reveal_strlit("]");
        reveal_strlit(")");
    }
    assert("Array { "@ =~= "Array"@ + " { "@) by {
        reveal_strlit("Array { ");
        reveal_strlit("Array");
        reveal_strlit(" { ");
    }
}

/// An operation, a conditional or an access in words: its name, and its parts in the
/// order in which they are declared, the type last.
pub proof fn law_words_of_operations(
    a: Expr,
    b: Expr,
    c: Expr,
    op: UnOp,
    on_two: BinOp,
    v: VarId,
    field: String,
    ty: CirType,
)
    ensures
        ({
            let (x, y, z) = (Box::new(a), Box::new(b), Box::new(c));
            let t = ("ty"@, type_text(ty));
            &&& expr_text(Expr::Unary { op, operand: x, ty }) == struct_words(
                "Unary"@,
                seq![("op"@, unary_name(op)), ("operand"@, expr_text(a)), t],
            )
            &&& expr_text(Expr::Binary { op: on_two, left: x, right: y, ty }) == struct_words(
                "Binary"@,
                seq![
                    ("op"@, binary_name(on_two)),
                    ("left"@, expr_text(a)),
                    ("right"@, expr_text(b)),
                    t,
                ],
            )
            &&& expr_text(Expr::If { cond: x, then_branch: y, else_branch: z, ty })
                == struct_words(
                "If"@,
                seq![
                    ("cond"@, expr_text(a)),
                    ("then_branch"@, expr_text(b)),
                    ("else_branch"@, expr_text(c)),
                    t,
                ],
            )
            &&& expr_text(Expr::Index { array: v, index: x, ty }) == struct_words(
                "Index"@,
                seq![("array"@, var_text(v)), ("index"@, expr_text(a)), t],
            )
            &&& expr_text(Expr::Field { record: v, field, ty }) == struct_words(
                "Field"@,
                seq![("record"@, var_text(v)), ("field"@, quoted(field@)), t],
            )
        }),
{
    let t = ("ty"@, type_text(ty));
    let (p, q, s) = (expr_text(a), expr_text(b), expr_text(c));
    let (x, y) = (("op"@, unary_name(op)), ("op"@, binary_name(on_two)));
    lemma_marks();
    lemma_struct_of_3("Unary"@, x, ("operand"@, p), t, "Unary { op: "@, ", operand: "@, ", ty: "@);
    lemma_struct_of_4(
        "Binary"@,
        y,
        ("left"@, p),
        ("right"@, q),
        t,
        "Binary { op: "@,
        ", left: "@,
        ", right: "@,
        ", ty: "@,
    );
    lemma_struct_of_4(
        "If"@,
        ("cond"@, p),
        ("then_branch"@, q),
        ("else_branch"@, s),
        t,
        "If { cond: "@,
        ", then_branch: "@,
        ", else_branch: "@,
        ", ty: "@,
    );
    lemma_struct_of_3(
        "Index"@,
        ("array"@, var_text(v)),
        ("index"@, p),
        t,
        "Index { array: "@,
        ", index: "@,
        ", ty: "@,
    );
    lemma_struct_of_3(
        "Field"@,
        ("record"@, var_text(v)),
        ("field"@, quoted(field@)),
        t,
        "Field { record: "@,
        ", field: "@,
        ", ty: "@,
    );
}

/// A quantifier in words.
pub proof fn law_words_of_quantifiers(a: Expr, v: VarId, domain: Domain, ty: CirType)
    ensures
        ({
            let x = Box::new(a);
            let over = seq![
                ("var"@, var_text(v)),
                ("domain"@, domain_text(domain)),
                ("body"@, expr_text(a)),
                ("ty"@, type_text(ty)),
            ];
            &&& expr_text(Expr::Forall { var: v, domain, body: x, ty }) == struct_words(
                "Forall"@,
                over,
            )
            &&& expr_text(Expr::Exists { var: v, domain, body: x, ty }) == struct_words(
                "Exists"@,
                over,
            )
        }),
{
    let t = ("ty"@, type_text(ty));
    let (var, dom) = (("var"@, var_text(v)), ("domain"@, domain_text(domain)));
    let body = ("body"@, expr_text(a));
    lemma_marks();
    lemma_struct_of_4(
        "Forall"@,
        var,
        dom,
        body,
        t,
        "Forall { var: "@,
        ", domain: "@,
        ", body: "@,
        ", ty: "@,
    );
    lemma_struct_of_4(
        "Exists"@,
        var,
        dom,
        body,
        t,
        "Exists { var: "@,
        ", domain: "@,
        ", body: "@,
        ", ty: "@,
    );
}

/// A temporal operator on two sides or over a duration in words.
pub proof fn law_words_of_durations(a: Expr, b: Expr, n: usize, ty: CirType)
    ensures
        ({
            let (x, y) = (Box::new(a), Box::new(b));
            let (p, q) = (expr_text(a), expr_text(b));
            let t = ("ty"@, type_text(ty));
            let sides = seq![("left"@, p), ("right"@, q), t];
            let lasting = seq![("duration"@, text::decimal(n as nat)), ("body"@, p), t];
            &&& expr_text(Expr::Until { left: x, right: y, ty }) == struct_words("Until"@, sides)
            &&& expr_text(Expr::Since { left: x, right: y, ty }) == struct_words("Since"@, sides)
            &&& expr_text(Expr::For { duration: n, body: x, ty }) == struct_words("For"@, lasting)
            &&& expr_text(Expr::After { duration: n, body: x, ty }) == struct_words(
                "After"@,
                lasting,
            )
        }),
{
    let t = ("ty"@, type_text(ty));
    let (left, right, body) = (
        ("left"@, expr_text(a)),
        ("right"@, expr_text(b)),
        ("body"@, expr_text(a)),
    );
    let time = ("duration"@, text::decimal(n as nat));
    lemma_marks();
    lemma_struct_of_3(
        "Until"@,
        left,
        right,
        t,
        "Until { left: "@,
        ", right: "@,
        ", ty: "@,
    );
    lemma_struct_of_3(
        "Since"@,
        left,
        right,
        t,
        "Since { left: "@,
        ", right: "@,
        ", ty: "@,
    );
    lemma_struct_of_3(
        "For"@,
        time,
        body,
        t,
        "For { duration: "@,
        ", body: "@,
        ", ty: "@,
    );
    lemma_struct_of_3(
        "After"@,
        time,
        body,
        t,
        "After { duration: "@,
        ", body: "@,
        ", ty: "@,
    );
}

/// A temporal operator on one expression, or a look at a history, in words.
pub proof fn law_words_of_times(a: Expr, v: VarId, ty: CirType)
    ensures
        ({
            let x = Box::new(a);
            let (inner, read) = (
                seq![expr_text(a), type_text(ty)],
                seq![var_text(v), type_text(ty)],
            );
            &&& expr_text(Expr::Always(x, ty)) == tuple_words("Always"@, inner)
            &&& expr_text(Expr::Eventually(x, ty)) == tuple_words("Eventually"@, inner)
            &&& expr_text(Expr::Next(x, ty)) == tuple_words("Next"@, inner)
            &&& expr_text(Expr::Old(v, ty)) == tuple_words("Old"@, read)
            &&& expr_text(Expr::RateOf(v, ty)) == tuple_words("RateOf"@, read)
            &&& expr_text(Expr::Delta(v, ty)) == tuple_words("Delta"@, read)
        }),
{
    lemma_marks();
    lemma_tuple("Always"@, expr_text(a), type_text(ty), "Always("@);
    lemma_tuple("Eventually"@, expr_text(a), type_text(ty), "Eventually("@);
    lemma_tuple("Next"@, expr_text(a), type_text(ty), "Next("@);
    lemma_tuple("Old"@, var_text(v), type_text(ty), "Old("@);
    lemma_tuple("RateOf"@, var_text(v), type_text(ty), "RateOf("@);
    lemma_tuple("Delta"@, var_text(v), type_text(ty), "Delta("@);
}

/// Constants, variables, domains, types and kinds in words.
pub proof fn law_words_of_simple_values(
    c: ConstValue,
    v: VarId,
    domain: Domain,
    ty: CirType,
    kind: TypeKind,
)
    ensures
        var_text(v) == tuple_words("VarId"@, seq![text::decimal(v.0 as nat)]),
        expr_text(Expr::Var(v)) == tuple_words("Var"@, seq![var_text(v)]),
        expr_text(Expr::Const(c)) == tuple_words("Const"@, seq![const_text(c)]),
        const_text(c) == match c {
            ConstValue::Real(x) => tuple_words("Real"@, seq![x.shortest@]),
            ConstValue::Integer(n) => tuple_words(
                "Integer"@,
                seq![text::signed_decimal(n as int)],
            ),
            ConstValue::Bool(b) => tuple_words(
                "Bool"@,
                seq![
                    if b {
                        "true"@
                    } else {
                        "false"@
                    },
                ],
            ),
        },
        domain_text(domain) == match domain {
            Domain::Enum(names) => tuple_words(
                "Enum"@,
                seq!["["@ + strings_text(names@, names@.len()) + "]"@],
            ),
            Domain::Interval { low, high } => struct_words(
                "Interval"@,
                seq![
                    ("low"@, text::signed_decimal(low as int)),
                    ("high"@, text::signed_decimal(high as int)),
                ],
            ),
            Domain::Array { size } => "Array { "@ + ("size"@ + ": "@ + text::decimal(
                size as nat,
            )) + " }"@,
        },
        type_text(ty) == struct_words(
            "CirType"@,
            seq![("kind"@, kind_text(ty.kind)), ("unit"@, unit_text(ty.unit))],
        ),
        kind is Real ==> kind_text(kind) == "Real"@,
        kind is Integer ==> kind_text(kind) == "Integer"@,
        kind is Boolean ==> kind_text(kind) == "Boolean"@,
        kind matches TypeKind::Enum(names) ==> kind_text(kind) == tuple_words(
            "Enum"@,
            seq!["["@ + strings_text(names@, names@.len()) + "]"@],
        ),
        kind matches TypeKind::Array { size, elem } ==> kind_text(kind) == struct_words(
            "Array"@,
            seq![("size"@, text::decimal(size as nat)), ("elem"@, kind_text(*elem))],
        ),
{
    let n = text::decimal(v.0 as nat);
    lemma_marks();
    lemma_tuple("VarId"@, n, n, "VarId("@);
    lemma_tuple("Var"@, var_text(v), n, "Var("@);
    lemma_tuple("Const"@, const_text(c), n, "Const("@);
    match c {
        ConstValue::Real(x) => lemma_tuple("Real"@, x.shortest@, n, "Real("@),
        ConstValue::Integer(k) => lemma_tuple(
            "Integer"@,
            text::signed_decimal(k as int),
            n,
            "Integer("@,
        ),
        ConstValue::Bool(b) => {
            lemma_tuple("Bool"@, "true"@, n, "Bool"@ + "("@);
            lemma_tuple("Bool"@, "false"@, n, "Bool"@ + "("@);
        },
    }
    match domain {
        Domain::Enum(names) => lemma_list_words(strings_text(names@, names@.len())),
        Domain::Interval { low, high } => {
            let (a, b) = (
                ("low"@, text::signed_decimal(low as int)),
                ("high"@, text::signed_decimal(high as int)),
            );
            lemma_struct_of_2("Interval"@, a, b, "Interval { low: "@, ", high: "@);
        },
        Domain::Array { size } => {
            assert(domain_text(domain) =~= "Array { "@ + ("size"@ + ": "@ + text::decimal(
                size as nat,
            )) + " }"@);
        },
    }
    let (a, b) = (("kind"@, kind_text(ty.kind)), ("unit"@, unit_text(ty.unit)));
    lemma_struct_of_2("CirType"@, a, b, "CirType { kind: "@, ", unit: "@);
    match kind {
        TypeKind::Enum(names) => lemma_list_words(strings_text(names@, names@.len())),
        TypeKind::Array { size, elem } => {
            let (a, b) = (("size"@, text::decimal(size as nat)), ("elem"@, kind_text(*elem)));
            lemma_struct_of_2("Array"@, a, b, "Array { size: "@, ", elem: "@);
        },
        _ => {},
    }
}

/// Names in brackets.
proof fn lemma_list_words(s: Seq<char>)
    ensures
        "Enum(["@ + s + "])"@ == tuple_words("Enum"@, seq!["["@ + s + "]"@]),
{
    lemma_marks();
    let inner = "["@ + s + "]"@;
    lemma_tuple("Enum"@, inner, inner, "Enum"@ + "("@);
    assert("Enum(["@ + s + "])"@ =~= "Enum"@ + "("@ + inner + ")"@);
}

/// Lists of texts in words: each is quoted.
pub proof fn law_quoted_texts_are_listed(strings: Seq<String>)
    ensures
        strings_text(strings, strings.len()) == listed(
            strings.map_values(|s: String| quoted(s@)),
        ),
    decreases strings.len(),
{
    lemma_quoted(strings, strings.len());
    assert(strings.take(strings.len() as int) =~= strings);
}

/// The first `n` texts.
proof fn lemma_quoted(strings: Seq<String>, n: nat)
    requires
        n <= strings.len(),
    ensures
        strings_text(strings, n) == listed(
            strings.take(n as int).map_values(|s: String| quoted(s@)),
        ),
    decreases n,
{
    let f = |s: String| quoted(s@);
    let now = strings.take(n as int).map_values(f);
    if n > 0 {
        lemma_quoted(strings, (n - 1) as nat);
        assert(now.drop_last() =~= strings.take(n - 1).map_values(f));
    }
}

/// The names of the operations.
pub proof fn law_names_of_operations(op: UnOp, on_two: BinOp)
    ensures
        unary_name(op) == match op {
            UnOp::Neg => "Neg"@,
            UnOp::Abs => "Abs"@,
            UnOp::Not => "Not"@,
        },
        binary_name(on_two) == match on_two {
            BinOp::Add => "Add"@,
            BinOp::Sub => "Sub"@,
            BinOp::Mul => "Mul"@,
            BinOp::Div => "Div"@,
            BinOp::Mod => "Mod"@,
            BinOp::Eq => "Eq"@,
            BinOp::Neq => "Neq"@,
            BinOp::Lt => "Lt"@,
            BinOp::Gt => "Gt"@,
            BinOp::Lte => "Lte"@,
            BinOp::Gte => "Gte"@,
            BinOp::And => "And"@,
            BinOp::Or => "Or"@,
            BinOp::Implies => "Implies"@,
        },
{
}


/// A term of a unit in words.
pub open spec fn term_words(term: (BaseDimension, i32)) -> Seq<char> {
    "("@ + dimension_name(term.0) + ", "@ + text::signed_decimal(term.1 as int) + ")"@
}

/// The first `n` terms.
proof fn lemma_terms_listed(terms: Seq<(BaseDimension, i32)>, n: nat)
    requires
        n <= terms.len(),
    ensures
        terms_text(terms, n) == listed(
            terms.take(n as int).map_values(|t: (BaseDimension, i32)| term_words(t)),
        ),
    decreases n,
{
    let f = |t: (BaseDimension, i32)| term_words(t);
    let now = terms.take(n as int).map_values(f);
    if n > 0 {
        lemma_terms_listed(terms, (n - 1) as nat);
        assert(now.drop_last() =~= terms.take(n - 1).map_values(f));
        assert(", ("@ =~= ", "@ + "("@) by {
            reveal_strlit(", (");
            reveal_strlit(", ");
            reveal_strlit("(");
        }
        let last = term_words(terms[n - 1]);
        if n == 1 {
            assert(terms_text(terms, 0) =~= Seq::empty());
            assert(terms_text(terms, 1) =~= last);
        } else {
            assert(terms_text(terms, n) =~= terms_text(terms, (n - 1) as nat) + ", "@ + last);
        }
    }
}

/// Units in words, as they are written and not normalized, with the names of the
/// dimensions.
pub proof fn law_words_of_units(unit: Unit, d: BaseDimension)
    ensures
        unit is Dimensionless ==> unit_text(unit) == "Dimensionless"@,
        unit matches Unit::Base(x, e) ==> unit_text(unit) == tuple_words(
            "Base"@,
            seq![dimension_name(x), text::signed_decimal(e as int)],
        ),
        unit matches Unit::Product(terms) ==> unit_text(unit) == "Product(["@ + listed(
            terms@.map_values(|t: (BaseDimension, i32)| term_words(t)),
        ) + "])"@,
        dimension_name(d) == match d {
            BaseDimension::Length => "Length"@,
            BaseDimension::Mass => "Mass"@,
            BaseDimension::Time => "Time"@,
            BaseDimension::Temperature => "Temperature"@,
            BaseDimension::Angle => "Angle"@,
            BaseDimension::Current => "Current"@,
            BaseDimension::Amount => "Amount"@,
        },
{
    match unit {
        Unit::Base(x, e) => {
            assert("Base("@ =~= "Base"@ + "("@) by {
                reveal_strlit("Base(");
                reveal_strlit("Base");
                reveal_strlit("(");
            }
            lemma_tuple("Base"@, dimension_name(x), text::signed_decimal(e as int), "Base("@);
        },
        Unit::Product(terms) => {
            lemma_terms_listed(terms@, terms@.len());
            assert(terms@.take(terms@.len() as int) =~= terms@);
        },
        _ => {},
    }
}

/// The first `n` fields.
proof fn lemma_fields_listed(entries: Seq<(String, TypeKind)>, n: nat)
    requires
        n <= entries.len(),
    ensures
        fields_text(entries, n) == listed(
            entries.take(n as int).map_values(
                |f: (String, TypeKind)| quoted(f.0@) + ": "@ + kind_text(f.1),
            ),
        ),
    decreases n,
{
    let f = |f: (String, TypeKind)| quoted(f.0@) + ": "@ + kind_text(f.1);
    let now = entries.take(n as int).map_values(f);
    if n > 0 {
        lemma_fields_listed(entries, (n - 1) as nat);
        assert(now.drop_last() =~= entries.take(n - 1).map_values(f));
        if n > 1 {
            assert(fields_text(entries, n) =~= fields_text(entries, (n - 1) as nat) + ", "@
                + now.last());
        }
    }
}

/// Records in words: their fields in order, each with its quoted name.
pub proof fn law_words_of_records(fields: RecordFields)
    ensures
        kind_text(TypeKind::Record { fields }) == "Record { fields: {"@ + listed(
            fields.entries@.map_values(
                |f: (String, TypeKind)| quoted(f.0@) + ": "@ + kind_text(f.1),
            ),
        ) + "} }"@,
{
    lemma_fields_listed(fields.entries@, fields.entries@.len());
    assert(fields.entries@.take(fields.entries@.len() as int) =~= fields.entries@);
}

/// The same texts in words.
proof fn lemma_same_strings(a: Seq<String>, b: Seq<String>, n: nat)
    requires
        cir::same_texts(a, b),
        n <= a.len(),
    ensures
        strings_text(a, n) == strings_text(b, n),
    decreases n,
{
    if n > 0 {
        lemma_same_strings(a, b, (n - 1) as nat);
        assert(a[n - 1]@ == b[n - 1]@);
        assert(a[0]@ == b[0]@);
    }
}

/// A copy of a kind has its text.
pub proof fn law_same_kinds_have_the_same_text(a: TypeKind, b: TypeKind)
    requires
        a.same(b),
    ensures
        kind_text(a) == kind_text(b),
    decreases a, 0nat,
{
    match (a, b) {
        (TypeKind::Enum(x), TypeKind::Enum(y)) => lemma_same_strings(x@, y@, x@.len()),
        (TypeKind::Array { size, elem }, TypeKind::Array { size: s, elem: e }) => {
            law_same_kinds_have_the_same_text(*elem, *e);
        },
        (TypeKind::Record { fields: x }, TypeKind::Record { fields: y }) => {
            lemma_same_fields(x, y, x.entries@.len());
        },
        _ => {},
    }
}

/// The first `n` fields of a copy have the same text.
proof fn lemma_same_fields(a: RecordFields, b: RecordFields, n: nat)
    requires
        a.same(b),
        n <= a.entries@.len(),
    ensures
        fields_text(a.entries@, n) == fields_text(b.entries@, n),
    decreases a, n,
{
    if n > 0 {
        lemma_same_fields(a, b, (n - 1) as nat);
        let (x, y) = (a.entries@, b.entries@);
        assert(x[n - 1].0@ == y[n - 1].0@ && x[n - 1].1.same(y[n - 1].1));
        assert(decreases_to!(a => a.entries));
        assert(decreases_to!(a.entries => a.entries@));
        assert(decreases_to!(x => x[n - 1]));
        assert(decreases_to!(x[n - 1] => x[n - 1].1));
        law_same_kinds_have_the_same_text(x[n - 1].1, y[n - 1].1);
    }
}

/// A copy of a type has its text.
pub proof fn law_same_types_have_the_same_text(a: CirType, b: CirType)
    requires
        a.same(b),
    ensures
        type_text(a) == type_text(b),
{
    law_same_kinds_have_the_same_text(a.kind, b.kind);
}

/// A copy of a domain has its text.
pub proof fn law_same_domains_have_the_same_text(a: Domain, b: Domain)
    requires
        a.same(b),
    ensures
        domain_text(a) == domain_text(b),
{
    match (a, b) {
        (Domain::Enum(x), Domain::Enum(y)) => lemma_same_strings(x@, y@, x@.len()),
        _ => {},
    }
}

/// A copy of an expression is the same in all its parts: it has the same text.
pub proof fn law_same_expressions_have_the_same_text(a: Expr, b: Expr)
    requires
        a.same(b),
    ensures
        expr_text(a) == expr_text(b),
    decreases a,
{
    if !(a is Const) && !(a is Var) {
        law_same_types_have_the_same_text(a.type_of(), b.type_of());
    }
    match (a, b) {
        (Expr::Unary { operand: x, .. }, Expr::Unary { operand: y, .. }) => {
            law_same_expressions_have_the_same_text(*x, *y);
        },
        (
            Expr::Binary { left: x, right: z, .. },
            Expr::Binary { left: y, right: w, .. },
        ) => {
            law_same_expressions_have_the_same_text(*x, *y);
            law_same_expressions_have_the_same_text(*z, *w);
        },
        (
            Expr::If { cond: x, then_branch: z, else_branch: u, .. },
            Expr::If { cond: y, then_branch: w, else_branch: v, .. },
        ) => {
            law_same_expressions_have_the_same_text(*x, *y);
            law_same_expressions_have_the_same_text(*z, *w);
            law_same_expressions_have_the_same_text(*u, *v);
        },
        (Expr::Index { index: x, .. }, Expr::Index { index: y, .. }) => {
            law_same_expressions_have_the_same_text(*x, *y);
        },
        (
            Expr::Forall { domain: d, body: x, .. },
            Expr::Forall { domain: e, body: y, .. },
        ) => {
            law_same_domains_have_the_same_text(d, e);
            law_same_expressions_have_the_same_text(*x, *y);
        },
        (
            Expr::Exists { domain: d, body: x, .. },
            Expr::Exists { domain: e, body: y, .. },
        ) => {
            law_same_domains_have_the_same_text(d, e);
            law_same_expressions_have_the_same_text(*x, *y);
        },
        (Expr::Always(x, _), Expr::Always(y, _)) => {
            law_same_expressions_have_the_same_text(*x, *y);
        },
        (Expr::Eventually(x, _), Expr::Eventually(y, _)) => {
            law_same_expressions_have_the_same_text(*x, *y);
        },
        (Expr::Next(x, _), Expr::Next(y, _)) => {
            law_same_expressions_have_the_same_text(*x, *y);
        },
        (
            Expr::Until { left: x, right: z, .. },
            Expr::Until { left: y, right: w, .. },
        ) => {
            law_same_expressions_have_the_same_text(*x, *y);
            law_same_expressions_have_the_same_text(*z, *w);
        },
        (
            Expr::Since { left: x, right: z, .. },
            Expr::Since { left: y, right: w, .. },
        ) => {
            law_same_expressions_have_the_same_text(*x, *y);
            law_same_expressions_have_the_same_text(*z, *w);
        },
        (Expr::For { body: x, .. }, Expr::For { body: y, .. }) => {
            law_same_expressions_have_the_same_text(*x, *y);
        },
        (Expr::After { body: x, .. }, Expr::After { body: y, .. }) => {
            law_same_expressions_have_the_same_text(*x, *y);
        },
        _ => {},
    }
}

} // verus!
