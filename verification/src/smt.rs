//! SMT-LIB emission.

use crate::cir::BinOp;
use crate::cir::CirType;
use crate::cir::ConstValue;
use crate::cir::Expr;
use crate::cir::SymbolTable;
use crate::cir::UnOp;
use crate::debug;
use crate::error::GuardError;
use crate::error::GuardErrorView;
use crate::error::Result;
use crate::text;
use vstd::prelude::*;

verus! {

/// Whether the expression holds a real constant. Temporal operators and
/// accesses are not looked into.
pub open spec fn holds_real(e: Expr) -> bool
    decreases e,
{
    match e {
        Expr::Const(ConstValue::Real(_)) => true,
        Expr::Unary { op, operand, ty } => holds_real(*operand),
        Expr::Binary { op, left, right, ty } => holds_real(*left) || holds_real(*right),
        Expr::If { cond, then_branch, else_branch, ty } => holds_real(*cond) || holds_real(
            *then_branch,
        ) || holds_real(*else_branch),
        Expr::Forall { var, domain, body, ty } => holds_real(*body),
        Expr::Exists { var, domain, body, ty } => holds_real(*body),
        _ => false,
    }
}

/// Whether the expression holds an integer constant. Temporal operators and
/// accesses are not looked into.
pub open spec fn holds_integer(e: Expr) -> bool
    decreases e,
{
    match e {
        Expr::Const(ConstValue::Integer(_)) => true,
        Expr::Unary { op, operand, ty } => holds_integer(*operand),
        Expr::Binary { op, left, right, ty } => holds_integer(*left) || holds_integer(*right),
        Expr::If { cond, then_branch, else_branch, ty } => holds_integer(*cond) || holds_integer(
            *then_branch,
        ) || holds_integer(*else_branch),
        Expr::Forall { var, domain, body, ty } => holds_integer(*body),
        Expr::Exists { var, domain, body, ty } => holds_integer(*body),
        _ => false,
    }
}

/// The logic of a formula.
pub open spec fn logic(e: Expr) -> Seq<char> {
    if holds_real(e) {
        "QF_LRA"@
    } else if holds_integer(e) {
        "QF_LIA"@
    } else {
        "QF_BV"@
    }
}

/// The symbol of a unary operation.
pub open spec fn unary_symbol(op: UnOp) -> Seq<char> {
    match op {
        UnOp::Neg => "-"@,
        UnOp::Abs => "abs"@,
        UnOp::Not => "not"@,
    }
}

/// The symbol of a binary operation.
pub open spec fn binary_symbol(op: BinOp) -> Seq<char> {
    match op {
        BinOp::Add => "+"@,
        BinOp::Sub => "-"@,
        BinOp::Mul => "*"@,
        BinOp::Div => "/"@,
        BinOp::Mod => "mod"@,
        BinOp::Eq => "="@,
        BinOp::Neq => "distinct"@,
        BinOp::Lt => "<"@,
        BinOp::Gt => ">"@,
        BinOp::Lte => "<="@,
        BinOp::Gte => ">="@,
        BinOp::And => "and"@,
        BinOp::Or => "or"@,
        BinOp::Implies => "=>"@,
    }
}

/// A number without a sign, or the unary minus of one: numerals have no sign.
pub open spec fn signed(numeral: Seq<char>) -> Seq<char> {
    if numeral.len() > 0 && numeral[0] == '-' {
        "(- "@ + numeral.skip(1) + ")"@
    } else {
        numeral
    }
}

/// The text of a constant.
pub open spec fn constant(c: ConstValue) -> Seq<char> {
    match c {
        ConstValue::Real(v) => signed(v.fixed@),
        ConstValue::Integer(v) => if v < 0 {
            "(- "@ + text::decimal((-v) as nat) + ")"@
        } else {
            text::decimal(v as nat)
        },
        ConstValue::Bool(b) => if b {
            "true"@
        } else {
            "false"@
        },
    }
}

/// The formula of an expression, or the error for the first part of it, from
/// the left, that has none.
pub open spec fn formula(e: Expr) -> core::result::Result<Seq<char>, GuardErrorView>
    decreases e,
{
    match e {
        Expr::Const(c) => Ok(constant(c)),
        Expr::Var(v) => Ok("v"@ + text::decimal(v.0 as nat)),
        Expr::Unary { op, operand, ty } => match formula(*operand) {
            Ok(a) => Ok("("@ + unary_symbol(op) + " "@ + a + ")"@),
            failed => failed,
        },
        Expr::Binary { op, left, right, ty } => match formula(*left) {
            Ok(a) => match formula(*right) {
                Ok(b) => Ok("("@ + binary_symbol(op) + " "@ + a + " "@ + b + ")"@),
                failed => failed,
            },
            failed => failed,
        },
        Expr::If { cond, then_branch, else_branch, ty } => match formula(*cond) {
            Ok(a) => match formula(*then_branch) {
                Ok(b) => match formula(*else_branch) {
                    Ok(c) => Ok("(ite "@ + a + " "@ + b + " "@ + c + ")"@),
                    failed => failed,
                },
                failed => failed,
            },
            failed => failed,
        },
        Expr::Forall { var, domain, body, ty } => match formula(*body) {
            Ok(a) => Ok("(forall ((v"@ + text::decimal(var.0 as nat) + " Int)) "@ + a + ")"@),
            failed => failed,
        },
        Expr::Exists { var, domain, body, ty } => match formula(*body) {
            Ok(a) => Ok("(exists ((v"@ + text::decimal(var.0 as nat) + " Int)) "@ + a + ")"@),
            failed => failed,
        },
        _ => Err(
            GuardErrorView::ProofFailed {
                obligation: "smt"@,
                reason: "unsupported expr variant for SMT: "@ + debug::expr_text(e),
            },
        ),
    }
}

/// A text or an error, as views.
pub open spec fn text_outcome(r: Result<String>) -> core::result::Result<
    Seq<char>,
    GuardErrorView,
> {
    match r {
        Ok(s) => Ok(s@),
        Err(e) => Err(e@),
    }
}

/// The logic in which a formula is stated.
pub fn select_logic(expr: &Expr) -> (s: String)
    ensures
        s@ == logic(*expr),
{
    // Simple heuristic based on expression structure.
    if has_reals(expr) {
        "QF_LRA".to_owned()  // Quantifier-Free Linear Real Arithmetic
    } else if has_integers(expr) {
        "QF_LIA".to_owned()
    } else {
        "QF_BV".to_owned()  // Bit-vectors as fallback
    }
}

/// Whether the expression holds a real constant.
pub fn has_reals(expr: &Expr) -> (b: bool)
    ensures
        b == holds_real(*expr),
    decreases expr,
{
    match expr {
        Expr::Const(ConstValue::Real(_)) => true,
        Expr::Unary { operand, .. } => has_reals(operand),
        Expr::Binary { left, right, .. } => has_reals(left) || has_reals(right),
        Expr::If { cond, then_branch, else_branch, .. } => has_reals(cond) || has_reals(
            then_branch,
        ) || has_reals(else_branch),
        Expr::Forall { body, .. } => has_reals(body),
        Expr::Exists { body, .. } => has_reals(body),
        _ => false,
    }
}

/// Whether the expression holds an integer constant.
pub fn has_integers(expr: &Expr) -> (b: bool)
    ensures
        b == holds_integer(*expr),
    decreases expr,
{
    match expr {
        Expr::Const(ConstValue::Integer(_)) => true,
        Expr::Unary { operand, .. } => has_integers(operand),
        Expr::Binary { left, right, .. } => has_integers(left) || has_integers(right),
        Expr::If { cond, then_branch, else_branch, .. } => has_integers(cond) || has_integers(
            then_branch,
        ) || has_integers(else_branch),
        Expr::Forall { body, .. } => has_integers(body),
        Expr::Exists { body, .. } => has_integers(body),
        _ => false,
    }
}

/// The symbol of a unary operation.
fn unary_text(op: UnOp) -> (s: &'static str)
    ensures
        s@ == unary_symbol(op),
{
    match op {
        UnOp::Neg => "-",
        UnOp::Abs => "abs",
        UnOp::Not => "not",
    }
}

/// The symbol of a binary operation.
fn binary_text(op: BinOp) -> (s: &'static str)
    ensures
        s@ == binary_symbol(op),
{
    match op {
        BinOp::Add => "+",
        BinOp::Sub => "-",
        BinOp::Mul => "*",
        BinOp::Div => "/",
        BinOp::Mod => "mod",
        BinOp::Eq => "=",
        BinOp::Neq => "distinct",
        BinOp::Lt => "<",
        BinOp::Gt => ">",
        BinOp::Lte => "<=",
        BinOp::Gte => ">=",
        BinOp::And => "and",
        BinOp::Or => "or",
        BinOp::Implies => "=>",
    }
}

/// The formula of an expression in SMT-LIB format.
pub fn expr_to_smt(expr: &Expr, _symtab: &SymbolTable) -> (r: Result<String>)
    ensures
        text_outcome(r) == formula(*expr),
{
    to_formula(expr)
}

/// A numeral that may have a minus sign before it, as a term.
fn signed_text(numeral: &str) -> (s: String)
    ensures
        s@ == signed(numeral@),
{
    let count: usize = numeral.unicode_len();
    if count == 0 || numeral.get_char(0) != '-' {
        return numeral.to_owned();
    }
    let mut s: String = "(- ".to_owned();
    let mut i: usize = 1;
    while i < count
        invariant
            1 <= i <= count == numeral@.len(),
            s@ == "(- "@ + numeral@.subrange(1, i as int),
        decreases count - i,
    {
        s.push(numeral.get_char(i));
        assert(s@ =~= "(- "@ + numeral@.subrange(1, i + 1));
        i += 1;
    }
    assert(numeral@.subrange(1, count as int) =~= numeral@.skip(1));
    s.push_str(")");
    s
}

/// The first character of a numeral is a digit, and that of a negative number a
/// minus sign.
proof fn lemma_signed_decimal(n: int)
    ensures
        signed(text::signed_decimal(n)) == if n < 0 {
            "(- "@ + text::decimal((-n) as nat) + ")"@
        } else {
            text::decimal(n as nat)
        },
{
    if n < 0 {
        assert(text::signed_decimal(n).skip(1) =~= text::decimal((-n) as nat));
    } else {
        lemma_starts_with_digit(n as nat);
    }
}

/// A numeral has no sign.
proof fn lemma_starts_with_digit(n: nat)
    ensures
        text::decimal(n).len() > 0,
        text::decimal(n)[0] != '-',
    decreases n,
{
    if n >= 10 {
        lemma_starts_with_digit(n / 10);
    }
}

/// The formula of an expression.
fn to_formula(expr: &Expr) -> (r: Result<String>)
    ensures
        text_outcome(r) == formula(*expr),
    decreases expr,
{
    match expr {
        Expr::Const(c) => match c {
            ConstValue::Real(v) => Ok(signed_text(v.fixed.as_str())),
            ConstValue::Integer(v) => {
                let mut s: String = String::new();
                text::push_signed_decimal(&mut s, *v);
                assert(s@ =~= text::signed_decimal(*v as int));
                proof {
                    lemma_signed_decimal(*v as int);
                }
                Ok(signed_text(s.as_str()))
            },
            ConstValue::Bool(b) => if *b {
                Ok("true".to_owned())
            } else {
                Ok("false".to_owned())
            },
        },
        Expr::Var(v) => {
            let mut s: String = "v".to_owned();
            text::push_decimal(&mut s, v.0 as u64);
            Ok(s)
        },
        Expr::Unary { op, operand, .. } => match to_formula(operand) {
            Ok(a) => {
                let mut s: String = "(".to_owned();
                s.push_str(unary_text(*op));
                s.push_str(" ");
                s.push_str(a.as_str());
                s.push_str(")");
                Ok(s)
            },
            failed => failed,
        },
        Expr::Binary { op, left, right, .. } => match to_formula(left) {
            Ok(a) => match to_formula(right) {
                Ok(b) => {
                    let mut s: String = "(".to_owned();
                    s.push_str(binary_text(*op));
                    s.push_str(" ");
                    s.push_str(a.as_str());
                    s.push_str(" ");
                    s.push_str(b.as_str());
                    s.push_str(")");
                    Ok(s)
                },
                failed => failed,
            },
            failed => failed,
        },
        Expr::If { cond, then_branch, else_branch, .. } => match to_formula(cond) {
            Ok(a) => match to_formula(then_branch) {
                Ok(b) => match to_formula(else_branch) {
                    Ok(c) => {
                        let mut s: String = "(ite ".to_owned();
                        s.push_str(a.as_str());
                        s.push_str(" ");
                        s.push_str(b.as_str());
                        s.push_str(" ");
                        s.push_str(c.as_str());
                        s.push_str(")");
                        Ok(s)
                    },
                    failed => failed,
                },
                failed => failed,
            },
            failed => failed,
        },
        Expr::Forall { var, body, .. } => match to_formula(body) {
            Ok(a) => {
                let mut s: String = "(forall ((v".to_owned();
                text::push_decimal(&mut s, var.0 as u64);
                s.push_str(" Int)) ");
                s.push_str(a.as_str());
                s.push_str(")");
                Ok(s)
            },
            failed => failed,
        },
        Expr::Exists { var, body, .. } => match to_formula(body) {
            Ok(a) => {
                let mut s: String = "(exists ((v".to_owned();
                text::push_decimal(&mut s, var.0 as u64);
                s.push_str(" Int)) ");
                s.push_str(a.as_str());
                s.push_str(")");
                Ok(s)
            },
            failed => failed,
        },
        _ => {
            let mut reason: String = "unsupported expr variant for SMT: ".to_owned();
            reason.push_str(debug::expr_debug(expr).as_str());
            Err(GuardError::ProofFailed { obligation: "smt".to_owned(), reason })
        },
    }
}

// ---------------------------------------------------------------------------
// Laws
// ---------------------------------------------------------------------------

/// The number of parentheses that are open after `s` is read from the place `i`
/// on, if `open` were open before it; -1 if one is closed that was not open.
pub open spec fn open_after(s: Seq<char>, i: int, open: int) -> int
    decreases s.len() - i,
{
    if open < 0 {
        -1
    } else if i < 0 || i >= s.len() {
        open
    } else if s[i] == '(' {
        open_after(s, i + 1, open + 1)
    } else if s[i] == ')' {
        open_after(s, i + 1, open - 1)
    } else {
        open_after(s, i + 1, open)
    }
}

/// Every parenthesis has its counterpart.
pub open spec fn well_nested(s: Seq<char>) -> bool {
    open_after(s, 0, 0) == 0
}

/// There are no parentheses.
pub open spec fn flat(s: Seq<char>) -> bool {
    forall|i: int| 0 <= i < s.len() ==> #[trigger] s[i] != '(' && s[i] != ')'
}

/// The texts of real constants have no parentheses.
pub open spec fn flat_literals(e: Expr) -> bool
    decreases e,
{
    match e {
        Expr::Const(ConstValue::Real(v)) => flat(v.fixed@),
        Expr::Unary { op, operand, ty } => flat_literals(*operand),
        Expr::Binary { op, left, right, ty } => flat_literals(*left) && flat_literals(*right),
        Expr::If { cond, then_branch, else_branch, ty } => flat_literals(*cond) && flat_literals(
            *then_branch,
        ) && flat_literals(*else_branch),
        Expr::Forall { var, domain, body, ty } => flat_literals(*body),
        Expr::Exists { var, domain, body, ty } => flat_literals(*body),
        _ => true,
    }
}

/// The second of two texts is read where the first ends.
proof fn lemma_read_on(a: Seq<char>, b: Seq<char>, j: int, open: int)
    requires
        0 <= j,
    ensures
        open_after(a + b, a.len() + j, open) == open_after(b, j, open),
    decreases b.len() - j,
{
    if 0 <= open && j < b.len() {
        assert((a + b)[a.len() + j] == b[j]);
        lemma_read_on(a, b, j + 1, open + 1);
        lemma_read_on(a, b, j + 1, open - 1);
        lemma_read_on(a, b, j + 1, open);
    }
}

/// Two texts are read one after the other.
proof fn lemma_read_both(a: Seq<char>, b: Seq<char>, i: int, open: int)
    requires
        0 <= i <= a.len(),
    ensures
        open_after(a + b, i, open) == open_after(b, 0, open_after(a, i, open)),
    decreases a.len() - i,
{
    if i == a.len() {
        lemma_read_on(a, b, 0, open);
    } else if 0 <= open {
        assert((a + b)[i] == a[i]);
        lemma_read_both(a, b, i + 1, open + 1);
        lemma_read_both(a, b, i + 1, open - 1);
        lemma_read_both(a, b, i + 1, open);
    }
}

/// Parentheses that were open before a text stay open under it.
proof fn lemma_lift(s: Seq<char>, i: int, open: int, more: int)
    requires
        0 <= more,
        open_after(s, i, open) >= 0,
    ensures
        open_after(s, i, open + more) == open_after(s, i, open) + more,
    decreases s.len() - i,
{
    if 0 <= i < s.len() {
        if s[i] == '(' {
            lemma_lift(s, i + 1, open + 1, more);
        } else if s[i] == ')' {
            lemma_lift(s, i + 1, open - 1, more);
        } else {
            lemma_lift(s, i + 1, open, more);
        }
    }
}

/// A text without parentheses opens and closes none.
proof fn lemma_flat(s: Seq<char>, i: int, open: int)
    requires
        flat(s),
        0 <= i <= s.len(),
        0 <= open,
    ensures
        open_after(s, i, open) == open,
    decreases s.len() - i,
{
    if i < s.len() {
        lemma_flat(s, i + 1, open);
    }
}

/// Numerals have no parentheses.
proof fn lemma_numeral_flat(n: nat)
    ensures
        flat(text::decimal(n)),
    decreases n,
{
    if n >= 10 {
        lemma_numeral_flat(n / 10);
    }
}

/// One more part, flat or well nested.
proof fn lemma_append(s: Seq<char>, part: Seq<char>)
    requires
        open_after(s, 0, 0) >= 0,
        flat(part) || well_nested(part),
    ensures
        open_after(s + part, 0, 0) == open_after(s, 0, 0),
{
    lemma_read_both(s, part, 0, 0);
    if flat(part) {
        lemma_flat(part, 0, open_after(s, 0, 0));
    } else {
        lemma_lift(part, 0, 0, open_after(s, 0, 0));
    }
}

/// A closing parenthesis.
proof fn lemma_close(s: Seq<char>)
    requires
        open_after(s, 0, 0) == 1,
    ensures
        well_nested(s + ")"@),
{
    reveal_strlit(")");
    reveal_with_fuel(open_after, 2);
    lemma_read_both(s, ")"@, 0, 0);
}

/// The symbols and the words between them have no parentheses.
proof fn lemma_symbols(u: UnOp, b: BinOp)
    ensures
        flat(unary_symbol(u)),
        flat(binary_symbol(b)),
        flat(" "@),
        flat("v"@),
        flat("true"@),
        flat("false"@),
        open_after("("@, 0, 0) == 1,
{
    reveal_strlit("-");
    reveal_strlit("abs");
    reveal_strlit("not");
    reveal_strlit("+");
    reveal_strlit("*");
    reveal_strlit("/");
    reveal_strlit("mod");
    reveal_strlit("=");
    reveal_strlit("distinct");
    reveal_strlit("<");
    reveal_strlit(">");
    reveal_strlit("<=");
    reveal_strlit(">=");
    reveal_strlit("and");
    reveal_strlit("or");
    reveal_strlit("=>");
    reveal_strlit(" ");
    reveal_strlit("v");
    reveal_strlit("true");
    reveal_strlit("false");
    reveal_strlit("(");
    reveal_with_fuel(open_after, 2);
}

/// A formula in parentheses with one argument.
proof fn lemma_wrap(symbol: Seq<char>, a: Seq<char>)
    requires
        flat(symbol),
        well_nested(a),
    ensures
        open_after("("@ + symbol + " "@ + a, 0, 0) == 1,
{
    lemma_symbols(UnOp::Neg, BinOp::Add);
    lemma_append("("@, symbol);
    lemma_append("("@ + symbol, " "@);
    lemma_append("("@ + symbol + " "@, a);
}

/// The unary minus of a numeral.
proof fn lemma_minus(numeral: Seq<char>)
    requires
        flat(numeral),
    ensures
        well_nested("(- "@ + numeral + ")"@),
{
    assert(open_after("(- "@, 0, 0) == 1) by {
        reveal_strlit("(- ");
        reveal_with_fuel(open_after, 4);
    }
    lemma_append("(- "@, numeral);
    lemma_close("(- "@ + numeral);
}

/// A quantified formula.
proof fn lemma_quantified(head: Seq<char>, var: nat, a: Seq<char>)
    requires
        open_after(head, 0, 0) == 3,
        well_nested(a),
    ensures
        well_nested(head + text::decimal(var) + " Int)) "@ + a + ")"@),
{
    let start = head + text::decimal(var);
    lemma_numeral_flat(var);
    lemma_append(head, text::decimal(var));
    reveal_strlit(" Int)) ");
    reveal_with_fuel(open_after, 8);
    lemma_read_both(start, " Int)) "@, 0, 0);
    assert(open_after(" Int)) "@, 0, 3) == 1);
    lemma_append(start + " Int)) "@, a);
    lemma_close(start + " Int)) "@ + a);
}

/// Every parenthesis of a formula has its counterpart.
pub proof fn law_formulas_are_well_nested(e: Expr)
    requires
        flat_literals(e),
        formula(e) is Ok,
    ensures
        well_nested(formula(e)->Ok_0),
    decreases e,
{
    match e {
        Expr::Const(c) => {
            lemma_symbols(UnOp::Neg, BinOp::Add);
            match c {
                ConstValue::Integer(v) => if v < 0 {
                    lemma_numeral_flat((-v) as nat);
                    lemma_minus(text::decimal((-v) as nat));
                } else {
                    lemma_numeral_flat(v as nat);
                    lemma_flat(constant(c), 0, 0);
                },
                ConstValue::Real(v) => if signed(v.fixed@) != v.fixed@ {
                    lemma_minus(v.fixed@.skip(1));
                } else {
                    lemma_flat(constant(c), 0, 0);
                },
                ConstValue::Bool(_) => lemma_flat(constant(c), 0, 0),
            }
        },
        Expr::Var(v) => {
            lemma_symbols(UnOp::Neg, BinOp::Add);
            lemma_numeral_flat(v.0 as nat);
            lemma_flat("v"@ + text::decimal(v.0 as nat), 0, 0);
        },
        Expr::Unary { op, operand, ty } => {
            let a = formula(*operand)->Ok_0;
            law_formulas_are_well_nested(*operand);
            lemma_symbols(op, BinOp::Add);
            lemma_wrap(unary_symbol(op), a);
            lemma_close("("@ + unary_symbol(op) + " "@ + a);
        },
        Expr::Binary { op, left, right, ty } => {
            let (a, b) = (formula(*left)->Ok_0, formula(*right)->Ok_0);
            law_formulas_are_well_nested(*left);
            law_formulas_are_well_nested(*right);
            lemma_symbols(UnOp::Neg, op);
            let start = "("@ + binary_symbol(op) + " "@ + a;
            lemma_wrap(binary_symbol(op), a);
            lemma_append(start, " "@);
            lemma_append(start + " "@, b);
            lemma_close(start + " "@ + b);
        },
        Expr::If { cond, then_branch, else_branch, ty } => {
            let (a, b, c) = (
                formula(*cond)->Ok_0,
                formula(*then_branch)->Ok_0,
                formula(*else_branch)->Ok_0,
            );
            law_formulas_are_well_nested(*cond);
            law_formulas_are_well_nested(*then_branch);
            law_formulas_are_well_nested(*else_branch);
            lemma_symbols(UnOp::Neg, BinOp::Add);
            let head = "(ite "@;
            assert(open_after(head, 0, 0) == 1) by {
                reveal_strlit("(ite ");
                reveal_with_fuel(open_after, 6);
            }
            lemma_append(head, a);
            lemma_append(head + a, " "@);
            lemma_append(head + a + " "@, b);
            lemma_append(head + a + " "@ + b, " "@);
            lemma_append(head + a + " "@ + b + " "@, c);
            lemma_close(head + a + " "@ + b + " "@ + c);
        },
        Expr::Forall { var, domain, body, ty } => {
            law_formulas_are_well_nested(*body);
            assert(open_after("(forall ((v"@, 0, 0) == 3) by {
                reveal_strlit("(forall ((v");
                reveal_with_fuel(open_after, 12);
            }
            lemma_quantified("(forall ((v"@, var.0 as nat, formula(*body)->Ok_0);
        },
        Expr::Exists { var, domain, body, ty } => {
            law_formulas_are_well_nested(*body);
            assert(open_after("(exists ((v"@, 0, 0) == 3) by {
                reveal_strlit("(exists ((v");
                reveal_with_fuel(open_after, 12);
            }
            lemma_quantified("(exists ((v"@, var.0 as nat, formula(*body)->Ok_0);
        },
        _ => {},
    }
}

/// The number of opening parentheses in a text.
pub open spec fn parens(s: Seq<char>) -> nat
    decreases s.len(),
{
    if s.len() == 0 {
        0
    } else {
        parens(s.drop_last()) + if s.last() == '(' {
            1nat
        } else {
            0nat
        }
    }
}

/// The number of parts of an expression that are written in parentheses: each
/// operation and each minus sign once, each quantifier three times.
pub open spec fn enclosed(e: Expr) -> nat
    decreases e,
{
    match e {
        Expr::Const(c) => match c {
            ConstValue::Integer(v) => if v < 0 {
                1
            } else {
                0
            },
            ConstValue::Real(v) => if v.fixed@.len() > 0 && v.fixed@[0] == '-' {
                1
            } else {
                0
            },
            ConstValue::Bool(_) => 0,
        },
        Expr::Unary { op, operand, ty } => enclosed(*operand) + 1,
        Expr::Binary { op, left, right, ty } => enclosed(*left) + enclosed(*right) + 1,
        Expr::If { cond, then_branch, else_branch, ty } => enclosed(*cond) + enclosed(
            *then_branch,
        ) + enclosed(*else_branch) + 1,
        Expr::Forall { var, domain, body, ty } => enclosed(*body) + 3,
        Expr::Exists { var, domain, body, ty } => enclosed(*body) + 3,
        _ => 0,
    }
}

/// The parentheses of two texts.
proof fn lemma_parens_add(a: Seq<char>, b: Seq<char>)
    ensures
        parens(a + b) == parens(a) + parens(b),
    decreases b.len(),
{
    if b.len() == 0 {
        assert(a + b =~= a);
    } else {
        lemma_parens_add(a, b.drop_last());
        assert((a + b).drop_last() =~= a + b.drop_last());
    }
}

/// A flat text has no parentheses.
proof fn lemma_parens_flat(s: Seq<char>)
    requires
        flat(s),
    ensures
        parens(s) == 0,
    decreases s.len(),
{
    if s.len() > 0 {
        lemma_parens_flat(s.drop_last());
    }
}

/// The parentheses of the words around a formula's parts.
proof fn lemma_parens_words()
    ensures
        parens("("@) == 1,
        parens(")"@) == 0,
        parens(" "@) == 0,
        parens("(- "@) == 1,
        parens("(ite "@) == 1,
        parens(" Int)) "@) == 0,
        parens("(forall ((v"@) == 3,
        parens("(exists ((v"@) == 3,
{
    reveal_strlit("(");
    reveal_strlit(")");
    reveal_strlit(" ");
    reveal_strlit("(- ");
    reveal_strlit("(ite ");
    reveal_strlit(" Int)) ");
    reveal_strlit("(forall ((v");
    reveal_strlit("(exists ((v");
    reveal_with_fuel(parens, 12);
}

/// The number of parentheses that a formula opens: one for each operation and each
/// minus sign, and three for each quantifier.
pub proof fn law_parentheses_of_a_formula(e: Expr)
    requires
        flat_literals(e),
        formula(e) is Ok,
    ensures
        parens(formula(e)->Ok_0) == enclosed(e),
    decreases e,
{
    lemma_parens_words();
    match e {
        Expr::Const(c) => {
            lemma_symbols(UnOp::Neg, BinOp::Add);
            match c {
                ConstValue::Integer(v) => if v < 0 {
                    lemma_parens_minus(text::decimal((-v) as nat), (-v) as nat);
                } else {
                    lemma_numeral_flat(v as nat);
                    lemma_parens_flat(text::decimal(v as nat));
                },
                ConstValue::Real(v) => if v.fixed@.len() > 0 && v.fixed@[0] == '-' {
                    let rest = v.fixed@.skip(1);
                    lemma_parens_flat(rest);
                    lemma_parens_add("(- "@, rest);
                    lemma_parens_add("(- "@ + rest, ")"@);
                } else {
                    lemma_parens_flat(v.fixed@);
                },
                ConstValue::Bool(_) => lemma_parens_flat(constant(c)),
            }
        },
        Expr::Var(v) => {
            lemma_symbols(UnOp::Neg, BinOp::Add);
            lemma_numeral_flat(v.0 as nat);
            lemma_parens_flat("v"@ + text::decimal(v.0 as nat));
        },
        Expr::Unary { op, operand, ty } => {
            let (symbol, a) = (unary_symbol(op), formula(*operand)->Ok_0);
            law_parentheses_of_a_formula(*operand);
            lemma_symbols(op, BinOp::Add);
            lemma_parens_flat(symbol);
            lemma_parens_add("("@, symbol);
            lemma_parens_add("("@ + symbol, " "@);
            lemma_parens_add("("@ + symbol + " "@, a);
            lemma_parens_add("("@ + symbol + " "@ + a, ")"@);
        },
        Expr::Binary { op, left, right, ty } => {
            let (symbol, a, b) = (
                binary_symbol(op),
                formula(*left)->Ok_0,
                formula(*right)->Ok_0,
            );
            law_parentheses_of_a_formula(*left);
            law_parentheses_of_a_formula(*right);
            lemma_symbols(UnOp::Neg, op);
            lemma_parens_flat(symbol);
            lemma_parens_add("("@, symbol);
            lemma_parens_add("("@ + symbol, " "@);
            lemma_parens_add("("@ + symbol + " "@, a);
            let start = "("@ + symbol + " "@ + a;
            lemma_parens_add(start, " "@);
            lemma_parens_add(start + " "@, b);
            lemma_parens_add(start + " "@ + b, ")"@);
        },
        Expr::If { cond, then_branch, else_branch, ty } => {
            let (a, b, c) = (
                formula(*cond)->Ok_0,
                formula(*then_branch)->Ok_0,
                formula(*else_branch)->Ok_0,
            );
            law_parentheses_of_a_formula(*cond);
            law_parentheses_of_a_formula(*then_branch);
            law_parentheses_of_a_formula(*else_branch);
            let head = "(ite "@;
            lemma_parens_add(head, a);
            lemma_parens_add(head + a, " "@);
            lemma_parens_add(head + a + " "@, b);
            lemma_parens_add(head + a + " "@ + b, " "@);
            lemma_parens_add(head + a + " "@ + b + " "@, c);
            lemma_parens_add(head + a + " "@ + b + " "@ + c, ")"@);
        },
        Expr::Forall { var, domain, body, ty } => {
            law_parentheses_of_a_formula(*body);
            lemma_parens_quantified("(forall ((v"@, var.0 as nat, formula(*body)->Ok_0);
        },
        Expr::Exists { var, domain, body, ty } => {
            law_parentheses_of_a_formula(*body);
            lemma_parens_quantified("(exists ((v"@, var.0 as nat, formula(*body)->Ok_0);
        },
        _ => {},
    }
}

/// The parentheses of the unary minus of a numeral.
proof fn lemma_parens_minus(numeral: Seq<char>, n: nat)
    requires
        numeral == text::decimal(n),
    ensures
        parens("(- "@ + numeral + ")"@) == 1,
{
    lemma_parens_words();
    lemma_numeral_flat(n);
    lemma_parens_flat(numeral);
    lemma_parens_add("(- "@, numeral);
    lemma_parens_add("(- "@ + numeral, ")"@);
}

/// The parentheses of a quantified formula.
proof fn lemma_parens_quantified(head: Seq<char>, var: nat, a: Seq<char>)
    ensures
        parens(head + text::decimal(var) + " Int)) "@ + a + ")"@) == parens(head) + parens(a),
{
    lemma_parens_words();
    lemma_numeral_flat(var);
    lemma_parens_flat(text::decimal(var));
    let start = head + text::decimal(var);
    lemma_parens_add(head, text::decimal(var));
    lemma_parens_add(start, " Int)) "@);
    lemma_parens_add(start + " Int)) "@, a);
    lemma_parens_add(start + " Int)) "@ + a, ")"@);
}

/// The second expression is the first one, or a part of it below operations,
/// conditionals and quantifiers.
pub open spec fn is_part(e: Expr, part: Expr) -> bool
    decreases e,
{
    e == part || match e {
        Expr::Unary { op, operand, ty } => is_part(*operand, part),
        Expr::Binary { op, left, right, ty } => is_part(*left, part) || is_part(*right, part),
        Expr::If { cond, then_branch, else_branch, ty } => is_part(*cond, part) || is_part(
            *then_branch,
            part,
        ) || is_part(*else_branch, part),
        Expr::Forall { var, domain, body, ty } => is_part(*body, part),
        Expr::Exists { var, domain, body, ty } => is_part(*body, part),
        _ => false,
    }
}

/// Formulas are made of constants, variables, operations, conditionals and
/// quantifiers.
pub open spec fn is_logical(e: Expr) -> bool {
    e is Const || e is Var || e is Unary || e is Binary || e is If || e is Forall || e is Exists
}

/// The parts of an expression are those of its operands.
proof fn lemma_parts(e: Expr, inner: Expr)
    requires
        match e {
            Expr::Unary { op, operand, ty } => inner == *operand,
            Expr::Binary { op, left, right, ty } => inner == *left || inner == *right,
            Expr::If { cond, then_branch, else_branch, ty } => inner == *cond || inner
                == *then_branch || inner == *else_branch,
            Expr::Forall { var, domain, body, ty } => inner == *body,
            Expr::Exists { var, domain, body, ty } => inner == *body,
            _ => false,
        },
    ensures
        forall|x: Expr| #[trigger] is_part(inner, x) ==> is_part(e, x),
        is_part(inner, inner),
{
}

/// A part of an expression is the expression or a part of an operand.
proof fn lemma_split(e: Expr)
    ensures
        forall|x: Expr| #[trigger]
            is_part(e, x) ==> x == e || match e {
                Expr::Unary { op, operand, ty } => is_part(*operand, x),
                Expr::Binary { op, left, right, ty } => is_part(*left, x) || is_part(*right, x),
                Expr::If { cond, then_branch, else_branch, ty } => is_part(*cond, x) || is_part(
                    *then_branch,
                    x,
                ) || is_part(*else_branch, x),
                Expr::Forall { var, domain, body, ty } => is_part(*body, x),
                Expr::Exists { var, domain, body, ty } => is_part(*body, x),
                _ => false,
            },
{
}

/// A real constant that is held is a part.
proof fn lemma_reals_are_parts(e: Expr)
    ensures
        holds_real(e) <==> exists|x: Expr| #[trigger]
            is_part(e, x) && x is Const && x->Const_0 is Real,
    decreases e,
{
    assert(is_part(e, e));
    lemma_split(e);
    match e {
        Expr::Unary { op, operand, ty } => {
            lemma_parts(e, *operand);
            lemma_reals_are_parts(*operand);
        },
        Expr::Binary { op, left, right, ty } => {
            lemma_parts(e, *left);
            lemma_parts(e, *right);
            lemma_reals_are_parts(*left);
            lemma_reals_are_parts(*right);
        },
        Expr::If { cond, then_branch, else_branch, ty } => {
            lemma_parts(e, *cond);
            lemma_parts(e, *then_branch);
            lemma_parts(e, *else_branch);
            lemma_reals_are_parts(*cond);
            lemma_reals_are_parts(*then_branch);
            lemma_reals_are_parts(*else_branch);
        },
        Expr::Forall { var, domain, body, ty } => {
            lemma_parts(e, *body);
            lemma_reals_are_parts(*body);
        },
        Expr::Exists { var, domain, body, ty } => {
            lemma_parts(e, *body);
            lemma_reals_are_parts(*body);
        },
        _ => {},
    }
}

/// An integer that is held is a part.
proof fn lemma_integers_are_parts(e: Expr)
    ensures
        holds_integer(e) <==> exists|x: Expr| #[trigger]
            is_part(e, x) && x is Const && x->Const_0 is Integer,
    decreases e,
{
    assert(is_part(e, e));
    lemma_split(e);
    match e {
        Expr::Unary { op, operand, ty } => {
            lemma_parts(e, *operand);
            lemma_integers_are_parts(*operand);
        },
        Expr::Binary { op, left, right, ty } => {
            lemma_parts(e, *left);
            lemma_parts(e, *right);
            lemma_integers_are_parts(*left);
            lemma_integers_are_parts(*right);
        },
        Expr::If { cond, then_branch, else_branch, ty } => {
            lemma_parts(e, *cond);
            lemma_parts(e, *then_branch);
            lemma_parts(e, *else_branch);
            lemma_integers_are_parts(*cond);
            lemma_integers_are_parts(*then_branch);
            lemma_integers_are_parts(*else_branch);
        },
        Expr::Forall { var, domain, body, ty } => {
            lemma_parts(e, *body);
            lemma_integers_are_parts(*body);
        },
        Expr::Exists { var, domain, body, ty } => {
            lemma_parts(e, *body);
            lemma_integers_are_parts(*body);
        },
        _ => {},
    }
}

/// What has no formula is a part.
proof fn lemma_formula_of_parts(e: Expr)
    ensures
        formula(e) is Ok <==> forall|x: Expr| #[trigger] is_part(e, x) ==> is_logical(x),
        formula(e) matches Err(error) ==> exists|x: Expr| #[trigger]
            is_part(e, x) && !is_logical(x) && error == (GuardErrorView::ProofFailed {
                obligation: "smt"@,
                reason: "unsupported expr variant for SMT: "@ + debug::expr_text(x),
            }),
    decreases e,
{
    assert(is_part(e, e));
    lemma_split(e);
    match e {
        Expr::Unary { op, operand, ty } => {
            lemma_parts(e, *operand);
            lemma_formula_of_parts(*operand);
        },
        Expr::Binary { op, left, right, ty } => {
            lemma_parts(e, *left);
            lemma_parts(e, *right);
            lemma_formula_of_parts(*left);
            lemma_formula_of_parts(*right);
        },
        Expr::If { cond, then_branch, else_branch, ty } => {
            lemma_parts(e, *cond);
            lemma_parts(e, *then_branch);
            lemma_parts(e, *else_branch);
            lemma_formula_of_parts(*cond);
            lemma_formula_of_parts(*then_branch);
            lemma_formula_of_parts(*else_branch);
        },
        Expr::Forall { var, domain, body, ty } => {
            lemma_parts(e, *body);
            lemma_formula_of_parts(*body);
        },
        Expr::Exists { var, domain, body, ty } => {
            lemma_parts(e, *body);
            lemma_formula_of_parts(*body);
        },
        _ => {},
    }
}

/// The constants of an expression decide on the logic: a real one on that of linear
/// real arithmetic, else an integer on that of linear integer arithmetic; without
/// either it is that of bit-vectors.
pub proof fn law_constants_decide_on_the_logic(e: Expr)
    ensures
        ({
            let reals = exists|x: Expr| #[trigger]
                is_part(e, x) && x is Const && x->Const_0 is Real;
            let integers = exists|x: Expr| #[trigger]
                is_part(e, x) && x is Const && x->Const_0 is Integer;
            &&& reals ==> logic(e) == "QF_LRA"@
            &&& !reals && integers ==> logic(e) == "QF_LIA"@
            &&& !reals && !integers ==> logic(e) == "QF_BV"@
        }),
{
    lemma_reals_are_parts(e);
    lemma_integers_are_parts(e);
}

/// An expression has a formula where all its parts can be written as one. Where one
/// cannot, the error names such a part.
pub proof fn law_what_has_a_formula(e: Expr)
    ensures
        formula(e) is Ok <==> forall|x: Expr| #[trigger] is_part(e, x) ==> is_logical(x),
        formula(e) matches Err(error) ==> exists|x: Expr| #[trigger]
            is_part(e, x) && !is_logical(x) && error == (GuardErrorView::ProofFailed {
                obligation: "smt"@,
                reason: "unsupported expr variant for SMT: "@ + debug::expr_text(x),
            }),
{
    lemma_formula_of_parts(e);
}

/// Of several operands the first one, from the left, that has no formula decides on
/// the error.
pub proof fn law_first_error_is_reported(a: Expr, b: Expr, c: Expr, op: BinOp, ty: CirType)
    ensures
        formula(a) is Err ==> formula(
            (Expr::Binary { op, left: Box::new(a), right: Box::new(b), ty }),
        ) == formula(a),
        formula(a) is Ok && formula(b) is Err ==> formula(
            (Expr::Binary { op, left: Box::new(a), right: Box::new(b), ty }),
        ) == formula(b),
        formula(a) is Err ==> formula(
            (Expr::If {
                cond: Box::new(a),
                then_branch: Box::new(b),
                else_branch: Box::new(c),
                ty,
            }),
        ) == formula(a),
        formula(a) is Ok && formula(b) is Err ==> formula(
            (Expr::If {
                cond: Box::new(a),
                then_branch: Box::new(b),
                else_branch: Box::new(c),
                ty,
            }),
        ) == formula(b),
        formula(a) is Ok && formula(b) is Ok && formula(c) is Err ==> formula(
            (Expr::If {
                cond: Box::new(a),
                then_branch: Box::new(b),
                else_branch: Box::new(c),
                ty,
            }),
        ) == formula(c),
{
}

/// Outcomes are told apart: a success shows the formula, and a failure its error.
pub proof fn law_outcomes_of_writing(r: Result<String>)
    ensures
        r matches Ok(s) ==> text_outcome(r) == Ok::<Seq<char>, GuardErrorView>(s@),
        r matches Err(e) ==> text_outcome(r) == Err::<Seq<char>, GuardErrorView>(e@),
{
}

} // verus!
