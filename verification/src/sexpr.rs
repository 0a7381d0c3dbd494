//! Formulas read back: as prefix terms, and for the values that they have.

use crate::cir::BinOp;
use crate::cir::CirModule;
use crate::cir::CirType;
use crate::cir::ConstValue;
use crate::cir::Domain;
use crate::cir::Expr;
use crate::cir::UnOp;
use crate::cir::VarId;
use crate::lowering::Scope;
use crate::meaning;
use crate::meaning::Arithmetic;
use crate::meaning::Readings;
use crate::smt;
use crate::text;
use vstd::prelude::*;

verus! {

// ---------------------------------------------------------------------------
// A reader for prefix terms
// ---------------------------------------------------------------------------

/// A prefix term: a word, or terms in parentheses.
pub enum Term {
    Atom(Seq<char>),
    List(Seq<Term>),
}

/// What was read: the terms of each list that is not closed yet, the innermost
/// last, and the characters of a word that has not ended yet.
#[verifier::ext_equal]
pub struct Reader {
    pub levels: Seq<Seq<Term>>,
    pub word: Seq<char>,
}

impl Reader {
    /// With a term more in the innermost list.
    pub open spec fn with(self, t: Term) -> Reader {
        Reader { levels: self.levels.drop_last().push(self.levels.last().push(t)), ..self }
    }

    /// After the end of a word.
    pub open spec fn flushed(self) -> Reader {
        if self.word.len() == 0 {
            self
        } else {
            Reader { word: Seq::empty(), ..self.with(Term::Atom(self.word)) }
        }
    }

    /// After a character.
    pub open spec fn step(self, c: char) -> Reader {
        if c == ' ' {
            self.flushed()
        } else if c == '(' {
            Reader { levels: self.flushed().levels.push(Seq::empty()), word: Seq::empty() }
        } else if c == ')' {
            Reader {
                levels: self.flushed().levels.drop_last(),
                word: Seq::empty(),
            }.with(Term::List(self.flushed().levels.last()))
        } else {
            Reader { word: self.word.push(c), ..self }
        }
    }

    /// After characters, one after the other.
    pub open spec fn feed(self, s: Seq<char>) -> Reader
        decreases s.len(),
    {
        if s.len() == 0 {
            self
        } else {
            self.feed(s.drop_last()).step(s.last())
        }
    }

    /// Between two words.
    pub open spec fn ready(self) -> bool {
        self.word.len() == 0 && self.levels.len() > 0
    }

    /// In a list with the given terms.
    pub open spec fn inside(self, items: Seq<Term>) -> Reader {
        Reader { levels: self.levels.push(items), word: Seq::empty() }
    }
}

/// The term that a text stands for, where it stands for one term.
pub open spec fn term_of(s: Seq<char>) -> Option<Term> {
    let end = Reader { levels: seq![Seq::empty()], word: Seq::empty() }.feed(s).flushed();
    if end.levels.len() == 1 && end.levels[0].len() == 1 {
        Some(end.levels[0][0])
    } else {
        None
    }
}

/// Wherever the text is read, it stands for the term.
pub open spec fn stands_for(s: Seq<char>, t: Term) -> bool {
    forall|r: Reader| #[trigger] r.ready() ==> r.feed(s).flushed() == r.with(t)
}

/// The text opens a list and reads the terms into it.
pub open spec fn begins(s: Seq<char>, items: Seq<Term>) -> bool {
    forall|r: Reader| #[trigger] r.ready() ==> r.feed(s).flushed() == r.inside(items)
}

/// No character separates words.
pub open spec fn is_word(s: Seq<char>) -> bool {
    s.len() > 0 && forall|i: int|
        0 <= i < s.len() ==> #[trigger] s[i] != ' ' && s[i] != '(' && s[i] != ')'
}

/// Texts are read one after the other.
proof fn lemma_feed_adds(r: Reader, a: Seq<char>, b: Seq<char>)
    ensures
        r.feed(a + b) == r.feed(a).feed(b),
    decreases b.len(),
{
    if b.len() == 0 {
        assert(a + b =~= a);
    } else {
        assert((a + b).drop_last() =~= a + b.drop_last());
        lemma_feed_adds(r, a, b.drop_last());
    }
}

/// A text of one character.
proof fn lemma_feed_one(r: Reader, s: Seq<char>, c: char)
    requires
        s == seq![c],
    ensures
        r.feed(s) == r.step(c),
{
    reveal_with_fuel(Reader::feed, 2);
    assert(s.drop_last() =~= Seq::empty());
}

/// The characters of a word.
proof fn lemma_feed_word(r: Reader, s: Seq<char>)
    requires
        s.len() > 0 ==> is_word(s),
    ensures
        r.feed(s) == (Reader { word: r.word + s, ..r }),
    decreases s.len(),
{
    if s.len() == 0 {
        assert(r.word + s =~= r.word);
    } else {
        lemma_feed_word(r, s.drop_last());
        assert(s.last() == s[s.len() - 1]);
        assert(r.word + s =~= (r.word + s.drop_last()).push(s.last()));
    }
}

/// A word stands for itself.
proof fn lemma_word(s: Seq<char>)
    requires
        is_word(s),
    ensures
        stands_for(s, Term::Atom(s)),
{
    assert forall|r: Reader| #[trigger] r.ready() implies r.feed(s).flushed() == r.with(
        Term::Atom(s),
    ) by {
        lemma_feed_word(r, s);
        assert(r.word + s =~= s);
        assert(r.word =~= Seq::empty());
    }
}

/// The first term of a list.
proof fn lemma_first(a: Seq<char>, t: Term)
    requires
        stands_for(a, t),
    ensures
        begins("("@ + a, seq![t]),
{
    reveal_strlit("(");
    assert("("@ =~= seq!['(']);
    assert forall|r: Reader| #[trigger] r.ready() implies r.feed("("@ + a).flushed() == r.inside(
        seq![t],
    ) by {
        lemma_feed_adds(r, "("@, a);
        lemma_feed_one(r, "("@, '(');
        let opened = r.inside(Seq::empty());
        assert(r.step('(') == opened);
        assert(opened.ready());
        assert(opened.with(t).levels =~= r.inside(seq![t]).levels) by {
            assert(Seq::<Term>::empty().push(t) =~= seq![t]);
        }
    }
}

/// The next term of a list, after a space.
proof fn lemma_next(s: Seq<char>, items: Seq<Term>, a: Seq<char>, t: Term)
    requires
        begins(s, items),
        stands_for(a, t),
    ensures
        begins(s + " "@ + a, items.push(t)),
{
    reveal_strlit(" ");
    assert(" "@ =~= seq![' ']);
    assert forall|r: Reader| #[trigger] r.ready() implies r.feed(s + " "@ + a).flushed()
        == r.inside(items.push(t)) by {
        lemma_feed_adds(r, s + " "@, a);
        lemma_feed_adds(r, s, " "@);
        lemma_feed_one(r.feed(s), " "@, ' ');
        let so_far = r.inside(items);
        assert(so_far.ready());
        assert(so_far.with(t).levels =~= r.inside(items.push(t)).levels);
    }
}

/// The end of a list.
proof fn lemma_end(s: Seq<char>, items: Seq<Term>)
    requires
        begins(s, items),
    ensures
        stands_for(s + ")"@, Term::List(items)),
{
    reveal_strlit(")");
    assert(")"@ =~= seq![')']);
    assert forall|r: Reader| #[trigger] r.ready() implies r.feed(s + ")"@).flushed() == r.with(
        Term::List(items),
    ) by {
        lemma_feed_adds(r, s, ")"@);
        lemma_feed_one(r.feed(s), ")"@, ')');
        assert(r.inside(items).levels.drop_last() =~= r.levels);
        assert(r.word =~= Seq::empty());
    }
}

/// A text that stands for a term wherever it is read is read as that term.
proof fn lemma_term_of(s: Seq<char>, t: Term)
    requires
        stands_for(s, t),
    ensures
        term_of(s) == Some(t),
{
    let start = Reader { levels: seq![Seq::empty()], word: Seq::empty() };
    assert(start.ready());
    assert(start.with(t).levels =~= seq![seq![t]]) by {
        assert(Seq::<Term>::empty().push(t) =~= seq![t]);
    }
}

// ---------------------------------------------------------------------------
// Formulas
// ---------------------------------------------------------------------------

/// The part of a text after a minus sign, or all of it.
pub open spec fn unsigned(s: Seq<char>) -> Seq<char> {
    if s.len() > 0 && s[0] == '-' {
        s.skip(1)
    } else {
        s
    }
}

/// The texts of real constants are words, but for a sign.
pub open spec fn word_literals(e: Expr) -> bool
    decreases e,
{
    match e {
        Expr::Const(ConstValue::Real(v)) => is_word(unsigned(v.fixed@)),
        Expr::Unary { op, operand, ty } => word_literals(*operand),
        Expr::Binary { op, left, right, ty } => word_literals(*left) && word_literals(*right),
        Expr::If { cond, then_branch, else_branch, ty } => word_literals(*cond)
            && word_literals(*then_branch) && word_literals(*else_branch),
        Expr::Forall { var, domain, body, ty } => word_literals(*body),
        Expr::Exists { var, domain, body, ty } => word_literals(*body),
        _ => true,
    }
}

/// A number as a term: a negative one is the unary minus of the numeral.
spec fn number_tree(negative: bool, numeral: Seq<char>) -> Term {
    if negative {
        Term::List(seq![Term::Atom("-"@), Term::Atom(numeral)])
    } else {
        Term::Atom(numeral)
    }
}

spec fn constant_tree(c: ConstValue) -> Term {
    match c {
        ConstValue::Real(v) => number_tree(
            v.fixed@.len() > 0 && v.fixed@[0] == '-',
            unsigned(v.fixed@),
        ),
        ConstValue::Integer(v) => number_tree(
            v < 0,
            text::decimal(
                if v < 0 {
                    (-v) as nat
                } else {
                    v as nat
                },
            ),
        ),
        ConstValue::Bool(b) => Term::Atom(
            if b {
                "true"@
            } else {
                "false"@
            },
        ),
    }
}

spec fn unary_word(op: UnOp) -> Seq<char> {
    match op {
        UnOp::Neg => "-"@,
        UnOp::Abs => "abs"@,
        UnOp::Not => "not"@,
    }
}

spec fn binary_word(op: BinOp) -> Seq<char> {
    match op {
        BinOp::Add => "+"@,
        BinOp::Sub => "-"@,
        BinOp::Mul => "*"@,
        BinOp::Div => "/"@,
        BinOp::Mod => "mod"@,
        BinOp::Eq => "="@,
        BinOp::Neq => "distinct"@,
        BinOp::Lt => "<"@,
        BinOp::Gt => ">"@,
        BinOp::Lte => "<="@,
        BinOp::Gte => ">="@,
        BinOp::And => "and"@,
        BinOp::Or => "or"@,
        BinOp::Implies => "=>"@,
    }
}

spec fn var_word(v: VarId) -> Seq<char> {
    "v"@ + text::decimal(v.0 as nat)
}

/// The variable that a quantifier binds, with its sort, in a list of its own.
spec fn binding_tree(v: VarId) -> Term {
    Term::List(seq![Term::List(seq![Term::Atom(var_word(v)), Term::Atom("Int"@)])])
}

spec fn tree(e: Expr) -> Term
    decreases e,
{
    match e {
        Expr::Const(c) => constant_tree(c),
        Expr::Var(v) => Term::Atom(var_word(v)),
        Expr::Unary { op, operand, ty } => Term::List(
            seq![Term::Atom(unary_word(op)), tree(*operand)],
        ),
        Expr::Binary { op, left, right, ty } => Term::List(
            seq![Term::Atom(binary_word(op)), tree(*left), tree(*right)],
        ),
        Expr::If { cond, then_branch, else_branch, ty } => Term::List(
            seq![Term::Atom("ite"@), tree(*cond), tree(*then_branch), tree(*else_branch)],
        ),
        Expr::Forall { var, domain, body, ty } => Term::List(
            seq![Term::Atom("forall"@), binding_tree(var), tree(*body)],
        ),
        Expr::Exists { var, domain, body, ty } => Term::List(
            seq![Term::Atom("exists"@), binding_tree(var), tree(*body)],
        ),
        _ => arbitrary(),
    }
}

/// What the words of formulas are made of.
proof fn lemma_words(u: UnOp, b: BinOp)
    ensures
        is_word(unary_word(u)),
        is_word(binary_word(b)),
        is_word("true"@),
        is_word("false"@),
        is_word("ite"@),
        is_word("forall"@),
        is_word("exists"@),
        is_word("Int"@),
        is_word("-"@),
{
    reveal_strlit("-");
    reveal_strlit("abs");
    reveal_strlit("not");
    reveal_strlit("+");
    reveal_strlit("*");
    reveal_strlit("/");
    reveal_strlit("mod");
    reveal_strlit("=");
    reveal_strlit("distinct");
    reveal_strlit("<");
    reveal_strlit(">");
    reveal_strlit("<=");
    reveal_strlit(">=");
    reveal_strlit("and");
    reveal_strlit("or");
    reveal_strlit("=>");
    reveal_strlit("true");
    reveal_strlit("false");
    reveal_strlit("ite");
    reveal_strlit("forall");
    reveal_strlit("exists");
    reveal_strlit("Int");
}

/// Numerals and the names of variables are words.
proof fn lemma_numeral_words(n: nat)
    ensures
        is_word(text::decimal(n)),
        is_word("v"@ + text::decimal(n)),
{
    text::law_numerals_are_read_back(n);
    reveal_strlit("v");
    let s = text::decimal(n);
    assert forall|i: int| 0 <= i < s.len() implies #[trigger] s[i] != ' ' && s[i] != '(' && s[i]
        != ')' by {
        assert(text::digit_worth(s[i]) >= 0);
    }
    let t = "v"@ + s;
    assert forall|i: int| 0 <= i < t.len() implies #[trigger] t[i] != ' ' && t[i] != '(' && t[i]
        != ')' by {
        if i > 0 {
            assert(t[i] == s[i - 1]);
        }
    }
}

/// An operation on one operand.
proof fn lemma_unary(symbol: Seq<char>, a: Seq<char>, x: Term)
    requires
        is_word(symbol),
        stands_for(a, x),
    ensures
        stands_for("("@ + symbol + " "@ + a + ")"@, Term::List(seq![Term::Atom(symbol), x])),
{
    lemma_word(symbol);
    lemma_first(symbol, Term::Atom(symbol));
    lemma_next("("@ + symbol, seq![Term::Atom(symbol)], a, x);
    assert(seq![Term::Atom(symbol)].push(x) =~= seq![Term::Atom(symbol), x]);
    lemma_end("("@ + symbol + " "@ + a, seq![Term::Atom(symbol), x]);
}

/// An operation on two operands.
proof fn lemma_binary(symbol: Seq<char>, a: Seq<char>, x: Term, b: Seq<char>, y: Term)
    requires
        is_word(symbol),
        stands_for(a, x),
        stands_for(b, y),
    ensures
        stands_for(
            "("@ + symbol + " "@ + a + " "@ + b + ")"@,
            Term::List(seq![Term::Atom(symbol), x, y]),
        ),
{
    let head = "("@ + symbol + " "@ + a;
    lemma_word(symbol);
    lemma_first(symbol, Term::Atom(symbol));
    lemma_next("("@ + symbol, seq![Term::Atom(symbol)], a, x);
    assert(seq![Term::Atom(symbol)].push(x) =~= seq![Term::Atom(symbol), x]);
    lemma_next(head, seq![Term::Atom(symbol), x], b, y);
    assert(seq![Term::Atom(symbol), x].push(y) =~= seq![Term::Atom(symbol), x, y]);
    lemma_end(head + " "@ + b, seq![Term::Atom(symbol), x, y]);
}

/// A conditional.
proof fn lemma_conditional(
    a: Seq<char>,
    x: Term,
    b: Seq<char>,
    y: Term,
    c: Seq<char>,
    z: Term,
)
    requires
        stands_for(a, x),
        stands_for(b, y),
        stands_for(c, z),
    ensures
        stands_for(
            "(ite "@ + a + " "@ + b + " "@ + c + ")"@,
            Term::List(seq![Term::Atom("ite"@), x, y, z]),
        ),
{
    let symbol = "ite"@;
    let atom = Term::Atom(symbol);
    let head = "("@ + symbol + " "@ + a;
    lemma_words(UnOp::Neg, BinOp::Add);
    lemma_word(symbol);
    lemma_first(symbol, atom);
    lemma_next("("@ + symbol, seq![atom], a, x);
    assert(seq![atom].push(x) =~= seq![atom, x]);
    lemma_next(head, seq![atom, x], b, y);
    assert(seq![atom, x].push(y) =~= seq![atom, x, y]);
    lemma_next(head + " "@ + b, seq![atom, x, y], c, z);
    assert(seq![atom, x, y].push(z) =~= seq![atom, x, y, z]);
    lemma_end(head + " "@ + b + " "@ + c, seq![atom, x, y, z]);
    assert("(ite "@ =~= "("@ + symbol + " "@) by {
        reveal_strlit("(ite ");
        reveal_strlit("(");
        reveal_strlit("ite");
        reveal_strlit(" ");
    }
}

/// A quantified formula.
proof fn lemma_quantified(head: Seq<char>, symbol: Seq<char>, v: VarId, a: Seq<char>, x: Term)
    requires
        is_word(symbol),
        head == "("@ + symbol + " "@ + "((v"@,
        stands_for(a, x),
    ensures
        stands_for(
            head + text::decimal(v.0 as nat) + " Int)) "@ + a + ")"@,
            Term::List(seq![Term::Atom(symbol), binding_tree(v), x]),
        ),
{
    let (name, sort) = (var_word(v), Term::Atom("Int"@));
    lemma_words(UnOp::Neg, BinOp::Add);
    lemma_numeral_words(v.0 as nat);
    lemma_word(name);
    lemma_word("Int"@);
    lemma_first(name, Term::Atom(name));
    lemma_next("("@ + name, seq![Term::Atom(name)], "Int"@, sort);
    assert(seq![Term::Atom(name)].push(sort) =~= seq![Term::Atom(name), sort]);
    let pair = "("@ + name + " "@ + "Int"@ + ")"@;
    let both = Term::List(seq![Term::Atom(name), sort]);
    lemma_end("("@ + name + " "@ + "Int"@, seq![Term::Atom(name), sort]);
    lemma_first(pair, both);
    lemma_end("("@ + pair, seq![both]);
    lemma_binary(symbol, "("@ + pair + ")"@, binding_tree(v), a, x);
    let n = text::decimal(v.0 as nat);
    assert(head + n + " Int)) "@ + a + ")"@ =~= "("@ + symbol + " "@ + ("("@ + pair + ")"@) + " "@
        + a + ")"@) by {
        reveal_strlit("((v");
        reveal_strlit("(");
        reveal_strlit(")");
        reveal_strlit(" ");
        reveal_strlit("v");
        reveal_strlit("Int");
        reveal_strlit(" Int)) ");
    }
}

/// A number.
proof fn lemma_number(negative: bool, numeral: Seq<char>)
    requires
        is_word(numeral),
    ensures
        negative ==> stands_for("(- "@ + numeral + ")"@, number_tree(true, numeral)),
        !negative ==> stands_for(numeral, number_tree(false, numeral)),
{
    lemma_word(numeral);
    if negative {
        lemma_words(UnOp::Neg, BinOp::Add);
        lemma_unary("-"@, numeral, Term::Atom(numeral));
        assert("(- "@ =~= "("@ + "-"@ + " "@) by {
            reveal_strlit("(- ");
            reveal_strlit("(");
            reveal_strlit("-");
            reveal_strlit(" ");
        }
    }
}

/// A formula stands for its tree.
proof fn lemma_formula(e: Expr)
    requires
        word_literals(e),
        smt::formula(e) is Ok,
    ensures
        stands_for(smt::formula(e)->Ok_0, tree(e)),
    decreases e,
{
    match e {
        Expr::Const(c) => {
            lemma_words(UnOp::Neg, BinOp::Add);
            match c {
                ConstValue::Real(v) => lemma_number(
                    v.fixed@.len() > 0 && v.fixed@[0] == '-',
                    unsigned(v.fixed@),
                ),
                ConstValue::Integer(v) => {
                    let n = if v < 0 {
                        (-v) as nat
                    } else {
                        v as nat
                    };
                    lemma_numeral_words(n);
                    lemma_number(v < 0, text::decimal(n));
                },
                ConstValue::Bool(b) => {
                    lemma_word("true"@);
                    lemma_word("false"@);
                },
            }
        },
        Expr::Var(v) => {
            lemma_numeral_words(v.0 as nat);
            lemma_word(var_word(v));
        },
        Expr::Unary { op, operand, ty } => {
            lemma_words(op, BinOp::Add);
            lemma_formula(*operand);
            lemma_unary(unary_word(op), smt::formula(*operand)->Ok_0, tree(*operand));
        },
        Expr::Binary { op, left, right, ty } => {
            lemma_words(UnOp::Neg, op);
            lemma_formula(*left);
            lemma_formula(*right);
            lemma_binary(
                binary_word(op),
                smt::formula(*left)->Ok_0,
                tree(*left),
                smt::formula(*right)->Ok_0,
                tree(*right),
            );
        },
        Expr::If { cond, then_branch, else_branch, ty } => {
            lemma_formula(*cond);
            lemma_formula(*then_branch);
            lemma_formula(*else_branch);
            lemma_conditional(
                smt::formula(*cond)->Ok_0,
                tree(*cond),
                smt::formula(*then_branch)->Ok_0,
                tree(*then_branch),
                smt::formula(*else_branch)->Ok_0,
                tree(*else_branch),
            );
        },
        Expr::Forall { var, domain, body, ty } => {
            lemma_words(UnOp::Neg, BinOp::Add);
            lemma_formula(*body);
            assert("(forall ((v"@ =~= "("@ + "forall"@ + " "@ + "((v"@) by {
                reveal_strlit("(forall ((v");
                reveal_strlit("(");
                reveal_strlit("forall");
                reveal_strlit(" ");
                reveal_strlit("((v");
            }
            lemma_quantified(
                "(forall ((v"@,
                "forall"@,
                var,
                smt::formula(*body)->Ok_0,
                tree(*body),
            );
        },
        Expr::Exists { var, domain, body, ty } => {
            lemma_words(UnOp::Neg, BinOp::Add);
            lemma_formula(*body);
            assert("(exists ((v"@ =~= "("@ + "exists"@ + " "@ + "((v"@) by {
                reveal_strlit("(exists ((v");
                reveal_strlit("(");
                reveal_strlit("exists");
                reveal_strlit(" ");
                reveal_strlit("((v");
            }
            lemma_quantified(
                "(exists ((v"@,
                "exists"@,
                var,
                smt::formula(*body)->Ok_0,
                tree(*body),
            );
        },
        _ => {},
    }
}

/// The term that the formula of an expression is read back as.
pub open spec fn formula_term(e: Expr) -> Option<Term> {
    term_of(smt::formula(e)->Ok_0)
}

/// The formula of a binary operation is read back as the operation: its symbol in
/// SMT-LIB, then what the left operand is read back as, then the right one.
pub proof fn law_formula_of_a_binary_operation(op: BinOp, left: Expr, right: Expr, ty: CirType)
    requires
        word_literals(left),
        word_literals(right),
        smt::formula(left) is Ok,
        smt::formula(right) is Ok,
    ensures
        ({
            let e = Expr::Binary { op, left: Box::new(left), right: Box::new(right), ty };
            let symbol = match op {
                BinOp::Add => "+"@,
                BinOp::Sub => "-"@,
                BinOp::Mul => "*"@,
                BinOp::Div => "/"@,
                BinOp::Mod => "mod"@,
                BinOp::Eq => "="@,
                BinOp::Neq => "distinct"@,
                BinOp::Lt => "<"@,
                BinOp::Gt => ">"@,
                BinOp::Lte => "<="@,
                BinOp::Gte => ">="@,
                BinOp::And => "and"@,
                BinOp::Or => "or"@,
                BinOp::Implies => "=>"@,
            };
            &&& smt::formula(e) is Ok
            &&& formula_term(left) is Some
            &&& formula_term(right) is Some
            &&& formula_term(e) == Some(
                Term::List(
                    seq![Term::Atom(symbol), formula_term(left)->0, formula_term(right)->0],
                ),
            )
        }),
{
    let e = Expr::Binary { op, left: Box::new(left), right: Box::new(right), ty };
    assert(smt::formula(e) is Ok);
    lemma_formula(left);
    lemma_formula(right);
    lemma_formula(e);
    lemma_term_of(smt::formula(left)->Ok_0, tree(left));
    lemma_term_of(smt::formula(right)->Ok_0, tree(right));
    lemma_term_of(smt::formula(e)->Ok_0, tree(e));
}

/// The formula of a unary operation is read back as its symbol in SMT-LIB and what
/// the operand is read back as.
pub proof fn law_formula_of_a_unary_operation(op: UnOp, operand: Expr, ty: CirType)
    requires
        word_literals(operand),
        smt::formula(operand) is Ok,
    ensures
        ({
            let e = Expr::Unary { op, operand: Box::new(operand), ty };
            let symbol = match op {
                UnOp::Neg => "-"@,
                UnOp::Abs => "abs"@,
                UnOp::Not => "not"@,
            };
            &&& smt::formula(e) is Ok
            &&& formula_term(operand) is Some
            &&& formula_term(e) == Some(
                Term::List(seq![Term::Atom(symbol), formula_term(operand)->0]),
            )
        }),
{
    let e = Expr::Unary { op, operand: Box::new(operand), ty };
    assert(smt::formula(e) is Ok);
    lemma_formula(operand);
    lemma_formula(e);
    lemma_term_of(smt::formula(operand)->Ok_0, tree(operand));
    lemma_term_of(smt::formula(e)->Ok_0, tree(e));
}

/// The formula of a conditional is read back as `ite`, the condition and the two
/// branches.
pub proof fn law_formula_of_a_conditional(a: Expr, b: Expr, c: Expr, ty: CirType)
    requires
        word_literals(a),
        word_literals(b),
        word_literals(c),
        smt::formula(a) is Ok,
        smt::formula(b) is Ok,
        smt::formula(c) is Ok,
    ensures
        ({
            let e = Expr::If {
                cond: Box::new(a),
                then_branch: Box::new(b),
                else_branch: Box::new(c),
                ty,
            };
            &&& smt::formula(e) is Ok
            &&& formula_term(a) is Some
            &&& formula_term(b) is Some
            &&& formula_term(c) is Some
            &&& formula_term(e) == Some(
                Term::List(
                    seq![
                        Term::Atom("ite"@),
                        formula_term(a)->0,
                        formula_term(b)->0,
                        formula_term(c)->0,
                    ],
                ),
            )
        }),
{
    let e = Expr::If {
        cond: Box::new(a),
        then_branch: Box::new(b),
        else_branch: Box::new(c),
        ty,
    };
    assert(smt::formula(e) is Ok);
    lemma_formula(a);
    lemma_formula(b);
    lemma_formula(c);
    lemma_formula(e);
    lemma_term_of(smt::formula(a)->Ok_0, tree(a));
    lemma_term_of(smt::formula(b)->Ok_0, tree(b));
    lemma_term_of(smt::formula(c)->Ok_0, tree(c));
    lemma_term_of(smt::formula(e)->Ok_0, tree(e));
}

/// The formula of a quantified expression is read back as the quantifier, the
/// variable with its sort, and the body.
pub proof fn law_formula_of_a_quantifier(var: VarId, domain: Domain, body: Expr, ty: CirType)
    requires
        word_literals(body),
        smt::formula(body) is Ok,
    ensures
        ({
            let all = Expr::Forall { var, domain, body: Box::new(body), ty };
            let some = Expr::Exists { var, domain, body: Box::new(body), ty };
            let binding = Term::List(
                seq![
                    Term::List(
                        seq![formula_term(Expr::Var(var))->0, Term::Atom("Int"@)],
                    ),
                ],
            );
            &&& smt::formula(all) is Ok
            &&& smt::formula(some) is Ok
            &&& formula_term(body) is Some
            &&& formula_term(all) == Some(
                Term::List(seq![Term::Atom("forall"@), binding, formula_term(body)->0]),
            )
            &&& formula_term(some) == Some(
                Term::List(seq![Term::Atom("exists"@), binding, formula_term(body)->0]),
            )
        }),
{
    let all = Expr::Forall { var, domain, body: Box::new(body), ty };
    let some = Expr::Exists { var, domain, body: Box::new(body), ty };
    assert(smt::formula(all) is Ok && smt::formula(some) is Ok);
    lemma_formula(body);
    lemma_formula(all);
    lemma_formula(some);
    lemma_formula(Expr::Var(var));
    lemma_term_of(smt::formula(body)->Ok_0, tree(body));
    lemma_term_of(smt::formula(all)->Ok_0, tree(all));
    lemma_term_of(smt::formula(some)->Ok_0, tree(some));
    lemma_term_of(smt::formula(Expr::Var(var))->Ok_0, tree(Expr::Var(var)));
}

/// A variable is read back as a word that begins with a `v` and ends in its number,
/// an integer as its numeral or, where it is negative, as the unary minus of that of
/// its magnitude, a real constant as its text in the same way, and a truth value as
/// its name.
pub proof fn law_formulas_of_single_words(v: VarId, n: i64, c: ConstValue)
    requires
        word_literals(Expr::Const(c)),
    ensures
        ({
            let name = formula_term(Expr::Var(v))->0->Atom_0;
            &&& formula_term(Expr::Var(v)) == Some(Term::Atom(name))
            &&& name.len() >= 2 && name[0] == 'v'
            &&& text::all_digits(name.skip(1)) && text::read_decimal(name.skip(1)) == v.0
        }),
        ({
            let t = formula_term(Expr::Const(ConstValue::Integer(n)))->0;
            let numeral = if n < 0 {
                t->List_0[1]->Atom_0
            } else {
                t->Atom_0
            };
            &&& formula_term(Expr::Const(ConstValue::Integer(n))) == Some(t)
            &&& n < 0 ==> t == Term::List(seq![Term::Atom("-"@), Term::Atom(numeral)])
            &&& n >= 0 ==> t == Term::Atom(numeral)
            &&& text::all_digits(numeral) && numeral.len() > 0
            &&& text::read_decimal(numeral) == if n < 0 {
                -n
            } else {
                n as int
            }
        }),
        c matches ConstValue::Bool(b) ==> formula_term(Expr::Const(c)) == Some(
            Term::Atom(
                if b {
                    "true"@
                } else {
                    "false"@
                },
            ),
        ),
        c matches ConstValue::Real(x) ==> formula_term(Expr::Const(c)) == Some(
            if x.fixed@[0] == '-' {
                Term::List(seq![Term::Atom("-"@), Term::Atom(x.fixed@.skip(1))])
            } else {
                Term::Atom(x.fixed@)
            },
        ),
{
    let (x, y) = (Expr::Var(v), Expr::Const(ConstValue::Integer(n)));
    lemma_formula(x);
    lemma_formula(y);
    lemma_formula(Expr::Const(c));
    lemma_term_of(smt::formula(x)->Ok_0, tree(x));
    lemma_term_of(smt::formula(y)->Ok_0, tree(y));
    lemma_term_of(smt::formula(Expr::Const(c))->Ok_0, tree(Expr::Const(c)));
    text::law_numerals_are_read_back(v.0 as nat);
    reveal_strlit("v");
    assert(var_word(v).skip(1) =~= text::decimal(v.0 as nat));
    text::law_numerals_are_read_back(
        if n < 0 {
            (-n) as nat
        } else {
            n as nat
        },
    );
}

// ---------------------------------------------------------------------------
// The values of formulas
// ---------------------------------------------------------------------------

/// The unary operation that a word stands for in SMT-LIB.
pub open spec fn unary_named(word: Seq<char>) -> Option<UnOp> {
    if word == "-"@ {
        Some(UnOp::Neg)
    } else if word == "abs"@ {
        Some(UnOp::Abs)
    } else if word == "not"@ {
        Some(UnOp::Not)
    } else {
        None
    }
}

/// The binary operation that a word stands for in SMT-LIB.
pub open spec fn binary_named(word: Seq<char>) -> Option<BinOp> {
    if word == "+"@ {
        Some(BinOp::Add)
    } else if word == "-"@ {
        Some(BinOp::Sub)
    } else if word == "*"@ {
        Some(BinOp::Mul)
    } else if word == "/"@ {
        Some(BinOp::Div)
    } else if word == "mod"@ {
        Some(BinOp::Mod)
    } else if word == "="@ {
        Some(BinOp::Eq)
    } else if word == "distinct"@ {
        Some(BinOp::Neq)
    } else if word == "<"@ {
        Some(BinOp::Lt)
    } else if word == ">"@ {
        Some(BinOp::Gt)
    } else if word == "<="@ {
        Some(BinOp::Lte)
    } else if word == ">="@ {
        Some(BinOp::Gte)
    } else if word == "and"@ {
        Some(BinOp::And)
    } else if word == "or"@ {
        Some(BinOp::Or)
    } else if word == "=>"@ {
        Some(BinOp::Implies)
    } else {
        None
    }
}

/// The value of a term without quantifiers, given those of numerals. A word that
/// begins with a `v` is the variable whose number follows.
pub open spec fn term_value<V>(
    m: Arithmetic<V>,
    r: Readings<V>,
    numeral: spec_fn(Seq<char>) -> V,
    t: Term,
) -> V
    decreases t,
{
    match t {
        Term::Atom(word) => if word == "true"@ {
            (m.constant)(ConstValue::Bool(true))
        } else if word == "false"@ {
            (m.constant)(ConstValue::Bool(false))
        } else if word.len() > 0 && word[0] == 'v' {
            r(VarId(text::read_decimal(word.skip(1)) as u32), 0)
        } else {
            numeral(word)
        },
        Term::List(parts) => if parts.len() == 2 {
            (m.unary)(
                unary_named(parts[0]->Atom_0)->0,
                term_value(m, r, numeral, parts[1]),
            )
        } else if parts.len() == 3 {
            (m.binary)(
                binary_named(parts[0]->Atom_0)->0,
                term_value(m, r, numeral, parts[1]),
                term_value(m, r, numeral, parts[2]),
            )
        } else if parts.len() == 4 {
            if (m.truth)(term_value(m, r, numeral, parts[1])) {
                term_value(m, r, numeral, parts[2])
            } else {
                term_value(m, r, numeral, parts[3])
            }
        } else {
            arbitrary()
        },
    }
}

/// Numerals stand for the numbers that they are those of, and a negative number is
/// what negation makes of the positive one.
pub open spec fn numerical<V>(m: Arithmetic<V>, numeral: spec_fn(Seq<char>) -> V) -> bool {
    &&& forall|n: i64, s: Seq<char>|
        n >= 0 && text::all_digits(s) && s.len() > 0 && text::read_decimal(s) == n
            ==> #[trigger] numeral(s) == #[trigger] (m.constant)(ConstValue::Integer(n))
    &&& forall|n: i64, s: Seq<char>|
        n < 0 && text::all_digits(s) && s.len() > 0 && text::read_decimal(s) == -n ==> (m.unary)(
            UnOp::Neg,
            #[trigger] numeral(s),
        ) == #[trigger] (m.constant)(ConstValue::Integer(n))
}

/// The expression is one of integers, truth values and variables, without
/// quantifiers.
pub open spec fn unquantified(e: Expr) -> bool
    decreases e,
{
    match e {
        Expr::Const(c) => c !is Real,
        Expr::Var(v) => true,
        Expr::Unary { op, operand, ty } => unquantified(*operand),
        Expr::Binary { op, left, right, ty } => unquantified(*left) && unquantified(*right),
        Expr::If { cond, then_branch, else_branch, ty } => unquantified(*cond) && unquantified(
            *then_branch,
        ) && unquantified(*else_branch),
        _ => false,
    }
}

/// Symbols name their operations.
proof fn lemma_names(u: UnOp, b: BinOp)
    ensures
        unary_named(unary_word(u)) == Some(u),
        binary_named(binary_word(b)) == Some(b),
{
    reveal_strlit("-");
    reveal_strlit("abs");
    reveal_strlit("not");
    reveal_strlit("+");
    reveal_strlit("*");
    reveal_strlit("/");
    reveal_strlit("mod");
    reveal_strlit("=");
    reveal_strlit("distinct");
    reveal_strlit("<");
    reveal_strlit(">");
    reveal_strlit("<=");
    reveal_strlit(">=");
    reveal_strlit("and");
    reveal_strlit("or");
    reveal_strlit("=>");
    assert("abs"@[0] == 'a' && "not"@[0] == 'n' && "mod"@[0] == 'm' && "distinct"@[0] == 'd');
    assert("and"@[0] == 'a' && "or"@[0] == 'o' && "+"@[0] == '+' && "-"@[0] == '-');
    assert("*"@[0] == '*' && "/"@[0] == '/' && "="@[0] == '=' && "<"@[0] == '<');
    assert(">"@[0] == '>' && "<="@[0] == '<' && ">="@[0] == '>' && "=>"@[0] == '=');
    assert("<="@.len() == 2 && ">="@.len() == 2 && "=>"@.len() == 2);
    assert("<"@.len() == 1 && ">"@.len() == 1 && "="@.len() == 1);
}

/// [`law_formulas_have_the_values_of_expressions`] for the tree of an expression.
proof fn lemma_tree_value<V>(
    m: Arithmetic<V>,
    module: CirModule,
    r: Readings<V>,
    numeral: spec_fn(Seq<char>) -> V,
    e: Expr,
)
    requires
        numerical(m, numeral),
        unquantified(e),
    ensures
        term_value(m, r, numeral, tree(e)) == meaning::value(m, module, r, Scope::top(), e),
    decreases e,
{
    match e {
        Expr::Const(c) => {
            reveal_strlit("true");
            reveal_strlit("false");
            assert("true"@[0] == 't' && "false"@[0] == 'f');
            if let ConstValue::Integer(n) = c {
                let k = if n < 0 {
                    (-n) as nat
                } else {
                    n as nat
                };
                let s = text::decimal(k);
                text::law_numerals_are_read_back(k);
                assert(text::digit_worth(s[0]) >= 0);
                assert(term_value(m, r, numeral, Term::Atom(s)) == numeral(s));
                if n < 0 {
                    lemma_names(UnOp::Neg, BinOp::Add);
                    let parts = seq![Term::Atom("-"@), Term::Atom(s)];
                    assert(parts[0] == Term::Atom("-"@) && parts[1] == Term::Atom(s));
                    assert(tree(e) == Term::List(parts));
                    assert((m.unary)(UnOp::Neg, numeral(s)) == (m.constant)(c));
                } else {
                    assert(numeral(s) == (m.constant)(c));
                }
            }
        },
        Expr::Var(v) => {
            reveal_strlit("true");
            reveal_strlit("false");
            reveal_strlit("v");
            text::law_numerals_are_read_back(v.0 as nat);
            assert(var_word(v)[0] == 'v');
            assert("true"@[0] == 't' && "false"@[0] == 'f');
            assert(var_word(v).skip(1) =~= text::decimal(v.0 as nat));
        },
        Expr::Unary { op, operand, ty } => {
            lemma_tree_value(m, module, r, numeral, *operand);
            lemma_names(op, BinOp::Add);
            let parts = seq![Term::Atom(unary_word(op)), tree(*operand)];
            assert(parts[0] == Term::Atom(unary_word(op)) && parts[1] == tree(*operand));
            assert(tree(e) == Term::List(parts));
        },
        Expr::Binary { op, left, right, ty } => {
            lemma_tree_value(m, module, r, numeral, *left);
            lemma_tree_value(m, module, r, numeral, *right);
            lemma_names(UnOp::Neg, op);
            let parts = seq![Term::Atom(binary_word(op)), tree(*left), tree(*right)];
            assert(parts[0] == Term::Atom(binary_word(op)));
            assert(parts[1] == tree(*left) && parts[2] == tree(*right));
            assert(tree(e) == Term::List(parts));
        },
        Expr::If { cond, then_branch, else_branch, ty } => {
            lemma_tree_value(m, module, r, numeral, *cond);
            lemma_tree_value(m, module, r, numeral, *then_branch);
            lemma_tree_value(m, module, r, numeral, *else_branch);
            let parts = seq![
                Term::Atom("ite"@),
                tree(*cond),
                tree(*then_branch),
                tree(*else_branch),
            ];
            assert(parts[1] == tree(*cond) && parts[2] == tree(*then_branch));
            assert(parts[3] == tree(*else_branch));
            assert(tree(e) == Term::List(parts));
        },
        _ => {},
    }
}

/// All parts of the expression have a formula.
proof fn lemma_has_formula(e: Expr)
    requires
        unquantified(e),
    ensures
        smt::formula(e) is Ok,
        word_literals(e),
    decreases e,
{
    match e {
        Expr::Unary { op, operand, ty } => lemma_has_formula(*operand),
        Expr::Binary { op, left, right, ty } => {
            lemma_has_formula(*left);
            lemma_has_formula(*right);
        },
        Expr::If { cond, then_branch, else_branch, ty } => {
            lemma_has_formula(*cond);
            lemma_has_formula(*then_branch);
            lemma_has_formula(*else_branch);
        },
        _ => {},
    }
}

/// A formula says what its expression says: read as an SMT-LIB term it has the value
/// of the expression, whatever the arithmetic is.
pub proof fn law_formulas_have_the_values_of_expressions<V>(
    m: Arithmetic<V>,
    module: CirModule,
    r: Readings<V>,
    numeral: spec_fn(Seq<char>) -> V,
    e: Expr,
)
    requires
        numerical(m, numeral),
        unquantified(e),
    ensures
        smt::formula(e) is Ok,
        formula_term(e) is Some,
        term_value(m, r, numeral, formula_term(e)->0) == meaning::value(
            m,
            module,
            r,
            Scope::top(),
            e,
        ),
{
    lemma_has_formula(e);
    lemma_formula(e);
    lemma_term_of(smt::formula(e)->Ok_0, tree(e));
    lemma_tree_value(m, module, r, numeral, e);
}

} // verus!
