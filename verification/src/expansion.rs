//! The code of quantifiers: what makes a difference to it, and what does not.

use crate::binary64;
use crate::cir::BinOp;
use crate::cir::CirModule;
use crate::cir::CirType;
use crate::cir::ConstValue;
use crate::cir::Domain;
use crate::cir::Expr;
use crate::cir::VarId;
use crate::lcir::AtomicOp;
use crate::lcir::BlockId;
use crate::lcir::BlockView;
use crate::lcir::BuilderView;
use crate::lcir::ProgramView;
use crate::lcir::StmtView;
use crate::lcir::TerminatorView;
use crate::lowering;
use crate::lowering::Lowering;
use crate::lowering::Over;
use crate::lowering::Scope;
use crate::lowering::bound_value;
use crate::lowering::bound_vars;
use crate::lowering::copies;
use crate::lowering::lower;
use crate::lowering::samples;
use vstd::prelude::*;

verus! {

// ---------------------------------------------------------------------------
// Forms of a domain
// ---------------------------------------------------------------------------

/// The domains have the same members in the same order.
pub open spec fn same_members(a: Domain, b: Domain) -> bool {
    &&& a.size() == b.size()
    &&& forall|i: nat| i < a.size() ==> #[trigger] a.member(i) == b.member(i)
}

/// The instances for domains with the same members.
proof fn lemma_same_copies(
    s: Lowering,
    module: CirModule,
    scope: Scope,
    var: VarId,
    a: Domain,
    b: Domain,
    body: Expr,
    all: bool,
    n: nat,
)
    requires
        same_members(a, b),
        n <= a.size(),
    ensures
        lowering::copies(s, module, scope, Over::Members(var, a), body, all, n)
            == lowering::copies(s, module, scope, Over::Members(var, b), body, all, n),
    decreases n,
{
    if n > 0 {
        let last = (n - 1) as nat;
        lemma_same_copies(s, module, scope, var, a, b, body, all, last);
        assert(a.member(last) == b.member(last));
        assert(scope.instance(Over::Members(var, a), last) == scope.instance(
            Over::Members(var, b),
            last,
        ));
    }
}

/// Quantifiers over domains with the same members have the same code.
pub proof fn law_members_decide_on_the_code(
    s: Lowering,
    module: CirModule,
    scope: Scope,
    var: VarId,
    a: Domain,
    b: Domain,
    body: Expr,
    ty: CirType,
)
    requires
        same_members(a, b),
    ensures
        lowering::lower(
            s,
            module,
            scope,
            (Expr::Forall { var, domain: a, body: Box::new(body), ty }),
        ) == lowering::lower(
            s,
            module,
            scope,
            (Expr::Forall { var, domain: b, body: Box::new(body), ty }),
        ),
        lowering::lower(
            s,
            module,
            scope,
            (Expr::Exists { var, domain: a, body: Box::new(body), ty }),
        ) == lowering::lower(
            s,
            module,
            scope,
            (Expr::Exists { var, domain: b, body: Box::new(body), ty }),
        ),
{
    lemma_same_copies(s, module, scope, var, a, b, body, true, a.size());
    lemma_same_copies(s, module, scope, var, a, b, body, false, a.size());
}

/// An enumeration, an array and an interval from zero on, each with as many
/// members as the others, have the same members.
pub proof fn law_forms_of_a_domain_agree(names: Vec<String>, size: usize, high: i64)
    requires
        names@.len() == size,
        high == size - 1,
    ensures
        same_members(Domain::Enum(names), Domain::Array { size }),
        same_members(Domain::Array { size }, Domain::Interval { low: 0, high }),
{
}

/// The number of temporaries that the first `n` instances of a body take, without
/// those for joining them.
pub open spec fn instances_take(
    s: Lowering,
    module: CirModule,
    scope: Scope,
    over: Over,
    body: Expr,
    all: bool,
    n: nat,
) -> int
    decreases n,
{
    if n == 0 {
        0
    } else {
        let last = (n - 1) as nat;
        let inner = scope.instance(over, last);
        let before = lowering::copies(s, module, scope, over, body, all, last).0.demand(
            inner.age <= u32::MAX,
        );
        let after = lowering::lower(before, module, inner, body).0;
        instances_take(s, module, scope, over, body, all, last) + (after.tmp_counter
            - before.tmp_counter)
    }
}

/// A body is lowered once for each of `n` instances, and `n - 1` operations join
/// them.
pub proof fn law_instances_are_joined_by_one_operation_less(
    s: Lowering,
    module: CirModule,
    scope: Scope,
    over: Over,
    body: Expr,
    all: bool,
    n: nat,
)
    requires
        n > 0,
        lowering::copies(s, module, scope, over, body, all, n).1 is Ok,
    ensures
        lowering::copies(s, module, scope, over, body, all, n).1->Ok_0 is Some,
        lowering::copies(s, module, scope, over, body, all, n).0.tmp_counter == s.tmp_counter
            + instances_take(s, module, scope, over, body, all, n) + (n - 1),
    decreases n,
{
    reveal_with_fuel(lowering::copies, 2);
    reveal_with_fuel(instances_take, 2);
    if n > 1 {
        law_instances_are_joined_by_one_operation_less(
            s,
            module,
            scope,
            over,
            body,
            all,
            (n - 1) as nat,
        );
    }
}

// ---------------------------------------------------------------------------
// Bodies that do not read the bound variable
// ---------------------------------------------------------------------------

/// The expression reads the variable under its name.
pub open spec fn mentions(e: Expr, var: VarId) -> bool
    decreases e,
{
    match e {
        Expr::Var(v) => v == var,
        Expr::Unary { op, operand, ty } => mentions(*operand, var),
        Expr::Binary { op, left, right, ty } => mentions(*left, var) || mentions(*right, var),
        Expr::If { cond, then_branch, else_branch, ty } => mentions(*cond, var) || mentions(
            *then_branch,
            var,
        ) || mentions(*else_branch, var),
        Expr::Forall { var: v, domain, body, ty } => mentions(*body, var),
        Expr::Exists { var: v, domain, body, ty } => mentions(*body, var),
        Expr::Always(inner, ty) => mentions(*inner, var),
        Expr::Eventually(inner, ty) => mentions(*inner, var),
        Expr::Next(inner, ty) => mentions(*inner, var),
        Expr::Until { left, right, ty } => mentions(*left, var) || mentions(*right, var),
        Expr::Since { left, right, ty } => mentions(*left, var) || mentions(*right, var),
        Expr::For { duration, body, ty } => mentions(*body, var),
        Expr::After { duration, body, ty } => mentions(*body, var),
        _ => false,
    }
}

/// The scopes bind the same variables in the same order, all but `var` to the same
/// values, and read the same sample.
pub open spec fn alike(a: Scope, b: Scope, var: VarId) -> bool {
    &&& a.age == b.age
    &&& a.bound.len() == b.bound.len()
    &&& forall|i: int|
        0 <= i < a.bound.len() ==> (#[trigger] a.bound[i]).0 == b.bound[i].0 && (a.bound[i].0
            != var ==> a.bound[i] == b.bound[i])
}

/// Scopes that are alike bind another variable to the same value.
proof fn lemma_alike_value(a: Scope, b: Scope, var: VarId, v: VarId)
    requires
        alike(a, b, var),
        v != var,
    ensures
        bound_value(a.bound, v) == bound_value(b.bound, v),
    decreases a.bound.len(),
{
    if a.bound.len() > 0 {
        let n = a.bound.len() - 1;
        let (c, d) = (
            Scope { bound: a.bound.drop_last(), ..a },
            Scope { bound: b.bound.drop_last(), ..b },
        );
        assert(a.bound[n].0 == b.bound[n].0);
        assert forall|i: int| 0 <= i < c.bound.len() implies (#[trigger] c.bound[i]).0
            == d.bound[i].0 && (c.bound[i].0 != var ==> c.bound[i] == d.bound[i]) by {
            assert(a.bound[i].0 == b.bound[i].0);
        }
        lemma_alike_value(c, d, var, v);
    }
}

/// Scopes that are alike have instances that are alike.
proof fn lemma_alike_instance(a: Scope, b: Scope, var: VarId, over: Over, i: nat)
    requires
        alike(a, b, var),
    ensures
        alike(a.instance(over, i), b.instance(over, i), var),
{
    let (c, d) = (a.instance(over, i), b.instance(over, i));
    assert forall|j: int| 0 <= j < c.bound.len() implies (#[trigger] c.bound[j]).0
        == d.bound[j].0 && (c.bound[j].0 != var ==> c.bound[j] == d.bound[j]) by {
        if j < a.bound.len() {
            assert(a.bound[j].0 == b.bound[j].0);
        }
    }
}

/// Scopes that are alike bind the same variables.
proof fn lemma_alike_vars(a: Scope, b: Scope, var: VarId)
    requires
        alike(a, b, var),
    ensures
        bound_vars(a.bound) == bound_vars(b.bound),
{
    assert forall|i: int| 0 <= i < a.bound.len() implies (#[trigger] bound_vars(a.bound)[i])
        == bound_vars(b.bound)[i] by {
        assert(a.bound[i].0 == b.bound[i].0);
    }
    assert(bound_vars(a.bound) =~= bound_vars(b.bound));
}

/// The value of a variable that an expression does not read makes no difference to
/// its code.
proof fn lemma_unread(
    s: Lowering,
    module: CirModule,
    a: Scope,
    b: Scope,
    var: VarId,
    e: Expr,
)
    requires
        alike(a, b, var),
        !mentions(e, var),
    ensures
        lower(s, module, a, e) == lower(s, module, b, e),
    decreases e, 0nat,
{
    lemma_alike_vars(a, b, var);
    match e {
        Expr::Var(v) => lemma_alike_value(a, b, var, v),
        Expr::Unary { op, operand, ty } => lemma_unread(s, module, a, b, var, *operand),
        Expr::Binary { op, left, right, ty } => {
            lemma_unread(s, module, a, b, var, *left);
            lemma_unread(lower(s, module, a, *left).0, module, a, b, var, *right);
        },
        Expr::Until { left, right, ty } => {
            lemma_unread(s, module, a, b, var, *left);
            lemma_unread(lower(s, module, a, *left).0, module, a, b, var, *right);
        },
        Expr::Since { left, right, ty } => {
            lemma_unread(s, module, a, b, var, *left);
            lemma_unread(lower(s, module, a, *left).0, module, a, b, var, *right);
        },
        Expr::If { cond, then_branch, else_branch, ty } => {
            lemma_unread(s, module, a, b, var, *cond);
            let (s1, r1) = lower(s, module, a, *cond);
            if let Ok(c) = r1 {
                let fork = s1.at(s.depth).fork(c);
                lemma_unread(fork, module, a, b, var, *then_branch);
                let (s2, r2) = lower(fork, module, a, *then_branch);
                if let Ok(t) = r2 {
                    lemma_unread(
                        s2.leave_then(t, s1.block_ahead(2), s1.block_ahead(1)).at(s.depth),
                        module,
                        a,
                        b,
                        var,
                        *else_branch,
                    );
                }
            }
        },
        Expr::Forall { var: v, domain, body, ty } => lemma_unread_copies(
            s,
            module,
            a,
            b,
            var,
            Over::Members(v, domain),
            *body,
            true,
            domain.size(),
        ),
        Expr::Exists { var: v, domain, body, ty } => lemma_unread_copies(
            s,
            module,
            a,
            b,
            var,
            Over::Members(v, domain),
            *body,
            false,
            domain.size(),
        ),
        Expr::Always(inner, ty) => lemma_unread_copies(
            s,
            module,
            a,
            b,
            var,
            Over::Samples,
            *inner,
            true,
            samples(module, a, *inner),
        ),
        Expr::Eventually(inner, ty) => lemma_unread_copies(
            s,
            module,
            a,
            b,
            var,
            Over::Samples,
            *inner,
            false,
            samples(module, a, *inner),
        ),
        Expr::For { duration, body, ty } => lemma_unread_copies(
            s,
            module,
            a,
            b,
            var,
            Over::Samples,
            *body,
            true,
            duration as nat,
        ),
        Expr::Next(inner, ty) => lemma_unread(s, module, a, b, var, *inner),
        Expr::After { duration, body, ty } => lemma_unread(s, module, a, b, var, *body),
        _ => {},
    }
}

/// [`lemma_unread`] for instances of a body.
proof fn lemma_unread_copies(
    s: Lowering,
    module: CirModule,
    a: Scope,
    b: Scope,
    var: VarId,
    over: Over,
    body: Expr,
    all: bool,
    n: nat,
)
    requires
        alike(a, b, var),
        !mentions(body, var),
    ensures
        copies(s, module, a, over, body, all, n) == copies(s, module, b, over, body, all, n),
    decreases body, n + 1,
{
    if n > 0 {
        let last = (n - 1) as nat;
        let inner = a.instance(over, last);
        lemma_unread_copies(s, module, a, b, var, over, body, all, last);
        lemma_alike_instance(a, b, var, over, last);
        lemma_unread(
            copies(s, module, a, over, body, all, last).0.demand(inner.age <= u32::MAX),
            module,
            inner,
            b.instance(over, last),
            var,
            body,
        );
    }
}

/// The instances of a body that does not read the bound variable.
proof fn lemma_unread_members(
    s: Lowering,
    module: CirModule,
    scope: Scope,
    var: VarId,
    a: Domain,
    b: Domain,
    body: Expr,
    all: bool,
    n: nat,
)
    requires
        !mentions(body, var),
    ensures
        copies(s, module, scope, Over::Members(var, a), body, all, n) == copies(
            s,
            module,
            scope,
            Over::Members(var, b),
            body,
            all,
            n,
        ),
    decreases n,
{
    if n > 0 {
        let last = (n - 1) as nat;
        let (x, y) = (
            scope.instance(Over::Members(var, a), last),
            scope.instance(Over::Members(var, b), last),
        );
        lemma_unread_members(s, module, scope, var, a, b, body, all, last);
        assert(alike(x, y, var)) by {
            assert forall|i: int| 0 <= i < x.bound.len() implies (#[trigger] x.bound[i]).0
                == y.bound[i].0 && (x.bound[i].0 != var ==> x.bound[i] == y.bound[i]) by {}
        }
        lemma_unread(
            copies(s, module, scope, Over::Members(var, a), body, all, last).0.demand(
                x.age <= u32::MAX,
            ),
            module,
            x,
            y,
            var,
            body,
        );
    }
}

/// A quantifier whose body does not read the bound variable has the same code over
/// all domains with the same number of members, in whatever form and with whatever
/// members.
pub proof fn law_number_of_members_decides(
    s: Lowering,
    module: CirModule,
    scope: Scope,
    var: VarId,
    a: Domain,
    b: Domain,
    body: Expr,
    ty: CirType,
)
    requires
        !mentions(body, var),
        a.size() == b.size(),
    ensures
        lower(s, module, scope, (Expr::Forall { var, domain: a, body: Box::new(body), ty }))
            == lower(
            s,
            module,
            scope,
            (Expr::Forall { var, domain: b, body: Box::new(body), ty }),
        ),
        lower(s, module, scope, (Expr::Exists { var, domain: a, body: Box::new(body), ty }))
            == lower(
            s,
            module,
            scope,
            (Expr::Exists { var, domain: b, body: Box::new(body), ty }),
        ),
{
    lemma_unread_members(s, module, scope, var, a, b, body, true, a.size());
    lemma_unread_members(s, module, scope, var, a, b, body, false, a.size());
}

/// The code over a single instance is that of the body, and so is the result.
pub proof fn law_one_instance_is_the_body(
    s: Lowering,
    module: CirModule,
    scope: Scope,
    over: Over,
    body: Expr,
    all: bool,
)
    requires
        scope.instance(over, 0).age <= u32::MAX,
    ensures
        lowering::conclude(copies(s, module, scope, over, body, all, 1), all) == lower(
            s,
            module,
            scope.instance(over, 0),
            body,
        ),
{
    reveal_with_fuel(lowering::copies, 2);
    assert(s.demand(true) == s);
}

/// Where the body cannot be lowered for the first instance, the error is that of
/// the body, and nothing is lowered after it.
pub proof fn law_error_of_the_body_is_returned(
    s: Lowering,
    module: CirModule,
    scope: Scope,
    over: Over,
    body: Expr,
    all: bool,
    n: nat,
)
    requires
        n > 0,
        scope.instance(over, 0).age <= u32::MAX,
        lower(s, module, scope.instance(over, 0), body).1 is Err,
    ensures
        lowering::conclude(copies(s, module, scope, over, body, all, n), all) == lower(
            s,
            module,
            scope.instance(over, 0),
            body,
        ),
{
    law_one_instance_is_the_body(s, module, scope, over, body, all);
    reveal_with_fuel(lowering::copies, 2);
    lowering::lemma_copies_grow(s, module, scope, over, body, all, 1, n);
}

// ---------------------------------------------------------------------------
// The code of `exists` and that of `forall`
// ---------------------------------------------------------------------------

/// The statement with a disjunction for a conjunction.
pub open spec fn or_for_and(stmt: StmtView) -> StmtView {
    match stmt {
        StmtView::Assign { dest, op: AtomicOp::And(a, b), span } => StmtView::Assign {
            dest,
            op: AtomicOp::Or(a, b),
            span,
        },
        other => other,
    }
}

/// The block with the number `i`, with disjunctions for conjunctions in the given
/// places.
pub open spec fn swapped_block(block: BlockView, i: int, places: Seq<(int, int)>) -> BlockView {
    BlockView {
        stmts: Seq::new(
            block.stmts.len(),
            |j: int|
                if places.contains((i, j)) {
                    or_for_and(block.stmts[j])
                } else {
                    block.stmts[j]
                },
        ),
        ..block
    }
}

/// The blocks with disjunctions for conjunctions in the given places.
pub open spec fn swapped_blocks(blocks: Seq<BlockView>, places: Seq<(int, int)>) -> Seq<
    BlockView,
> {
    Seq::new(blocks.len(), |i: int| swapped_block(blocks[i], i, places))
}

/// The same state, but for disjunctions in the place of the conjunctions in the
/// given places: the number of a block, and that of a statement in it.
pub open spec fn swapped(s: Lowering, places: Seq<(int, int)>) -> Lowering {
    s.with(
        BuilderView {
            program: ProgramView {
                blocks: swapped_blocks(s.builder.program.blocks, places),
                ..s.builder.program
            },
            ..s.builder
        },
    )
}

/// The places are those of statements of the state.
pub open spec fn within(places: Seq<(int, int)>, s: Lowering) -> bool {
    forall|n: int|
        0 <= n < places.len() ==> {
            &&& 0 <= (#[trigger] places[n]).0 < s.builder.program.blocks.len()
            &&& 0 <= places[n].1 < s.builder.program.blocks[places[n].0].stmts.len()
        }
}

/// Places stay within a state that goes on.
proof fn lemma_within(s: Lowering, t: Lowering, places: Seq<(int, int)>)
    requires
        s.leads_to(t),
        within(places, s),
    ensures
        within(places, t),
{
    let (b, c) = (s.builder.program.blocks, t.builder.program.blocks);
    assert forall|n: int| 0 <= n < places.len() implies {
        &&& 0 <= (#[trigger] places[n]).0 < c.len()
        &&& 0 <= places[n].1 < c[places[n].0].stmts.len()
    } by {
        let i = places[n].0;
        if i != s.builder.current_block.0 {
            assert(c[i] == b[i]);
        }
    }
}

/// A statement goes to a place of its own.
proof fn lemma_swap_emit(s: Lowering, places: Seq<(int, int)>, stmt: StmtView)
    requires
        within(places, s),
        s.builder.current_block.0 < s.builder.program.blocks.len(),
    ensures
        swapped(s, places).emit(stmt) == swapped(s.emit(stmt), places),
{
    let (a, b) = (
        swapped(s, places).emit(stmt).builder.program.blocks,
        swapped(s.emit(stmt), places).builder.program.blocks,
    );
    let at = s.builder.current_block.0 as int;
    let last = s.builder.current().stmts.len() as int;
    assert(!places.contains((at, last)));
    assert forall|i: int| 0 <= i < a.len() implies #[trigger] a[i] == b[i] by {
        assert(a[i].stmts =~= b[i].stmts);
    }
    assert(a =~= b);
}

/// A join goes to a place of its own.
proof fn lemma_swap_join(
    s: Lowering,
    places: Seq<(int, int)>,
    dest: VarId,
    l: VarId,
    r: VarId,
)
    requires
        within(places, s),
        s.builder.current_block.0 < s.builder.program.blocks.len(),
    ensures
        ({
            let span = lowering::lower_span();
            let place = (
                s.builder.current_block.0 as int,
                s.builder.current().stmts.len() as int,
            );
            swapped(s, places).emit(
                (StmtView::Assign { dest, op: AtomicOp::Or(l, r), span }),
            ) == swapped(
                s.emit((StmtView::Assign { dest, op: AtomicOp::And(l, r), span })),
                places.push(place),
            )
        }),
{
    let span = lowering::lower_span();
    let at = s.builder.current_block.0 as int;
    let last = s.builder.current().stmts.len() as int;
    let more = places.push((at, last));
    let (or, and) = (
        StmtView::Assign { dest, op: AtomicOp::Or(l, r), span },
        StmtView::Assign { dest, op: AtomicOp::And(l, r), span },
    );
    let (a, b) = (
        swapped(s, places).emit(or).builder.program.blocks,
        swapped(s.emit(and), more).builder.program.blocks,
    );
    assert(more[places.len() as int] == (at, last));
    assert(more.contains((at, last)));
    assert forall|i: int, j: int| (i, j) != (at, last) implies #[trigger] more.contains((i, j))
        == places.contains((i, j)) by {
        if places.contains((i, j)) {
            let n = choose|n: int| 0 <= n < places.len() && places[n] == (i, j);
            assert(more[n] == (i, j));
        }
        if more.contains((i, j)) {
            let n = choose|n: int| 0 <= n < more.len() && more[n] == (i, j);
            assert(places[n] == (i, j));
        }
    }
    assert forall|i: int| 0 <= i < a.len() implies #[trigger] a[i] == b[i] by {
        assert(a[i].stmts =~= b[i].stmts);
    }
    assert(a =~= b);
}

/// The way out of a block is the same.
proof fn lemma_swap_terminate(s: Lowering, places: Seq<(int, int)>, terminator: TerminatorView)
    requires
        s.builder.current_block.0 < s.builder.program.blocks.len(),
    ensures
        swapped(s, places).with(swapped(s, places).builder.terminate(terminator)) == swapped(
            s.with(s.builder.terminate(terminator)),
            places,
        ),
{
    let (a, b) = (
        swapped(s, places).builder.terminate(terminator).program.blocks,
        swapped(s.with(s.builder.terminate(terminator)), places).builder.program.blocks,
    );
    assert forall|i: int| 0 <= i < a.len() implies #[trigger] a[i] == b[i] by {
        assert(a[i].stmts =~= b[i].stmts);
    }
    assert(a =~= b);
}

/// A new block is the same.
proof fn lemma_swap_block(s: Lowering, places: Seq<(int, int)>, label: Seq<char>)
    ensures
        swapped(s, places).with(swapped(s, places).builder.after_block(label)) == swapped(
            s.with(s.builder.after_block(label)),
            places,
        ),
{
    let (a, b) = (
        swapped(s, places).builder.after_block(label).program.blocks,
        swapped(s.with(s.builder.after_block(label)), places).builder.program.blocks,
    );
    assert forall|i: int| 0 <= i < a.len() implies #[trigger] a[i] == b[i] by {
        assert(a[i].stmts =~= b[i].stmts);
    }
    assert(a =~= b);
}

/// A result in a temporary.
proof fn lemma_swap_assign(s: Lowering, places: Seq<(int, int)>, op: AtomicOp)
    requires
        within(places, s),
        s.builder.current_block.0 < s.builder.program.blocks.len(),
    ensures
        swapped(s, places).assign(op) == swapped(s.assign(op), places),
{
    let stmt = StmtView::Assign { dest: s.tmp(), op, span: lowering::lower_span() };
    assert(swapped(s, places).after_scratch() == swapped(s.after_scratch(), places));
    lemma_swap_emit(s.after_scratch(), places, stmt);
}

/// A look at a history.
proof fn lemma_swap_look_back(
    s: Lowering,
    places: Seq<(int, int)>,
    module: CirModule,
    var: VarId,
    reach: nat,
    op: spec_fn(u8) -> AtomicOp,
)
    requires
        within(places, s),
        s.builder.current_block.0 < s.builder.program.blocks.len(),
    ensures
        swapped(s, places).look_back(module, var, reach, op) == (
            swapped(s.look_back(module, var, reach, op).0, places),
            s.look_back(module, var, reach, op).1,
        ),
{
    let slot = s.history(module, var);
    let t = s.after_history(module, var).demand(slot + reach <= 255);
    assert(swapped(s, places).history(module, var) == slot);
    assert(swapped(s, places).after_history(module, var).demand(slot + reach <= 255)
        == swapped(t, places));
    lemma_swap_assign(t, places, op(slot));
}

/// The blocks of a conditional.
proof fn lemma_swap_fork(s: Lowering, places: Seq<(int, int)>, cond: VarId)
    requires
        s.builder.current_block.0 < s.builder.program.blocks.len(),
    ensures
        swapped(s, places).fork(cond) == swapped(s.fork(cond), places),
{
    let s1 = s.with(s.builder.after_block("if_then"@));
    let s2 = s1.with(s1.builder.after_block("if_else"@));
    let s3 = s2.with(s2.builder.after_block("if_merge"@));
    lemma_swap_block(s, places, "if_then"@);
    lemma_swap_block(s1, places, "if_else"@);
    lemma_swap_block(s2, places, "if_merge"@);
    lemma_swap_terminate(
        s3,
        places,
        TerminatorView::Branch {
            cond,
            then_target: s.block_ahead(0),
            else_target: s.block_ahead(1),
        },
    );
}

/// The end of a branch.
proof fn lemma_swap_hand_over(
    s: Lowering,
    places: Seq<(int, int)>,
    value: VarId,
    slot: u8,
    target: BlockId,
    next: BlockId,
)
    requires
        within(places, s),
        s.builder.current_block.0 < s.builder.program.blocks.len(),
    ensures
        swapped(s, places).hand_over(value, slot, target, next) == swapped(
            s.hand_over(value, slot, target, next),
            places,
        ),
{
    let stmt = StmtView::Store { src: value, slot, span: lowering::lower_span() };
    lemma_swap_emit(s, places, stmt);
    lemma_swap_terminate(s.emit(stmt), places, TerminatorView::Jump(target));
}

/// Lowering goes on the same way, whatever was joined by what before.
#[verifier::rlimit(40)]
proof fn lemma_swap_lower(
    s: Lowering,
    module: CirModule,
    scope: Scope,
    e: Expr,
    places: Seq<(int, int)>,
)
    requires
        s.sound(),
        within(places, s),
        lower(s, module, scope, e).0.fits(),
    ensures
        lower(swapped(s, places), module, scope, e) == (
            swapped(lower(s, module, scope, e).0, places),
            lower(s, module, scope, e).1,
        ),
        within(places, lower(s, module, scope, e).0),
    decreases e, 1nat,
{
    let o = swapped(s, places);
    lowering::lemma_lower(s, module, scope, e);
    lemma_within(s, lower(s, module, scope, e).0, places);
    match e {
        Expr::Const(c) => lemma_swap_assign(s, places, AtomicOp::Const(c)),
        Expr::Var(v) => match bound_value(scope.bound, v) {
            Some(x) => lemma_swap_assign(s, places, AtomicOp::Const(ConstValue::Integer(x))),
            None => if scope.age == 0 {
                assert(o.after_map(module, v) == swapped(s.after_map(module, v), places));
            } else if !lowering::forgotten(module, scope, v, scope.age) {
                let op = |slot: u8| AtomicOp::Old { buffer: slot, depth: scope.age as usize };
                lemma_swap_look_back(s, places, module, v, scope.age, op);
            },
        },
        Expr::Unary { op, operand, ty } => {
            let (s1, r1) = lower(s, module, scope, *operand);
            lowering::lemma_lower(s, module, scope, *operand);
            lemma_swap_lower(s, module, scope, *operand, places);
            if let Ok(v) = r1 {
                lemma_swap_assign(s1.at(s.depth), places, lowering::unary_op(op, v));
            }
        },
        Expr::Binary { op, left, right, ty } => lemma_swap_both(
            s,
            module,
            scope,
            e,
            op,
            *left,
            *right,
            places,
        ),
        Expr::Until { left, right, ty } => lemma_swap_both(
            s,
            module,
            scope,
            e,
            BinOp::Or,
            *left,
            *right,
            places,
        ),
        Expr::Since { left, right, ty } => lemma_swap_both(
            s,
            module,
            scope,
            e,
            BinOp::And,
            *left,
            *right,
            places,
        ),
        Expr::If { .. } => lemma_swap_if(s, module, scope, e, places),
        Expr::Forall { var: v, domain, body, ty } => lemma_swap_concluded(
            s,
            module,
            scope,
            Over::Members(v, domain),
            *body,
            true,
            domain.size(),
            places,
        ),
        Expr::Exists { var: v, domain, body, ty } => lemma_swap_concluded(
            s,
            module,
            scope,
            Over::Members(v, domain),
            *body,
            false,
            domain.size(),
            places,
        ),
        Expr::Always(inner, ty) => lemma_swap_concluded(
            s,
            module,
            scope,
            Over::Samples,
            *inner,
            true,
            samples(module, scope, *inner),
            places,
        ),
        Expr::Eventually(inner, ty) => lemma_swap_concluded(
            s,
            module,
            scope,
            Over::Samples,
            *inner,
            false,
            samples(module, scope, *inner),
            places,
        ),
        Expr::For { duration, body, ty } => lemma_swap_concluded(
            s,
            module,
            scope,
            Over::Samples,
            *body,
            true,
            duration as nat,
            places,
        ),
        Expr::Next(inner, ty) => lemma_swap_lower(s, module, scope, *inner, places),
        Expr::After { duration, body, ty } => lemma_swap_lower(s, module, scope, *body, places),
        Expr::Old(v, ty) => if !lowering::forgotten(module, scope, v, scope.age + 1) {
            let op = |slot: u8|
                AtomicOp::Old { buffer: slot, depth: (scope.age + 1) as usize };
            lemma_swap_look_back(s, places, module, v, scope.age + 1, op);
        },
        Expr::RateOf(v, ty) => if !lowering::forgotten(module, scope, v, scope.age + 1) {
            let op = |slot: u8|
                AtomicOp::RateOf {
                    buffer: (slot + scope.age) as u8,
                    dt: binary64::real_thousandth(module.sample_period_ms),
                };
            lemma_swap_look_back(s, places, module, v, scope.age + 1, op);
        },
        Expr::Delta(v, ty) => if !lowering::forgotten(module, scope, v, scope.age + 1) {
            let op = |slot: u8| AtomicOp::Delta { buffer: (slot + scope.age) as u8 };
            lemma_swap_look_back(s, places, module, v, scope.age + 1, op);
        },
        Expr::Index { .. } => {},
        Expr::Field { .. } => {},
    }
}

/// [`lemma_swap_lower`] for two operands.
proof fn lemma_swap_both(
    s: Lowering,
    module: CirModule,
    scope: Scope,
    e: Expr,
    op: BinOp,
    left: Expr,
    right: Expr,
    places: Seq<(int, int)>,
)
    requires
        decreases_to!(e => left),
        decreases_to!(e => right),
        s.sound(),
        within(places, s),
        ({
            let (s1, r1) = lower(s, module, scope, left);
            match r1 {
                Ok(l) => lowering::on_both(
                    s.depth,
                    op,
                    l,
                    lower(s1, module, scope, right),
                ).0.fits(),
                Err(_) => s1.fits(),
            }
        }),
    ensures
        ({
            let (s1, r1) = lower(s, module, scope, left);
            let (o1, q1) = lower(swapped(s, places), module, scope, left);
            &&& o1 == swapped(s1, places)
            &&& q1 == r1
            &&& r1 matches Ok(l) ==> {
                let (t, r) = lowering::on_both(s.depth, op, l, lower(s1, module, scope, right));
                lowering::on_both(s.depth, op, l, lower(o1, module, scope, right)) == (
                    swapped(t, places),
                    r,
                )
            }
        }),
    decreases e, 0nat,
{
    let (s1, r1) = lower(s, module, scope, left);
    lowering::lemma_lower_grows(s1, module, scope, right);
    lemma_swap_lower(s, module, scope, left, places);
    lowering::lemma_lower(s, module, scope, left);
    if let Ok(l) = r1 {
        let (s2, r2) = lower(s1, module, scope, right);
        lemma_swap_lower(s1, module, scope, right, places);
        lowering::lemma_lower(s1, module, scope, right);
        if let Ok(r) = r2 {
            lemma_swap_assign(s2.at(s.depth), places, lowering::binary_op(op, l, r));
        }
    }
}

/// [`lemma_swap_lower`] for a conditional.
#[verifier::rlimit(40)]
proof fn lemma_swap_if(
    s: Lowering,
    module: CirModule,
    scope: Scope,
    e: Expr,
    places: Seq<(int, int)>,
)
    requires
        e is If,
        s.sound(),
        within(places, s),
        lower(s, module, scope, e).0.fits(),
    ensures
        lower(swapped(s, places), module, scope, e) == (
            swapped(lower(s, module, scope, e).0, places),
            lower(s, module, scope, e).1,
        ),
    decreases e, 0nat,
{
    if let Expr::If { cond, then_branch, else_branch, ty } = e {
        let (s1, r1) = lower(s, module, scope, *cond);
        if let Ok(c) = r1 {
            let s0 = s1.at(s.depth);
            let fork = s0.fork(c);
            let (s2, r2) = lower(fork, module, scope, *then_branch);
            let (otherwise, merge) = (s1.block_ahead(1), s1.block_ahead(2));
            lowering::lemma_lower_grows(fork, module, scope, *then_branch);
            let s3 = s2.leave_then(r2->Ok_0, merge, otherwise);
            let s3a = s3.at(s.depth);
            if r2 is Ok {
                lowering::lemma_lower_grows(s3a, module, scope, *else_branch);
            }
            lowering::lemma_lower(s, module, scope, *cond);
            lemma_swap_lower(s, module, scope, *cond, places);
            lowering::lemma_at(s1, s.depth);
            lowering::lemma_fork(s0, c);
            lemma_swap_fork(s0, places, c);
            lemma_within(s0, fork, places);
            lowering::lemma_lower(fork, module, scope, *then_branch);
            lemma_swap_lower(fork, module, scope, *then_branch, places);
            if let Ok(t) = r2 {
                let slot = s2.scratch();
                let set = s2.after_out();
                let constant = AtomicOp::Const(ConstValue::Bool(true));
                let (s4, r4) = lower(s3a, module, scope, *else_branch);
                lowering::lemma_leads_to_transitive(s0, fork, s2);
                lowering::lemma_compute(s2, constant);
                lemma_swap_assign(s2, places, constant);
                lemma_within(s2, set, places);
                lemma_swap_hand_over(set, places, t, slot, merge, otherwise);
                lowering::lemma_leave_then(s0, s2, t, merge, otherwise);
                lowering::lemma_at(s3, s.depth);
                lemma_within(s0, s3, places);
                lowering::lemma_lower(s3a, module, scope, *else_branch);
                lemma_swap_lower(s3a, module, scope, *else_branch, places);
                if let Ok(f) = r4 {
                    let s5 = s4.hand_over(f, slot, merge, merge);
                    lowering::lemma_leads_to_transitive(s0, s3, s3a);
                    lowering::lemma_leads_to_transitive(s0, s3a, s4);
                    lowering::lemma_hand_over(s0, s4, f, slot, merge, merge);
                    lemma_swap_hand_over(s4, places, f, slot, merge, merge);
                    lemma_within(s0, s5, places);
                    lemma_swap_assign(s5.at(s.depth), places, AtomicOp::LoadSlot(slot));
                }
            }
        } else {
            lemma_swap_lower(s, module, scope, *cond, places);
        }
    }
}

/// [`lemma_swap_lower`] for joined instances.
proof fn lemma_swap_concluded(
    s: Lowering,
    module: CirModule,
    scope: Scope,
    over: Over,
    body: Expr,
    all: bool,
    n: nat,
    places: Seq<(int, int)>,
)
    requires
        s.sound(),
        within(places, s),
        lowering::conclude(copies(s, module, scope, over, body, all, n), all).0.fits(),
    ensures
        ({
            let (t, r) = lowering::conclude(copies(s, module, scope, over, body, all, n), all);
            lowering::conclude(
                copies(swapped(s, places), module, scope, over, body, all, n),
                all,
            ) == (swapped(t, places), r)
        }),
    decreases body, n + 3,
{
    let (s1, r1) = copies(s, module, scope, over, body, all, n);
    lemma_swap_copies(s, module, scope, over, body, all, n, places);
    if r1 matches Ok(None) {
        lowering::lemma_copies(s, module, scope, over, body, all, n);
        lemma_within(s, s1, places);
        lemma_swap_assign(s1, places, AtomicOp::Const(ConstValue::Bool(all)));
    }
}

/// [`lemma_swap_lower`] for instances of a body.
proof fn lemma_swap_copies(
    s: Lowering,
    module: CirModule,
    scope: Scope,
    over: Over,
    body: Expr,
    all: bool,
    n: nat,
    places: Seq<(int, int)>,
)
    requires
        s.sound(),
        within(places, s),
        copies(s, module, scope, over, body, all, n).0.fits(),
    ensures
        copies(swapped(s, places), module, scope, over, body, all, n) == (
            swapped(copies(s, module, scope, over, body, all, n).0, places),
            copies(s, module, scope, over, body, all, n).1,
        ),
    decreases body, n + 2,
{
    if n > 0 {
        let last = (n - 1) as nat;
        let (s1, r1) = copies(s, module, scope, over, body, all, last);
        lowering::lemma_copies_grow(s, module, scope, over, body, all, last, n);
        lowering::lemma_copies(s, module, scope, over, body, all, last);
        lemma_swap_copies(s, module, scope, over, body, all, last, places);
        lemma_within(s, s1, places);
        if let Ok(joined) = r1 {
            let inner = scope.instance(over, last);
            let s0 = s1.demand(inner.age <= u32::MAX);
            let (s2, r2) = lower(s0, module, inner, body);
            lowering::lemma_lower_grows(s0, module, inner, body);
            assert(s0 == s1);
            lemma_swap_lower(s1, module, inner, body, places);
            lowering::lemma_lower(s1, module, inner, body);
            if let Ok(v) = r2 {
                if let Some(previous) = joined {
                    lemma_swap_assign(
                        s2.at(s.depth),
                        places,
                        lowering::join_op(all, previous, v),
                    );
                }
            }
        }
    }
}

/// The places of the operations that join the first `n` instances of a body under
/// `forall`, one after the other.
pub open spec fn joins(
    s: Lowering,
    module: CirModule,
    scope: Scope,
    over: Over,
    body: Expr,
    n: nat,
) -> Seq<(int, int)>
    decreases n,
{
    if n <= 1 {
        Seq::empty()
    } else {
        let last = (n - 1) as nat;
        let before = joins(s, module, scope, over, body, last);
        let (s1, r1) = copies(s, module, scope, over, body, true, last);
        let inner = scope.instance(over, last);
        let (s2, r2) = lower(s1.demand(inner.age <= u32::MAX), module, inner, body);
        if r1 is Ok && r2 is Ok {
            before.push(
                (
                    s2.builder.current_block.0 as int,
                    s2.builder.current().stmts.len() as int,
                ),
            )
        } else {
            before
        }
    }
}

/// The statement in the place is a conjunction.
pub open spec fn is_and(s: Lowering, place: (int, int)) -> bool {
    s.builder.program.blocks[place.0].stmts[place.1] matches StmtView::Assign { op, .. }
        && op is And
}

/// Conjunctions stay where they are.
proof fn lemma_and_kept(s: Lowering, t: Lowering, place: (int, int))
    requires
        s.leads_to(t),
        0 <= place.0 < s.builder.program.blocks.len(),
        0 <= place.1 < s.builder.program.blocks[place.0].stmts.len(),
        is_and(s, place),
    ensures
        is_and(t, place),
{
    let (b, c) = (s.builder.program.blocks, t.builder.program.blocks);
    if place.0 != s.builder.current_block.0 {
        assert(c[place.0] == b[place.0]);
    } else {
        assert(c[place.0].stmts[place.1] == b[place.0].stmts[place.1]);
    }
}

/// The instances under `exists` have the code of those under `forall`, with
/// disjunctions where those are joined.
#[verifier::rlimit(40)]
proof fn lemma_joined(
    s: Lowering,
    module: CirModule,
    scope: Scope,
    over: Over,
    body: Expr,
    n: nat,
)
    requires
        s.sound(),
        copies(s, module, scope, over, body, true, n).0.fits(),
    ensures
        ({
            let (t, r) = copies(s, module, scope, over, body, true, n);
            let places = joins(s, module, scope, over, body, n);
            &&& within(places, t)
            &&& copies(s, module, scope, over, body, false, n) == (swapped(t, places), r)
            &&& forall|i: int| 0 <= i < places.len() ==> is_and(t, #[trigger] places[i])
            &&& r is Ok && n > 0 ==> places.len() == n - 1
        }),
    decreases n,
{
    let (t, r) = copies(s, module, scope, over, body, true, n);
    let places = joins(s, module, scope, over, body, n);
    if n == 0 {
        lemma_swap_nothing(s);
    } else {
        let last = (n - 1) as nat;
        let (s1, r1) = copies(s, module, scope, over, body, true, last);
        let before = joins(s, module, scope, over, body, last);
        lowering::lemma_copies_grow(s, module, scope, over, body, true, last, n);
        lowering::lemma_copies(s, module, scope, over, body, true, last);
        lemma_joined(s, module, scope, over, body, last);
        if let Ok(joined) = r1 {
            let inner = scope.instance(over, last);
            let s0 = s1.demand(inner.age <= u32::MAX);
            let (s2, r2) = lower(s0, module, inner, body);
            lowering::lemma_lower_grows(s0, module, inner, body);
            assert(s0 == s1);
            assert(swapped(s1, before).demand(inner.age <= u32::MAX) == swapped(s1, before));
            lemma_swap_lower(s1, module, inner, body, before);
            lowering::lemma_lower(s1, module, inner, body);
            assert forall|i: int| 0 <= i < before.len() implies is_and(
                s2,
                #[trigger] before[i],
            ) by {
                lemma_and_kept(s1, s2, before[i]);
            }
            if let Ok(v) = r2 {
                if let Some(previous) = joined {
                    let later = s2.at(s.depth);
                    let and = AtomicOp::And(previous, v);
                    lowering::lemma_at(s2, s.depth);
                    lowering::lemma_compute(later, and);
                    lemma_within(later, later.assign(and), before);
                    assert(swapped(later, before).after_scratch() == swapped(
                        later.after_scratch(),
                        before,
                    ));
                    lemma_swap_join(
                        later.after_scratch(),
                        before,
                        later.tmp(),
                        previous,
                        v,
                    );
                    assert forall|i: int| 0 <= i < places.len() implies is_and(
                        t,
                        #[trigger] places[i],
                    ) by {
                        if i < before.len() {
                            assert(is_and(later, before[i]));
                            lemma_and_kept(later, t, before[i]);
                        }
                    }
                }
            }
        }
    }
}

/// Nothing is swapped where no places are given.
proof fn lemma_swap_nothing(s: Lowering)
    ensures
        swapped(s, Seq::empty()) == s,
{
    let (a, b) = (
        swapped(s, Seq::empty()).builder.program.blocks,
        s.builder.program.blocks,
    );
    assert forall|i: int| 0 <= i < a.len() implies #[trigger] a[i] == b[i] by {
        assert(a[i].stmts =~= b[i].stmts);
    }
    assert(a =~= b);
}

/// The code of `exists` is that of `forall`, statement by statement, but for a
/// disjunction with the same operands in the place of each conjunction that joins
/// two instances, of which there is one less than there are members. The result is
/// the same variable, or the same error. Over an empty domain the one is the
/// constant false, the other the constant true.
pub proof fn law_exists_has_the_code_of_forall(
    s: Lowering,
    module: CirModule,
    scope: Scope,
    var: VarId,
    domain: Domain,
    body: Expr,
    ty: CirType,
)
    requires
        s.sound(),
        lower(s, module, scope, (Expr::Forall { var, domain, body: Box::new(body), ty })).0.fits(),
    ensures
        ({
            let (t, r) = lower(
                s,
                module,
                scope,
                (Expr::Forall { var, domain, body: Box::new(body), ty }),
            );
            let (u, q) = lower(
                s,
                module,
                scope,
                (Expr::Exists { var, domain, body: Box::new(body), ty }),
            );
            let places = joins(
                s,
                module,
                scope,
                Over::Members(var, domain),
                body,
                domain.size(),
            );
            &&& q == r
            &&& domain.size() > 0 ==> {
                &&& within(places, t)
                &&& u == swapped(t, places)
                &&& forall|i: int| 0 <= i < places.len() ==> is_and(t, #[trigger] places[i])
                &&& r is Ok ==> places.len() == domain.size() - 1
            }
            &&& domain.size() == 0 ==> {
                &&& t == s.assign(AtomicOp::Const(ConstValue::Bool(true)))
                &&& u == s.assign(AtomicOp::Const(ConstValue::Bool(false)))
            }
        }),
{
    let over = Over::Members(var, domain);
    let n = domain.size();
    let all = Expr::Forall { var, domain, body: Box::new(body), ty };
    let some = Expr::Exists { var, domain, body: Box::new(body), ty };
    let (c, d) = (
        copies(s, module, scope, over, body, true, n),
        copies(s, module, scope, over, body, false, n),
    );
    assert(lower(s, module, scope, all) == lowering::conclude(c, true));
    assert(lower(s, module, scope, some) == lowering::conclude(d, false));
    if n > 0 {
        lemma_some(s, module, scope, over, body, true, n);
        assert(c.0.fits());
        lemma_joined(s, module, scope, over, body, n);
    } else {
        assert(c.1 matches Ok(None));
        assert(d.1 matches Ok(None));
    }
}

/// Instances, if there are any, have a variable.
proof fn lemma_some(
    s: Lowering,
    module: CirModule,
    scope: Scope,
    over: Over,
    body: Expr,
    all: bool,
    n: nat,
)
    ensures
        copies(s, module, scope, over, body, all, n).1 matches Ok(v) ==> (v is Some <==> n > 0),
    decreases n,
{
    if n > 0 {
        lemma_some(s, module, scope, over, body, all, (n - 1) as nat);
    }
}

} // verus!
