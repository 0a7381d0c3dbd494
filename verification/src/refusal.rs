//! Which expressions are not lowered.

use crate::cir::CirInvariant;
use crate::cir::CirModule;
use crate::cir::Expr;
use crate::error::GuardErrorView;
use crate::lowering::Lowering;
use crate::lowering::Over;
use crate::lowering::Scope;
use crate::lowering::bound_value;
use crate::lowering::copies;
use crate::lowering::forgotten;
use crate::lowering::forgotten_error;
use crate::lowering::guard;
use crate::lowering::lower;
use crate::lowering::lower_all;
use crate::lowering::lower_check;
use crate::lowering::lower_checks;
use crate::lowering::prepared;
use crate::lowering::samples;
use vstd::prelude::*;

verus! {

/// The first of two errors.
pub open spec fn first(a: Option<GuardErrorView>, b: Option<GuardErrorView>) -> Option<
    GuardErrorView,
> {
    match a {
        Some(e) => Some(e),
        None => b,
    }
}

/// Why an expression is not lowered: for its first part, from the left, that is an
/// access to an array or a record, or that asks for a sample that is not retained.
/// A body that is read for no instance is no part of it.
pub open spec fn refusal(module: CirModule, scope: Scope, e: Expr) -> Option<GuardErrorView>
    decreases e, 0nat,
{
    match e {
        Expr::Const(c) => None,
        Expr::Var(v) => if bound_value(scope.bound, v) is None && forgotten(
            module,
            scope,
            v,
            scope.age,
        ) {
            Some(forgotten_error())
        } else {
            None
        },
        Expr::Unary { op, operand, ty } => refusal(module, scope, *operand),
        Expr::Binary { op, left, right, ty } => first(
            refusal(module, scope, *left),
            refusal(module, scope, *right),
        ),
        Expr::If { cond, then_branch, else_branch, ty } => first(
            refusal(module, scope, *cond),
            first(refusal(module, scope, *then_branch), refusal(module, scope, *else_branch)),
        ),
        Expr::Index { .. } => Some(
            GuardErrorView::Lowering("array index lowering not yet implemented"@),
        ),
        Expr::Field { .. } => Some(
            GuardErrorView::Lowering("field access lowering not yet implemented"@),
        ),
        Expr::Forall { var, domain, body, ty } => first_refusal(
            module,
            scope,
            Over::Members(var, domain),
            *body,
            domain.size(),
        ),
        Expr::Exists { var, domain, body, ty } => first_refusal(
            module,
            scope,
            Over::Members(var, domain),
            *body,
            domain.size(),
        ),
        Expr::Always(inner, ty) => first_refusal(
            module,
            scope,
            Over::Samples,
            *inner,
            samples(module, scope, *inner),
        ),
        Expr::Eventually(inner, ty) => first_refusal(
            module,
            scope,
            Over::Samples,
            *inner,
            samples(module, scope, *inner),
        ),
        Expr::Next(inner, ty) => refusal(module, scope, *inner),
        Expr::Until { left, right, ty } => first(
            refusal(module, scope, *left),
            refusal(module, scope, *right),
        ),
        Expr::Since { left, right, ty } => first(
            refusal(module, scope, *left),
            refusal(module, scope, *right),
        ),
        Expr::For { duration, body, ty } => first_refusal(
            module,
            scope,
            Over::Samples,
            *body,
            duration as nat,
        ),
        Expr::After { duration, body, ty } => refusal(module, scope, *body),
        Expr::Old(v, ty) => refused_sample(module, scope, e),
        Expr::RateOf(v, ty) => refused_sample(module, scope, e),
        Expr::Delta(v, ty) => refused_sample(module, scope, e),
    }
}

/// Why an expression that reads the sample before the one at hand is not lowered.
pub open spec fn refused_sample(module: CirModule, scope: Scope, e: Expr) -> Option<
    GuardErrorView,
> {
    let v = match e {
        Expr::Old(v, ty) => v,
        Expr::RateOf(v, ty) => v,
        Expr::Delta(v, ty) => v,
        _ => arbitrary(),
    };
    if forgotten(module, scope, v, scope.age + 1) {
        Some(forgotten_error())
    } else {
        None
    }
}

/// Why a body is not lowered for the first of `n` instances for which it is not.
pub open spec fn first_refusal(
    module: CirModule,
    scope: Scope,
    over: Over,
    body: Expr,
    n: nat,
) -> Option<GuardErrorView>
    decreases body, n + 1,
{
    if n == 0 {
        None
    } else {
        first(
            first_refusal(module, scope, over, body, (n - 1) as nat),
            refusal(module, scope.instance(over, (n - 1) as nat), body),
        )
    }
}

/// The error of a result.
pub open spec fn error_of<T>(r: core::result::Result<T, GuardErrorView>) -> Option<
    GuardErrorView,
> {
    match r {
        Ok(_) => None,
        Err(e) => Some(e),
    }
}

/// Whether an expression is lowered depends on the expression and on what the
/// buffers retain, and on nothing that was lowered before: it fails exactly where
/// [`refusal`] says why, and with that error.
pub proof fn law_what_is_not_lowered(s: Lowering, module: CirModule, scope: Scope, e: Expr)
    ensures
        error_of(lower(s, module, scope, e).1) == refusal(module, scope, e),
    decreases e, 0nat,
{
    match e {
        Expr::Unary { op, operand, ty } => law_what_is_not_lowered(s, module, scope, *operand),
        Expr::Binary { op, left, right, ty } => {
            law_what_is_not_lowered(s, module, scope, *left);
            law_what_is_not_lowered(lower(s, module, scope, *left).0, module, scope, *right);
        },
        Expr::Until { left, right, ty } => {
            law_what_is_not_lowered(s, module, scope, *left);
            law_what_is_not_lowered(lower(s, module, scope, *left).0, module, scope, *right);
        },
        Expr::Since { left, right, ty } => {
            law_what_is_not_lowered(s, module, scope, *left);
            law_what_is_not_lowered(lower(s, module, scope, *left).0, module, scope, *right);
        },
        Expr::If { cond, then_branch, else_branch, ty } => {
            law_what_is_not_lowered(s, module, scope, *cond);
            let (s1, r1) = lower(s, module, scope, *cond);
            if let Ok(c) = r1 {
                let fork = s1.at(s.depth).fork(c);
                law_what_is_not_lowered(fork, module, scope, *then_branch);
                let (s2, r2) = lower(fork, module, scope, *then_branch);
                if let Ok(t) = r2 {
                    law_what_is_not_lowered(
                        s2.leave_then(t, s1.block_ahead(2), s1.block_ahead(1)).at(s.depth),
                        module,
                        scope,
                        *else_branch,
                    );
                }
            }
        },
        Expr::Forall { var, domain, body, ty } => lemma_copies_refused(
            s,
            module,
            scope,
            Over::Members(var, domain),
            *body,
            true,
            domain.size(),
        ),
        Expr::Exists { var, domain, body, ty } => lemma_copies_refused(
            s,
            module,
            scope,
            Over::Members(var, domain),
            *body,
            false,
            domain.size(),
        ),
        Expr::Always(inner, ty) => lemma_copies_refused(
            s,
            module,
            scope,
            Over::Samples,
            *inner,
            true,
            samples(module, scope, *inner),
        ),
        Expr::Eventually(inner, ty) => lemma_copies_refused(
            s,
            module,
            scope,
            Over::Samples,
            *inner,
            false,
            samples(module, scope, *inner),
        ),
        Expr::For { duration, body, ty } => lemma_copies_refused(
            s,
            module,
            scope,
            Over::Samples,
            *body,
            true,
            duration as nat,
        ),
        Expr::Next(inner, ty) => law_what_is_not_lowered(s, module, scope, *inner),
        Expr::After { duration, body, ty } => law_what_is_not_lowered(s, module, scope, *body),
        _ => {},
    }
}

/// [`law_what_is_not_lowered`] for instances of a body.
proof fn lemma_copies_refused(
    s: Lowering,
    module: CirModule,
    scope: Scope,
    over: Over,
    body: Expr,
    all: bool,
    n: nat,
)
    ensures
        error_of(copies(s, module, scope, over, body, all, n).1) == first_refusal(
            module,
            scope,
            over,
            body,
            n,
        ),
    decreases body, n + 1,
{
    if n > 0 {
        let last = (n - 1) as nat;
        let inner = scope.instance(over, last);
        lemma_copies_refused(s, module, scope, over, body, all, last);
        law_what_is_not_lowered(
            copies(s, module, scope, over, body, all, last).0.demand(inner.age <= u32::MAX),
            module,
            inner,
            body,
        );
    }
}

/// There is an access to an array or a record in the expression, below operations,
/// conditionals and what is checked in a single step.
pub open spec fn has_access(e: Expr) -> bool
    decreases e,
{
    match e {
        Expr::Index { .. } => true,
        Expr::Field { .. } => true,
        Expr::Unary { op, operand, ty } => has_access(*operand),
        Expr::Binary { op, left, right, ty } => has_access(*left) || has_access(*right),
        Expr::Until { left, right, ty } => has_access(*left) || has_access(*right),
        Expr::Since { left, right, ty } => has_access(*left) || has_access(*right),
        Expr::If { cond, then_branch, else_branch, ty } => has_access(*cond) || has_access(
            *then_branch,
        ) || has_access(*else_branch),
        Expr::Next(inner, ty) => has_access(*inner),
        Expr::After { duration, body, ty } => has_access(*body),
        _ => false,
    }
}

/// The expression speaks of one sample and of no domain.
pub open spec fn of_one_sample(e: Expr) -> bool
    decreases e,
{
    match e {
        Expr::Unary { op, operand, ty } => of_one_sample(*operand),
        Expr::Binary { op, left, right, ty } => of_one_sample(*left) && of_one_sample(*right),
        Expr::Until { left, right, ty } => of_one_sample(*left) && of_one_sample(*right),
        Expr::Since { left, right, ty } => of_one_sample(*left) && of_one_sample(*right),
        Expr::If { cond, then_branch, else_branch, ty } => of_one_sample(*cond)
            && of_one_sample(*then_branch) && of_one_sample(*else_branch),
        Expr::Next(inner, ty) => of_one_sample(*inner),
        Expr::After { duration, body, ty } => of_one_sample(*body),
        Expr::Forall { .. } => false,
        Expr::Exists { .. } => false,
        Expr::Always(inner, ty) => false,
        Expr::Eventually(inner, ty) => false,
        Expr::For { .. } => false,
        _ => true,
    }
}

/// What is refused of one sample is an access.
proof fn lemma_accesses(module: CirModule, scope: Scope, e: Expr)
    requires
        of_one_sample(e),
        scope.age == 0,
    ensures
        refusal(module, scope, e) is Some <==> has_access(e),
        refusal(module, scope, e) matches Some(error) ==> error == GuardErrorView::Lowering(
            "array index lowering not yet implemented"@,
        ) || error == GuardErrorView::Lowering("field access lowering not yet implemented"@),
    decreases e,
{
    match e {
        Expr::Unary { op, operand, ty } => lemma_accesses(module, scope, *operand),
        Expr::Binary { op, left, right, ty } => {
            lemma_accesses(module, scope, *left);
            lemma_accesses(module, scope, *right);
        },
        Expr::Until { left, right, ty } => {
            lemma_accesses(module, scope, *left);
            lemma_accesses(module, scope, *right);
        },
        Expr::Since { left, right, ty } => {
            lemma_accesses(module, scope, *left);
            lemma_accesses(module, scope, *right);
        },
        Expr::If { cond, then_branch, else_branch, ty } => {
            lemma_accesses(module, scope, *cond);
            lemma_accesses(module, scope, *then_branch);
            lemma_accesses(module, scope, *else_branch);
        },
        Expr::Next(inner, ty) => lemma_accesses(module, scope, *inner),
        Expr::After { duration, body, ty } => lemma_accesses(module, scope, *body),
        _ => {},
    }
}

/// An expression of one sample is lowered unless there is an access to an array or a
/// record in it, and the error says which.
pub proof fn law_accesses_are_refused(s: Lowering, module: CirModule, scope: Scope, e: Expr)
    requires
        of_one_sample(e),
        scope.age == 0,
    ensures
        lower(s, module, scope, e).1 is Err <==> has_access(e),
        lower(s, module, scope, e).1 matches Err(error) ==> error == GuardErrorView::Lowering(
            "array index lowering not yet implemented"@,
        ) || error == GuardErrorView::Lowering("field access lowering not yet implemented"@),
        e is Index ==> lower(s, module, scope, e).1->Err_0 == GuardErrorView::Lowering(
            "array index lowering not yet implemented"@,
        ),
        e is Field ==> lower(s, module, scope, e).1->Err_0 == GuardErrorView::Lowering(
            "field access lowering not yet implemented"@,
        ),
{
    lemma_accesses(module, scope, e);
    law_what_is_not_lowered(s, module, scope, e);
}

/// Why the check of an invariant is not lowered: for its guard, or else for its
/// constraint.
pub open spec fn check_refusal(module: CirModule, inv: CirInvariant) -> Option<GuardErrorView> {
    let of = |e: Expr| refusal(module, Scope::top(), e);
    match inv.when {
        Some(when) if of(when) is Some => of(when),
        _ => of(inv.ensure),
    }
}

/// A check fails exactly where one of its expressions is refused.
proof fn lemma_check_refused(s: Lowering, module: CirModule, inv: CirInvariant)
    ensures
        error_of(lower_check(s, module, inv).1) == check_refusal(module, inv),
{
    if let Some(when) = inv.when {
        law_what_is_not_lowered(s, module, Scope::top(), when);
    }
    let (s1, r1) = guard(s, module, inv);
    if let Ok(cond) = r1 {
        law_what_is_not_lowered(
            s1.at(s.depth).open_check(inv.name@, cond),
            module,
            Scope::top(),
            inv.ensure,
        );
    }
}

/// The checks of the first `n` invariants.
proof fn lemma_checks_refused(
    s: Lowering,
    module: CirModule,
    invariants: Seq<CirInvariant>,
    i: nat,
    n: nat,
)
    requires
        i <= n <= invariants.len(),
        forall|j: int| 0 <= j < i ==> check_refusal(module, #[trigger] invariants[j]) is None,
    ensures
        i == n ==> lower_checks(s, module, invariants, n).1 is Ok,
        i < n && check_refusal(module, invariants[i as int]) is Some ==> error_of(
            lower_checks(s, module, invariants, n).1,
        ) == check_refusal(module, invariants[i as int]),
    decreases n,
{
    if n > 0 {
        let before = (n - 1) as nat;
        lemma_checks_refused(
            s,
            module,
            invariants,
            if i < n {
                i
            } else {
                before
            },
            before,
        );
        let s1 = lower_checks(s, module, invariants, before).0;
        lemma_check_refused(s1, module, invariants[n - 1]);
        if i == n {
            assert(check_refusal(module, invariants[n - 1]) is None);
        }
    }
}

/// The first invariant that is not lowered decides on the error of a module, its guard
/// before its constraint, and where all are lowered, there is none.
pub proof fn law_first_refused_invariant_decides(module: CirModule, i: int)
    requires
        0 <= i <= module.invariants@.len(),
        forall|j: int|
            0 <= j < i ==> {
                let inv = #[trigger] module.invariants@[j];
                &&& refusal(module, Scope::top(), inv.ensure) is None
                &&& inv.when matches Some(when) ==> refusal(module, Scope::top(), when) is None
            },
    ensures
        i == module.invariants@.len() ==> lower_all(module).1 is Ok,
        i < module.invariants@.len() ==> {
            let inv = module.invariants@[i];
            let (ensured, guarded) = (
                refusal(module, Scope::top(), inv.ensure),
                if inv.when is Some {
                    refusal(module, Scope::top(), inv.when->0)
                } else {
                    None
                },
            );
            &&& guarded matches Some(e) ==> error_of(lower_all(module).1) == Some(e)
            &&& guarded is None && ensured is Some ==> error_of(lower_all(module).1) == ensured
        },
{
    assert forall|j: int| 0 <= j < i implies check_refusal(
        module,
        #[trigger] module.invariants@[j],
    ) is None by {}
    lemma_checks_refused(
        prepared(module).enter_loop(),
        module,
        module.invariants@,
        i as nat,
        module.invariants@.len(),
    );
}

} // verus!
