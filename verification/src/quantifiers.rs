//! What quantifiers and temporal operators say.

use crate::cir::BinOp;
use crate::cir::BufferInfo;
use crate::cir::CirModule;
use crate::cir::CirType;
use crate::cir::ConstValue;
use crate::cir::Domain;
use crate::cir::Expr;
use crate::cir::UnOp;
use crate::cir::VarId;
use crate::lowering;
use crate::lowering::Over;
use crate::lowering::Scope;
use crate::meaning::Arithmetic;
use crate::meaning::Readings;
use crate::meaning::combined;
use crate::meaning::value;
use vstd::prelude::*;

verus! {

/// Truth constants, conjunctions and disjunctions are what they are in logic.
pub open spec fn logical<V>(m: Arithmetic<V>) -> bool {
    &&& forall|b: bool| (m.truth)(#[trigger] (m.constant)(ConstValue::Bool(b))) == b
    &&& forall|a: V, b: V|
        (m.truth)(#[trigger] (m.binary)(BinOp::And, a, b)) == ((m.truth)(a) && (m.truth)(b))
    &&& forall|a: V, b: V|
        (m.truth)(#[trigger] (m.binary)(BinOp::Or, a, b)) == ((m.truth)(a) || (m.truth)(b))
}

/// Denying a conjunction is the disjunction of what is denied.
pub open spec fn dual<V>(m: Arithmetic<V>) -> bool {
    &&& (m.unary)(UnOp::Not, (m.constant)(ConstValue::Bool(true))) == (m.constant)(
        ConstValue::Bool(false),
    )
    &&& forall|a: V, b: V|
        (m.unary)(UnOp::Not, #[trigger] (m.binary)(BinOp::And, a, b)) == (m.binary)(
            BinOp::Or,
            (m.unary)(UnOp::Not, a),
            (m.unary)(UnOp::Not, b),
        )
}

/// The body holds for the instance with the number `i`.
pub open spec fn holds_for<V>(
    m: Arithmetic<V>,
    module: CirModule,
    r: Readings<V>,
    scope: Scope,
    over: Over,
    body: Expr,
    i: nat,
) -> bool {
    (m.truth)(value(m, module, r, scope.instance(over, i), body))
}

/// Joined instances hold where all of them hold, or where one of them holds.
proof fn lemma_combined<V>(
    m: Arithmetic<V>,
    module: CirModule,
    r: Readings<V>,
    scope: Scope,
    over: Over,
    body: Expr,
    n: nat,
)
    requires
        logical(m),
    ensures
        (m.truth)(combined(m, module, r, scope, over, body, true, n)) <==> forall|i: nat|
            i < n ==> #[trigger] holds_for(m, module, r, scope, over, body, i),
        (m.truth)(combined(m, module, r, scope, over, body, false, n)) <==> exists|i: nat|
            i < n && #[trigger] holds_for(m, module, r, scope, over, body, i),
    decreases n,
{
    if n > 0 {
        let last = (n - 1) as nat;
        lemma_combined(m, module, r, scope, over, body, last);
        let here = holds_for(m, module, r, scope, over, body, last);
        if exists|i: nat| i < last && #[trigger] holds_for(m, module, r, scope, over, body, i) {
            let i = choose|i: nat|
                i < last && #[trigger] holds_for(m, module, r, scope, over, body, i);
            assert(i < n && holds_for(m, module, r, scope, over, body, i));
        }
        if n > 1 {
            assert(here == (m.truth)(
                value(m, module, r, scope.instance(over, last), body),
            ));
        }
    }
}

/// `forall` holds where its body holds for every member of the domain.
pub proof fn law_forall_speaks_of_every_member<V>(
    m: Arithmetic<V>,
    module: CirModule,
    r: Readings<V>,
    scope: Scope,
    var: VarId,
    domain: Domain,
    body: Expr,
    ty: CirType,
)
    requires
        logical(m),
    ensures
        (m.truth)(
            value(
                m,
                module,
                r,
                scope,
                (Expr::Forall { var, domain, body: Box::new(body), ty }),
            ),
        ) <==> forall|i: nat|
            i < domain.size() ==> #[trigger] holds_for(
                m,
                module,
                r,
                scope,
                Over::Members(var, domain),
                body,
                i,
            ),
{
    lemma_combined(m, module, r, scope, Over::Members(var, domain), body, domain.size());
}

/// `exists` holds where its body holds for a member of the domain.
pub proof fn law_exists_speaks_of_some_member<V>(
    m: Arithmetic<V>,
    module: CirModule,
    r: Readings<V>,
    scope: Scope,
    var: VarId,
    domain: Domain,
    body: Expr,
    ty: CirType,
)
    requires
        logical(m),
    ensures
        (m.truth)(
            value(
                m,
                module,
                r,
                scope,
                (Expr::Exists { var, domain, body: Box::new(body), ty }),
            ),
        ) <==> exists|i: nat|
            i < domain.size() && #[trigger] holds_for(
                m,
                module,
                r,
                scope,
                Over::Members(var, domain),
                body,
                i,
            ),
{
    lemma_combined(m, module, r, scope, Over::Members(var, domain), body, domain.size());
}

/// `for` holds where its body holds at each of the last samples, as many as it
/// says.
pub proof fn law_for_speaks_of_the_last_samples<V>(
    m: Arithmetic<V>,
    module: CirModule,
    r: Readings<V>,
    scope: Scope,
    duration: usize,
    body: Expr,
    ty: CirType,
)
    requires
        logical(m),
    ensures
        (m.truth)(
            value(m, module, r, scope, (Expr::For { duration, body: Box::new(body), ty })),
        ) <==> forall|i: nat|
            i < duration ==> #[trigger] holds_for(
                m,
                module,
                r,
                scope,
                Over::Samples,
                body,
                i,
            ),
{
    lemma_combined(m, module, r, scope, Over::Samples, body, duration as nat);
}

/// `always` holds where its body holds at each sample that is retained, and
/// `eventually` where it holds at one of them.
pub proof fn law_always_and_eventually_speak_of_what_is_retained<V>(
    m: Arithmetic<V>,
    module: CirModule,
    r: Readings<V>,
    scope: Scope,
    body: Expr,
    ty: CirType,
)
    requires
        logical(m),
    ensures
        (m.truth)(value(m, module, r, scope, Expr::Always(Box::new(body), ty))) <==> forall|
            i: nat,
        |
            i < lowering::samples(module, scope, body) ==> #[trigger] holds_for(
                m,
                module,
                r,
                scope,
                Over::Samples,
                body,
                i,
            ),
        (m.truth)(value(m, module, r, scope, Expr::Eventually(Box::new(body), ty))) <==> exists|
            i: nat,
        |
            i < lowering::samples(module, scope, body) && #[trigger] holds_for(
                m,
                module,
                r,
                scope,
                Over::Samples,
                body,
                i,
            ),
{
    lemma_combined(
        m,
        module,
        r,
        scope,
        Over::Samples,
        body,
        lowering::samples(module, scope, body),
    );
}

/// The expression denied.
pub open spec fn denied(e: Expr, ty: CirType) -> Expr {
    Expr::Unary { op: UnOp::Not, operand: Box::new(e), ty }
}

/// Denying joined instances is joining denied ones.
proof fn lemma_denied<V>(
    m: Arithmetic<V>,
    module: CirModule,
    r: Readings<V>,
    scope: Scope,
    over: Over,
    body: Expr,
    ty: CirType,
    n: nat,
)
    requires
        dual(m),
    ensures
        (m.unary)(UnOp::Not, combined(m, module, r, scope, over, body, true, n)) == combined(
            m,
            module,
            r,
            scope,
            over,
            denied(body, ty),
            false,
            n,
        ),
    decreases n,
{
    if n > 0 {
        let last = (n - 1) as nat;
        lemma_denied(m, module, r, scope, over, body, ty, last);
        assert(value(m, module, r, scope.instance(over, last), denied(body, ty)) == (m.unary)(
            UnOp::Not,
            value(m, module, r, scope.instance(over, last), body),
        ));
    }
}

/// A body fails for some member where it does not hold for all of them: `exists`
/// is `forall` with disjunctions for conjunctions.
pub proof fn law_exists_is_dual_to_forall<V>(
    m: Arithmetic<V>,
    module: CirModule,
    r: Readings<V>,
    scope: Scope,
    var: VarId,
    domain: Domain,
    body: Expr,
    ty: CirType,
)
    requires
        dual(m),
    ensures
        value(
            m,
            module,
            r,
            scope,
            denied((Expr::Forall { var, domain, body: Box::new(body), ty }), ty),
        ) == value(
            m,
            module,
            r,
            scope,
            (Expr::Exists { var, domain, body: Box::new(denied(body, ty)), ty }),
        ),
{
    let over = Over::Members(var, domain);
    let all = Expr::Forall { var, domain, body: Box::new(body), ty };
    lemma_denied(m, module, r, scope, over, body, ty, domain.size());
    assert(value(m, module, r, scope, denied(all, ty)) == (m.unary)(
        UnOp::Not,
        value(m, module, r, scope, all),
    ));
}

// ---------------------------------------------------------------------------
// Domains by their bounds
// ---------------------------------------------------------------------------

/// The scope in which a variable is bound to an integer.
pub open spec fn binding(scope: Scope, var: VarId, x: i64) -> Scope {
    Scope { bound: scope.bound.push((var, x)), age: scope.age }
}

/// The scope in which the sample is read that lies so many further back.
pub open spec fn earlier(scope: Scope, back: nat) -> Scope {
    Scope { bound: scope.bound, age: scope.age + back }
}

/// `forall` over an interval.
pub open spec fn all_between(var: VarId, low: i64, high: i64, body: Expr, ty: CirType) -> Expr {
    Expr::Forall { var, domain: Domain::Interval { low, high }, body: Box::new(body), ty }
}

/// `exists` over an interval.
pub open spec fn some_between(var: VarId, low: i64, high: i64, body: Expr, ty: CirType) -> Expr {
    Expr::Exists { var, domain: Domain::Interval { low, high }, body: Box::new(body), ty }
}

/// `forall` over an interval holds where its body holds for every integer from the
/// lower bound to the upper one, both included, and `exists` where it holds for one
/// of them.
pub proof fn law_quantifiers_over_an_interval<V>(
    m: Arithmetic<V>,
    module: CirModule,
    r: Readings<V>,
    scope: Scope,
    var: VarId,
    low: i64,
    high: i64,
    body: Expr,
    ty: CirType,
)
    requires
        logical(m),
    ensures
        (m.truth)(value(m, module, r, scope, all_between(var, low, high, body, ty)))
            <==> forall|x: i64|
            low <= x <= high ==> (m.truth)(
                value(m, module, r, #[trigger] binding(scope, var, x), body),
            ),
        (m.truth)(value(m, module, r, scope, some_between(var, low, high, body, ty)))
            <==> exists|x: i64|
            low <= x <= high && (m.truth)(
                value(m, module, r, #[trigger] binding(scope, var, x), body),
            ),
{
    let domain = Domain::Interval { low, high };
    let over = Over::Members(var, domain);
    lemma_combined(m, module, r, scope, over, body, domain.size());
    assert forall|x: i64| low <= x <= high implies binding(scope, var, x) == scope.instance(
        over,
        (x - low) as nat,
    ) && (m.truth)(value(m, module, r, #[trigger] binding(scope, var, x), body)) == holds_for(
        m,
        module,
        r,
        scope,
        over,
        body,
        (x - low) as nat,
    ) by {}
    assert forall|i: nat| i < domain.size() implies #[trigger] holds_for(
        m,
        module,
        r,
        scope,
        over,
        body,
        i,
    ) == (m.truth)(value(m, module, r, binding(scope, var, (low + i) as i64), body)) by {}
}

/// Instances in the same scopes have the same value together.
proof fn lemma_same_instances<V>(
    m: Arithmetic<V>,
    module: CirModule,
    r: Readings<V>,
    scope: Scope,
    a: Over,
    b: Over,
    body: Expr,
    all: bool,
    n: nat,
)
    requires
        forall|i: nat| i < n ==> #[trigger] scope.instance(a, i) == scope.instance(b, i),
    ensures
        combined(m, module, r, scope, a, body, all, n) == combined(
            m,
            module,
            r,
            scope,
            b,
            body,
            all,
            n,
        ),
    decreases n,
{
    if n > 0 {
        lemma_same_instances(m, module, r, scope, a, b, body, all, (n - 1) as nat);
        assert(scope.instance(a, (n - 1) as nat) == scope.instance(b, (n - 1) as nat));
    }
}

/// The values of none, of one and of one more instance.
proof fn lemma_one_more<V>(
    m: Arithmetic<V>,
    module: CirModule,
    r: Readings<V>,
    scope: Scope,
    over: Over,
    body: Expr,
    all: bool,
    n: nat,
)
    ensures
        combined(m, module, r, scope, over, body, all, 0) == (m.constant)(ConstValue::Bool(all)),
        combined(m, module, r, scope, over, body, all, 1) == value(
            m,
            module,
            r,
            scope.instance(over, 0),
            body,
        ),
        n > 0 ==> combined(m, module, r, scope, over, body, all, n + 1) == (m.binary)(
            if all {
                BinOp::And
            } else {
                BinOp::Or
            },
            combined(m, module, r, scope, over, body, all, n),
            value(m, module, r, scope.instance(over, n), body),
        ),
{
    assert((n + 1 - 1) as nat == n);
}

/// The values of quantifiers are those of joined instances.
proof fn lemma_quantifier<V>(
    m: Arithmetic<V>,
    module: CirModule,
    r: Readings<V>,
    scope: Scope,
    var: VarId,
    low: i64,
    high: i64,
    body: Expr,
    ty: CirType,
)
    ensures
        ({
            let domain = Domain::Interval { low, high };
            let over = Over::Members(var, domain);
            let n = domain.size();
            &&& value(m, module, r, scope, all_between(var, low, high, body, ty)) == combined(
                m,
                module,
                r,
                scope,
                over,
                body,
                true,
                n,
            )
            &&& value(m, module, r, scope, some_between(var, low, high, body, ty)) == combined(
                m,
                module,
                r,
                scope,
                over,
                body,
                false,
                n,
            )
        }),
{
}

/// The value of a quantifier over an interval grows with the upper bound: it is
/// that up to the bound before, joined with that of the body for the new bound. For
/// a single integer it is the value of the body, and for none a constant.
pub proof fn law_intervals_are_gone_through_upwards<V>(
    m: Arithmetic<V>,
    module: CirModule,
    r: Readings<V>,
    scope: Scope,
    var: VarId,
    low: i64,
    high: i64,
    next: i64,
    body: Expr,
    ty: CirType,
)
    requires
        next == high + 1,
    ensures
        low <= high ==> value(m, module, r, scope, all_between(var, low, next, body, ty)) == (
        m.binary)(
            BinOp::And,
            value(m, module, r, scope, all_between(var, low, high, body, ty)),
            value(m, module, r, binding(scope, var, next), body),
        ),
        low <= high ==> value(m, module, r, scope, some_between(var, low, next, body, ty)) == (
        m.binary)(
            BinOp::Or,
            value(m, module, r, scope, some_between(var, low, high, body, ty)),
            value(m, module, r, binding(scope, var, next), body),
        ),
        value(m, module, r, scope, all_between(var, low, low, body, ty)) == value(
            m,
            module,
            r,
            binding(scope, var, low),
            body,
        ),
        value(m, module, r, scope, some_between(var, low, low, body, ty)) == value(
            m,
            module,
            r,
            binding(scope, var, low),
            body,
        ),
        low > high ==> value(m, module, r, scope, all_between(var, low, high, body, ty)) == (
        m.constant)(ConstValue::Bool(true)),
        low > high ==> value(m, module, r, scope, some_between(var, low, high, body, ty)) == (
        m.constant)(ConstValue::Bool(false)),
{
    let one = Over::Members(var, Domain::Interval { low, high: low });
    assert(scope.instance(one, 0) == binding(scope, var, low));
    lemma_quantifier(m, module, r, scope, var, low, low, body, ty);
    lemma_one_more(m, module, r, scope, one, body, true, 0);
    lemma_one_more(m, module, r, scope, one, body, false, 0);
    let (shorter, longer) = (Domain::Interval { low, high }, Domain::Interval { low, high: next });
    let (a, b) = (Over::Members(var, shorter), Over::Members(var, longer));
    let n = shorter.size();
    lemma_quantifier(m, module, r, scope, var, low, high, body, ty);
    lemma_quantifier(m, module, r, scope, var, low, next, body, ty);
    if low <= high {
        assert(longer.size() == n + 1);
        assert(scope.instance(b, n) == binding(scope, var, next));
        lemma_same_instances(m, module, r, scope, a, b, body, true, n);
        lemma_same_instances(m, module, r, scope, a, b, body, false, n);
        lemma_one_more(m, module, r, scope, b, body, true, n);
        lemma_one_more(m, module, r, scope, b, body, false, n);
    } else {
        assert(n == 0);
        lemma_one_more(m, module, r, scope, a, body, true, 0);
        lemma_one_more(m, module, r, scope, a, body, false, 0);
    }
}

/// A quantifier over an array or an enumeration is one over the interval from zero
/// to the last index.
pub proof fn law_arrays_and_enumerations_are_intervals<V>(
    m: Arithmetic<V>,
    module: CirModule,
    r: Readings<V>,
    scope: Scope,
    var: VarId,
    names: Vec<String>,
    size: usize,
    body: Expr,
    ty: CirType,
)
    requires
        size <= i64::MAX,
        names@.len() <= i64::MAX,
    ensures
        value(
            m,
            module,
            r,
            scope,
            (Expr::Forall { var, domain: Domain::Array { size }, body: Box::new(body), ty }),
        ) == value(m, module, r, scope, all_between(var, 0, (size - 1) as i64, body, ty)),
        value(
            m,
            module,
            r,
            scope,
            (Expr::Exists { var, domain: Domain::Array { size }, body: Box::new(body), ty }),
        ) == value(m, module, r, scope, some_between(var, 0, (size - 1) as i64, body, ty)),
        value(
            m,
            module,
            r,
            scope,
            (Expr::Forall { var, domain: Domain::Enum(names), body: Box::new(body), ty }),
        ) == value(m, module, r, scope, all_between(var, 0, (names@.len() - 1) as i64, body, ty)),
        value(
            m,
            module,
            r,
            scope,
            (Expr::Exists { var, domain: Domain::Enum(names), body: Box::new(body), ty }),
        ) == value(m, module, r, scope, some_between(var, 0, (names@.len() - 1) as i64, body, ty)),
{
    let (array, list) = (Domain::Array { size }, Domain::Enum(names));
    let (a, b) = (
        Domain::Interval { low: 0, high: (size - 1) as i64 },
        Domain::Interval { low: 0, high: (names@.len() - 1) as i64 },
    );
    assert(array.size() == a.size() && list.size() == b.size());
    let (x, y) = (Over::Members(var, array), Over::Members(var, a));
    assert forall|i: nat| i < array.size() implies #[trigger] scope.instance(x, i)
        == scope.instance(y, i) by {}
    lemma_same_instances(m, module, r, scope, x, y, body, true, array.size());
    lemma_same_instances(m, module, r, scope, x, y, body, false, array.size());
    let (x, y) = (Over::Members(var, list), Over::Members(var, b));
    assert forall|i: nat| i < list.size() implies #[trigger] scope.instance(x, i)
        == scope.instance(y, i) by {}
    lemma_same_instances(m, module, r, scope, x, y, body, true, list.size());
    lemma_same_instances(m, module, r, scope, x, y, body, false, list.size());
}

// ---------------------------------------------------------------------------
// Samples
// ---------------------------------------------------------------------------

/// The value of `for` grows with its duration: it is that over one sample less,
/// joined with that of the body one sample further back. Over one sample it is the
/// value of the body, and over none it is true.
pub proof fn law_samples_are_gone_through_backwards<V>(
    m: Arithmetic<V>,
    module: CirModule,
    r: Readings<V>,
    scope: Scope,
    duration: usize,
    longer: usize,
    body: Expr,
    ty: CirType,
)
    requires
        longer == duration + 1,
    ensures
        ({
            let lasting = |n: usize|
                value(m, module, r, scope, Expr::For { duration: n, body: Box::new(body), ty });
            &&& duration > 0 ==> lasting(longer) == (m.binary)(
                BinOp::And,
                lasting(duration),
                value(m, module, r, earlier(scope, duration as nat), body),
            )
            &&& lasting(1) == value(m, module, r, scope, body)
            &&& lasting(0) == (m.constant)(ConstValue::Bool(true))
        }),
{
    assert(scope.instance(Over::Samples, duration as nat) == earlier(scope, duration as nat));
    assert(scope.instance(Over::Samples, 0) == scope);
    lemma_one_more(m, module, r, scope, Over::Samples, body, true, duration as nat);
    let lasting = |n: usize|
        value(m, module, r, scope, Expr::For { duration: n, body: Box::new(body), ty });
    assert forall|n: usize| #[trigger] lasting(n) == combined(
        m,
        module,
        r,
        scope,
        Over::Samples,
        body,
        true,
        n as nat,
    ) by {}
}

/// `for` holds where its body holds at the sample at hand and at those before it, as
/// many together as it says.
pub proof fn law_for_looks_back<V>(
    m: Arithmetic<V>,
    module: CirModule,
    r: Readings<V>,
    scope: Scope,
    duration: usize,
    body: Expr,
    ty: CirType,
)
    requires
        logical(m),
    ensures
        (m.truth)(
            value(m, module, r, scope, (Expr::For { duration, body: Box::new(body), ty })),
        ) <==> forall|back: nat|
            back < duration ==> (m.truth)(
                value(m, module, r, #[trigger] earlier(scope, back), body),
            ),
{
    law_for_speaks_of_the_last_samples(m, module, r, scope, duration, body, ty);
    assert forall|i: nat| #[trigger]
        holds_for(m, module, r, scope, Over::Samples, body, i) == (m.truth)(
            value(m, module, r, earlier(scope, i), body),
        ) by {
        assert(scope.instance(Over::Samples, i) == earlier(scope, i));
    }
    assert forall|i: nat| (m.truth)(value(m, module, r, #[trigger] earlier(scope, i), body))
        == holds_for(m, module, r, scope, Over::Samples, body, i) by {}
}

/// The expression looks at the sample of the variable that lies `back` before the
/// one that is read, so far as the history buffers have to keep it.
pub open spec fn looks(bound: Seq<VarId>, e: Expr, v: VarId, back: nat) -> bool
    decreases e, 0nat,
{
    match e {
        Expr::Const(c) => false,
        Expr::Var(w) => w == v && !bound.contains(v) && back == 0,
        Expr::Unary { op, operand, ty } => looks(bound, *operand, v, back),
        Expr::Binary { op, left, right, ty } => looks(bound, *left, v, back) || looks(
            bound,
            *right,
            v,
            back,
        ),
        Expr::If { cond, then_branch, else_branch, ty } => looks(bound, *cond, v, back) || looks(
            bound,
            *then_branch,
            v,
            back,
        ) || looks(bound, *else_branch, v, back),
        Expr::Index { .. } => false,
        Expr::Field { .. } => false,
        Expr::Forall { var, domain, body, ty } => looks(bound.push(var), *body, v, back),
        Expr::Exists { var, domain, body, ty } => looks(bound.push(var), *body, v, back),
        Expr::Always(inner, ty) => looks(bound, *inner, v, back),
        Expr::Eventually(inner, ty) => looks(bound, *inner, v, back),
        Expr::Next(inner, ty) => looks(bound, *inner, v, back),
        Expr::Until { left, right, ty } => looks(bound, *left, v, back) || looks(
            bound,
            *right,
            v,
            back,
        ),
        Expr::Since { left, right, ty } => looks(bound, *left, v, back) || looks(
            bound,
            *right,
            v,
            back,
        ),
        Expr::For { duration, body, ty } => looks_within(bound, *body, v, back, duration as nat),
        Expr::After { duration, body, ty } => looks(bound, *body, v, back),
        Expr::Old(w, ty) => w == v && back == 1,
        Expr::RateOf(w, ty) => w == v && back == 1,
        Expr::Delta(w, ty) => w == v && back == 1,
    }
}

/// The expression looks at the sample when it is read at the sample at hand, or at
/// one of those before it, as many together as the number says.
pub open spec fn looks_within(
    bound: Seq<VarId>,
    e: Expr,
    v: VarId,
    back: nat,
    count: nat,
) -> bool
    decreases e, count + 1,
{
    looks(bound, e, v, back) || (count > 1 && back > 0 && looks_within(
        bound,
        e,
        v,
        (back - 1) as nat,
        (count - 1) as nat,
    ))
}

/// What is looked at from a sample is looked at from within.
proof fn lemma_within(bound: Seq<VarId>, e: Expr, v: VarId, i: nat, j: nat, count: nat)
    requires
        looks(bound, e, v, i),
        j == 0 || j < count,
    ensures
        looks_within(bound, e, v, i + j, count),
    decreases j,
{
    if j > 0 {
        lemma_within(bound, e, v, i, (j - 1) as nat, (count - 1) as nat);
    }
}

/// What is looked at from within is looked at from a sample.
proof fn lemma_looked_from(bound: Seq<VarId>, e: Expr, v: VarId, back: nat, count: nat) -> (i: nat)
    requires
        looks_within(bound, e, v, back, count),
    ensures
        looks(bound, e, v, i),
        i == back || i < back < i + count,
    decreases count,
{
    if looks(bound, e, v, back) {
        back
    } else {
        lemma_looked_from(bound, e, v, (back - 1) as nat, (count - 1) as nat)
    }
}

/// How far back a sample can be looked at, given how many are retained.
spec fn room(buffers: Seq<(u32, BufferInfo)>, v: VarId, back: nat) -> nat {
    lowering::less(lowering::retained(buffers, v, 0), back)
}

/// The number is the least room of what the expression looks at.
spec fn least_room(
    buffers: Seq<(u32, BufferInfo)>,
    bound: Seq<VarId>,
    e: Expr,
    h: Option<nat>,
) -> bool {
    match h {
        None => forall|v: VarId, back: nat| !(#[trigger] looks(bound, e, v, back)),
        Some(h) => {
            &&& exists|v: VarId, back: nat| #[trigger]
                looks(bound, e, v, back) && h == room(buffers, v, back)
            &&& forall|v: VarId, back: nat| #[trigger]
                looks(bound, e, v, back) ==> h <= room(buffers, v, back)
        },
    }
}

/// The least room of two expressions.
proof fn lemma_least(
    buffers: Seq<(u32, BufferInfo)>,
    bound: Seq<VarId>,
    a: Expr,
    b: Expr,
    e: Expr,
    x: Option<nat>,
    y: Option<nat>,
)
    requires
        least_room(buffers, bound, a, x),
        least_room(buffers, bound, b, y),
        forall|v: VarId, back: nat| #[trigger]
            looks(bound, e, v, back) <==> looks(bound, a, v, back) || looks(bound, b, v, back),
    ensures
        least_room(buffers, bound, e, lowering::least(x, y)),
{
    if let Some(h) = x {
        let (v, back) = choose|v: VarId, back: nat| #[trigger]
            looks(bound, a, v, back) && h == room(buffers, v, back);
        assert(looks(bound, e, v, back));
    }
    if let Some(h) = y {
        let (v, back) = choose|v: VarId, back: nat| #[trigger]
            looks(bound, b, v, back) && h == room(buffers, v, back);
        assert(looks(bound, e, v, back));
    }
}

/// The least room of an expression is its horizon.
proof fn lemma_horizon(buffers: Seq<(u32, BufferInfo)>, bound: Seq<VarId>, e: Expr)
    ensures
        least_room(buffers, bound, e, lowering::horizon(buffers, bound, e)),
    decreases e, 1nat,
{
    let h = lowering::horizon(buffers, bound, e);
    match e {
        Expr::Var(v) => {
            if h is Some {
                assert(looks(bound, e, v, 0) && h->0 == room(buffers, v, 0));
                assert forall|w: VarId, back: nat| #[trigger]
                    looks(bound, e, w, back) implies h->0 <= room(buffers, w, back) by {}
            } else {
                assert forall|w: VarId, back: nat| !(#[trigger] looks(bound, e, w, back)) by {}
            }
        },
        Expr::Old(v, ty) => {
            assert(looks(bound, e, v, 1) && h->0 == room(buffers, v, 1));
        },
        Expr::RateOf(v, ty) => {
            assert(looks(bound, e, v, 1) && h->0 == room(buffers, v, 1));
        },
        Expr::Delta(v, ty) => {
            assert(looks(bound, e, v, 1) && h->0 == room(buffers, v, 1));
        },
        Expr::Unary { op, operand, ty } => {
            lemma_horizon(buffers, bound, *operand);
            lemma_same_looks(buffers, bound, *operand, bound, e, h);
        },
        Expr::Binary { op, left, right, ty } => lemma_both(buffers, bound, e, *left, *right),
        Expr::Until { left, right, ty } => lemma_both(buffers, bound, e, *left, *right),
        Expr::Since { left, right, ty } => lemma_both(buffers, bound, e, *left, *right),
        Expr::If { cond, then_branch, else_branch, ty } => {
            lemma_horizon(buffers, bound, *cond);
            lemma_horizon(buffers, bound, *then_branch);
            lemma_horizon(buffers, bound, *else_branch);
            let pair = Expr::Until { left: then_branch, right: else_branch, ty };
            let (x, y, z) = (
                lowering::horizon(buffers, bound, *cond),
                lowering::horizon(buffers, bound, *then_branch),
                lowering::horizon(buffers, bound, *else_branch),
            );
            lemma_least(buffers, bound, *then_branch, *else_branch, pair, y, z);
            assert forall|v: VarId, back: nat| #[trigger] looks(bound, e, v, back) <==> looks(
                bound,
                *cond,
                v,
                back,
            ) || looks(bound, pair, v, back) by {}
            lemma_least(buffers, bound, *cond, pair, e, x, lowering::least(y, z));
        },
        Expr::Forall { var, domain, body, ty } => {
            lemma_horizon(buffers, bound.push(var), *body);
            lemma_same_looks(buffers, bound.push(var), *body, bound, e, h);
        },
        Expr::Exists { var, domain, body, ty } => {
            lemma_horizon(buffers, bound.push(var), *body);
            lemma_same_looks(buffers, bound.push(var), *body, bound, e, h);
        },
        Expr::Always(inner, ty) => {
            lemma_horizon(buffers, bound, *inner);
            lemma_same_looks(buffers, bound, *inner, bound, e, h);
        },
        Expr::Eventually(inner, ty) => {
            lemma_horizon(buffers, bound, *inner);
            lemma_same_looks(buffers, bound, *inner, bound, e, h);
        },
        Expr::Next(inner, ty) => {
            lemma_horizon(buffers, bound, *inner);
            lemma_same_looks(buffers, bound, *inner, bound, e, h);
        },
        Expr::After { duration, body, ty } => {
            lemma_horizon(buffers, bound, *body);
            lemma_same_looks(buffers, bound, *body, bound, e, h);
        },
        Expr::For { duration, body, ty } => {
            lemma_horizon(buffers, bound, *body);
            let inner = lowering::horizon(buffers, bound, *body);
            let further = lowering::less(duration as nat, 1);
            match inner {
                Some(x) => {
                    let (v, back) = choose|v: VarId, back: nat| #[trigger]
                        looks(bound, *body, v, back) && x == room(buffers, v, back);
                    let far = back + further;
                    lemma_within(bound, *body, v, back, further, duration as nat);
                    assert(looks(bound, e, v, far));
                    assert(h->0 == room(buffers, v, far));
                    assert forall|v: VarId, back: nat| #[trigger]
                        looks(bound, e, v, back) implies h->0 <= room(buffers, v, back) by {
                        let i = lemma_looked_from(bound, *body, v, back, duration as nat);
                        assert(x <= room(buffers, v, i));
                    }
                },
                None => {
                    assert forall|v: VarId, back: nat| !(#[trigger] looks(bound, e, v, back)) by {
                        if looks(bound, e, v, back) {
                            let i = lemma_looked_from(bound, *body, v, back, duration as nat);
                        }
                    }
                },
            }
        },
        _ => {},
    }
}

/// Expressions that look at the same have the same room.
proof fn lemma_same_looks(
    buffers: Seq<(u32, BufferInfo)>,
    b: Seq<VarId>,
    a: Expr,
    bound: Seq<VarId>,
    e: Expr,
    h: Option<nat>,
)
    requires
        least_room(buffers, b, a, h),
        forall|v: VarId, back: nat|
            (#[trigger] looks(bound, e, v, back)) == looks(b, a, v, back),
    ensures
        least_room(buffers, bound, e, h),
{
    if let Some(x) = h {
        let (v, back) = choose|v: VarId, back: nat| #[trigger]
            looks(b, a, v, back) && x == room(buffers, v, back);
        assert(looks(bound, e, v, back));
    }
}

/// [`lemma_horizon`] for two operands.
proof fn lemma_both(
    buffers: Seq<(u32, BufferInfo)>,
    bound: Seq<VarId>,
    e: Expr,
    left: Expr,
    right: Expr,
)
    requires
        decreases_to!(e => left),
        decreases_to!(e => right),
        lowering::horizon(buffers, bound, e) == lowering::least(
            lowering::horizon(buffers, bound, left),
            lowering::horizon(buffers, bound, right),
        ),
        forall|v: VarId, back: nat| #[trigger]
            looks(bound, e, v, back) <==> looks(bound, left, v, back) || looks(
                bound,
                right,
                v,
                back,
            ),
    ensures
        least_room(buffers, bound, e, lowering::horizon(buffers, bound, e)),
    decreases e, 0nat,
{
    lemma_horizon(buffers, bound, left);
    lemma_horizon(buffers, bound, right);
    lemma_least(
        buffers,
        bound,
        left,
        right,
        e,
        lowering::horizon(buffers, bound, left),
        lowering::horizon(buffers, bound, right),
    );
}

/// The samples that `always` and `eventually` speak of are those for which
/// everything that their body looks at is retained, and no fewer: one sample further
/// back, something would be missing. The sample that is read counts in any case, and
/// it alone where the body looks at no variable.
pub proof fn law_samples_that_can_be_looked_at(module: CirModule, scope: Scope, body: Expr)
    ensures
        ({
            let n = lowering::samples(module, scope, body);
            let bound = lowering::bound_vars(scope.bound);
            let depth = |v: VarId| lowering::retained(module.symbol_table.buffers@, v, 0);
            &&& n >= 1
            &&& n > 1 ==> forall|v: VarId, back: nat| #[trigger]
                looks(bound, body, v, back) ==> scope.age + (n - 1) + back <= depth(v)
            &&& (exists|v: VarId, back: nat| #[trigger] looks(bound, body, v, back))
                ==> exists|v: VarId, back: nat| #[trigger]
                looks(bound, body, v, back) && scope.age + n + back > depth(v)
            &&& (forall|v: VarId, back: nat| !(#[trigger] looks(bound, body, v, back))) ==> n == 1
        }),
{
    let buffers = module.symbol_table.buffers@;
    let bound = lowering::bound_vars(scope.bound);
    let n = lowering::samples(module, scope, body);
    lemma_horizon(buffers, bound, body);
    match lowering::horizon(buffers, bound, body) {
        Some(h) => {
            let (v, back) = choose|v: VarId, back: nat| #[trigger]
                looks(bound, body, v, back) && h == room(buffers, v, back);
            assert(looks(bound, body, v, back));
            assert(scope.age + n + back > lowering::retained(buffers, v, 0));
            assert forall|v: VarId, back: nat| #[trigger]
                looks(bound, body, v, back) && n > 1 implies scope.age + (n - 1) + back
                <= lowering::retained(buffers, v, 0) by {
                assert(h <= room(buffers, v, back));
            }
        },
        None => {},
    }
}

/// As many samples of a variable are retained as the first buffer that records it
/// has depth, and none where no buffer does.
pub proof fn law_first_buffer_decides(buffers: Seq<(u32, BufferInfo)>, v: VarId, i: int, from: int)
    requires
        0 <= from <= i <= buffers.len(),
        forall|j: int| from <= j < i ==> (#[trigger] buffers[j]).1.var != v,
        i < buffers.len() ==> buffers[i].1.var == v,
    ensures
        i < buffers.len() ==> lowering::retained(buffers, v, from) == buffers[i].1.depth,
        i == buffers.len() ==> lowering::retained(buffers, v, from) == 0,
    decreases i - from,
{
    if from < i {
        law_first_buffer_decides(buffers, v, i, from + 1);
    }
}

/// `always` holds where its body holds at all samples back from the one that is
/// read, so many as can be looked at, and `eventually` where it holds at one.
/// `always` is `for` over that many samples.
pub proof fn law_always_and_eventually_look_back<V>(
    m: Arithmetic<V>,
    module: CirModule,
    r: Readings<V>,
    scope: Scope,
    duration: usize,
    body: Expr,
    ty: CirType,
)
    requires
        logical(m),
        duration == lowering::samples(module, scope, body),
    ensures
        value(m, module, r, scope, Expr::Always(Box::new(body), ty)) == value(
            m,
            module,
            r,
            scope,
            (Expr::For { duration, body: Box::new(body), ty }),
        ),
        (m.truth)(value(m, module, r, scope, Expr::Eventually(Box::new(body), ty))) <==> exists|
            back: nat,
        |
            back < duration && (m.truth)(
                value(m, module, r, #[trigger] earlier(scope, back), body),
            ),
{
    law_always_and_eventually_speak_of_what_is_retained(m, module, r, scope, body, ty);
    assert forall|i: nat| #[trigger]
        holds_for(m, module, r, scope, Over::Samples, body, i) == (m.truth)(
            value(m, module, r, earlier(scope, i), body),
        ) by {
        assert(scope.instance(Over::Samples, i) == earlier(scope, i));
    }
    assert forall|i: nat| (m.truth)(value(m, module, r, #[trigger] earlier(scope, i), body))
        == holds_for(m, module, r, scope, Over::Samples, body, i) by {}
}

/// Something fails at some sample where it does not hold at all of them:
/// `eventually` is `always` with disjunctions for conjunctions.
pub proof fn law_eventually_is_dual_to_always<V>(
    m: Arithmetic<V>,
    module: CirModule,
    r: Readings<V>,
    scope: Scope,
    body: Expr,
    ty: CirType,
)
    requires
        dual(m),
    ensures
        value(m, module, r, scope, denied(Expr::Always(Box::new(body), ty), ty)) == value(
            m,
            module,
            r,
            scope,
            Expr::Eventually(Box::new(denied(body, ty)), ty),
        ),
{
    let n = lowering::samples(module, scope, body);
    assert(lowering::samples(module, scope, denied(body, ty)) == n);
    lemma_denied(m, module, r, scope, Over::Samples, body, ty, n);
    assert(value(m, module, r, scope, denied(Expr::Always(Box::new(body), ty), ty)) == (m.unary)(
        UnOp::Not,
        value(m, module, r, scope, Expr::Always(Box::new(body), ty)),
    ));
}

} // verus!
