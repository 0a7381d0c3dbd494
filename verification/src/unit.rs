//! Physical units as power products of base dimensions.

use crate::table;
use crate::table::Table;
use crate::text;
use vstd::prelude::*;

verus! {

/// A physical unit expressed as a power product of base dimensions.
/// Examples:
///   - `m·s⁻²`   → `Length¹ · Time⁻²`
///   - `%`       → `Dimensionless`
///   - `kg·m/s`  → `Mass¹ · Length¹ · Time⁻¹`
#[derive(Debug, PartialEq, Eq, Hash)]
pub enum Unit {
    Dimensionless,
    Base(BaseDimension, i32),  // dimension and exponent
    Product(Vec<(BaseDimension, i32)>),
}

impl Clone for Unit {
    fn clone(&self) -> (copy: Self)
        ensures
            copy@ == self@,
    {
        match self {
            Unit::Dimensionless => Unit::Dimensionless,
            Unit::Base(d, e) => Unit::Base(*d, *e),
            Unit::Product(terms) => {
                let mut copies: Vec<(BaseDimension, i32)> = Vec::new();
                for i in 0..terms.len()
                    invariant
                        copies@ == terms@.take(i as int),
                {
                    copies.push(terms[i]);
                    assert(copies@ =~= terms@.take(i + 1));
                }
                assert(terms@.take(terms@.len() as int) =~= terms@);
                Unit::Product(copies)
            },
        }
    }
}

#[derive(Debug, Clone, Copy, PartialEq, Eq, Hash)]
pub enum BaseDimension {
    Length,
    Mass,
    Time,
    Temperature,
    Angle,
    Current,
    Amount,
}

/// A unit with its terms as a sequence.
#[verifier::ext_equal]
pub enum UnitView {
    Dimensionless,
    Base(BaseDimension, i32),
    Product(Seq<(BaseDimension, i32)>),
}

impl View for Unit {
    type V = UnitView;

    open spec fn view(&self) -> UnitView {
        match *self {
            Unit::Dimensionless => UnitView::Dimensionless,
            Unit::Base(d, e) => UnitView::Base(d, e),
            Unit::Product(terms) => UnitView::Product(terms@),
        }
    }
}

/// The base dimensions in their canonical order.
pub open spec fn dimensions() -> Seq<BaseDimension> {
    seq![
        BaseDimension::Length,
        BaseDimension::Mass,
        BaseDimension::Time,
        BaseDimension::Temperature,
        BaseDimension::Angle,
        BaseDimension::Current,
        BaseDimension::Amount,
    ]
}

/// The place of a dimension in the canonical order.
pub open spec fn rank(d: BaseDimension) -> u32 {
    match d {
        BaseDimension::Length => 0,
        BaseDimension::Mass => 1,
        BaseDimension::Time => 2,
        BaseDimension::Temperature => 3,
        BaseDimension::Angle => 4,
        BaseDimension::Current => 5,
        BaseDimension::Amount => 6,
    }
}

/// The sum of the exponents that the terms give to a dimension.
pub open spec fn exponent_in(terms: Seq<(BaseDimension, i32)>, d: BaseDimension) -> int
    decreases terms.len(),
{
    if terms.len() == 0 {
        0
    } else {
        exponent_in(terms.drop_last(), d) + (if terms.last().0 == d {
            terms.last().1 as int
        } else {
            0
        })
    }
}

/// The exponents of every dimension, added up from the first term on, stay
/// within 32 bits.
pub open spec fn sums_fit(terms: Seq<(BaseDimension, i32)>) -> bool {
    forall|k: int, d: BaseDimension|
        0 <= k <= terms.len() ==> i32::MIN <= #[trigger] exponent_in(terms.take(k), d) <= i32::MAX
}

/// The dimensions with a nonzero exponent, in canonical order, each with its exponent.
pub open spec fn nonzero_terms(exponents: spec_fn(BaseDimension) -> int) -> Seq<
    (BaseDimension, i32),
> {
    dimensions().filter(|d: BaseDimension| exponents(d) != 0).map_values(
        |d: BaseDimension| (d, exponents(d) as i32),
    )
}

/// The unit with the given exponents: no term, one base term, or a product in
/// canonical order.
pub open spec fn unit_with(exponents: spec_fn(BaseDimension) -> int) -> UnitView {
    let terms = nonzero_terms(exponents);
    if terms.len() == 0 {
        UnitView::Dimensionless
    } else if terms.len() == 1 {
        UnitView::Base(terms[0].0, terms[0].1)
    } else {
        UnitView::Product(terms)
    }
}

impl UnitView {
    /// The terms as they are written.
    pub open spec fn terms(self) -> Seq<(BaseDimension, i32)> {
        match self {
            UnitView::Dimensionless => seq![],
            UnitView::Base(d, e) => seq![(d, e)],
            UnitView::Product(terms) => terms,
        }
    }

    /// The exponent of a dimension.
    pub open spec fn exponent(self, d: BaseDimension) -> int {
        exponent_in(self.terms(), d)
    }

    /// The exponents can be added up within 32 bits.
    pub open spec fn fits(self) -> bool {
        sums_fit(self.terms())
    }

    /// The canonical form: the unit with the same exponents, its terms combined
    /// and sorted.
    pub open spec fn normalized(self) -> UnitView {
        unit_with(|d: BaseDimension| self.exponent(d))
    }

    /// The product of two units: exponents are added.
    pub open spec fn times(self, other: UnitView) -> UnitView {
        unit_with(|d: BaseDimension| self.exponent(d) + other.exponent(d))
    }

    /// The quotient of two units: exponents are subtracted.
    pub open spec fn over(self, other: UnitView) -> UnitView {
        unit_with(|d: BaseDimension| self.exponent(d) - other.exponent(d))
    }

    /// The unit as text: its normalized terms joined by a centred dot.
    pub open spec fn text(self) -> Seq<char> {
        if self.normalized() == UnitView::Dimensionless {
            "1"@
        } else {
            joined(self.normalized().terms())
        }
    }
}

/// A dimension's symbol, with the exponent unless it is one.
pub open spec fn term_text(d: BaseDimension, e: i32) -> Seq<char> {
    if e == 1 {
        d.symbol()
    } else {
        d.symbol() + "^"@ + text::signed_decimal(e as int)
    }
}

/// The texts of the terms, joined by a centred dot.
pub open spec fn joined(terms: Seq<(BaseDimension, i32)>) -> Seq<char>
    decreases terms.len(),
{
    if terms.len() == 0 {
        Seq::empty()
    } else if terms.len() == 1 {
        term_text(terms[0].0, terms[0].1)
    } else {
        joined(terms.drop_last()) + "·"@ + term_text(terms.last().0, terms.last().1)
    }
}

impl BaseDimension {
    /// The symbol of the dimension's unit.
    pub open spec fn symbol(self) -> Seq<char> {
        match self {
            BaseDimension::Length => "m"@,
            BaseDimension::Mass => "kg"@,
            BaseDimension::Time => "s"@,
            BaseDimension::Temperature => "K"@,
            BaseDimension::Angle => "rad"@,
            BaseDimension::Current => "A"@,
            BaseDimension::Amount => "mol"@,
        }
    }

    /// The symbol of the dimension's unit.
    pub fn as_str(&self) -> (s: &'static str)
        ensures
            s@ == self.symbol(),
    {
        match self {
            BaseDimension::Length => "m",
            BaseDimension::Mass => "kg",
            BaseDimension::Time => "s",
            BaseDimension::Temperature => "K",
            BaseDimension::Angle => "rad",
            BaseDimension::Current => "A",
            BaseDimension::Amount => "mol",
        }
    }
}

fn rank_of(d: BaseDimension) -> (r: u32)
    ensures
        r == rank(d),
        r < 7,
        dimensions()[r as int] == d,
{
    match d {
        BaseDimension::Length => 0,
        BaseDimension::Mass => 1,
        BaseDimension::Time => 2,
        BaseDimension::Temperature => 3,
        BaseDimension::Angle => 4,
        BaseDimension::Current => 5,
        BaseDimension::Amount => 6,
    }
}

fn dimension_at(r: u32) -> (d: BaseDimension)
    requires
        r < 7,
    ensures
        d == dimensions()[r as int],
        rank(d) == r,
{
    if r == 0 {
        BaseDimension::Length
    } else if r == 1 {
        BaseDimension::Mass
    } else if r == 2 {
        BaseDimension::Time
    } else if r == 3 {
        BaseDimension::Temperature
    } else if r == 4 {
        BaseDimension::Angle
    } else if r == 5 {
        BaseDimension::Current
    } else {
        BaseDimension::Amount
    }
}

/// The exponent that a table keeps for a dimension, zero where it has none.
spec fn kept(entries: Seq<(u32, i32)>, d: BaseDimension) -> int {
    match table::lookup(entries, rank(d)) {
        Some(e) => e as int,
        None => 0,
    }
}

fn kept_exponent(sums: &Table<i32>, d: BaseDimension) -> (e: i32)
    ensures
        e == kept(sums@, d),
        table::keys_distinct(sums@),
{
    match sums.get(rank_of(d)) {
        Some(e) => *e,
        None => 0,
    }
}

/// The combined and sorted terms.
fn combine(terms: &Vec<(BaseDimension, i32)>) -> (out: Vec<(BaseDimension, i32)>)
    requires
        sums_fit(terms@),
    ensures
        out@ == nonzero_terms(|d: BaseDimension| exponent_in(terms@, d)),
{
    let mut sums: Table<i32> = Table::new();
    for i in 0..terms.len()
        invariant
            sums_fit(terms@),
            forall|d: BaseDimension| #[trigger]
                kept(sums@, d) == exponent_in(terms@.take(i as int), d),
    {
        let (d, e) = terms[i];
        let ghost before = sums@;
        let ghost step = terms@.take(i + 1);
        proof {
            assert(step.drop_last() =~= terms@.take(i as int));
            assert(i32::MIN <= exponent_in(step, d) <= i32::MAX);
        }
        let sum: i32 = kept_exponent(&sums, d) + e;
        sums.insert(rank_of(d), sum);
        proof {
            assert forall|o: BaseDimension| #[trigger]
                kept(sums@, o) == exponent_in(step, o) by {
                table::law_lookup_after_put(before, rank(d), sum, rank(o));
                assert(kept(before, o) == exponent_in(terms@.take(i as int), o));
                assert(rank(o) == rank(d) ==> o == d);
            }
        }
    }
    assert(terms@.take(terms@.len() as int) =~= terms@);
    let ghost exponents = |d: BaseDimension| exponent_in(terms@, d);
    let ghost nonzero = |d: BaseDimension| exponents(d) != 0;
    let ghost pairing = |d: BaseDimension| (d, exponents(d) as i32);
    let mut out: Vec<(BaseDimension, i32)> = Vec::new();
    assert(dimensions().take(0) =~= Seq::<BaseDimension>::empty());
    reveal(Seq::filter);
    for r in 0u32..7u32
        invariant
            forall|d: BaseDimension| #[trigger] kept(sums@, d) == exponent_in(terms@, d),
            exponents == (|d: BaseDimension| exponent_in(terms@, d)),
            nonzero == (|d: BaseDimension| exponents(d) != 0),
            pairing == (|d: BaseDimension| (d, exponents(d) as i32)),
            out@ == dimensions().take(r as int).filter(nonzero).map_values(pairing),
    {
        let d = dimension_at(r);
        let e: i32 = kept_exponent(&sums, d);
        proof {
            reveal(Seq::filter);
            let front = dimensions().take(r as int);
            let next = dimensions().take(r + 1);
            assert(next.drop_last() =~= front);
            assert(next.last() == d);
            assert(kept(sums@, d) == exponents(d));
        }
        if e != 0 {
            out.push((d, e));
        }
        assert(out@ =~= dimensions().take(r + 1).filter(nonzero).map_values(pairing));
    }
    assert(dimensions().take(7) =~= dimensions());
    out
}

impl Unit {
    /// Normalize a unit to canonical form (sorted, combined exponents).
    pub fn normalize(&self) -> (unit: Unit)
        requires
            self@.fits(),
        ensures
            unit@ == self@.normalized(),
            unit@.fits(),
    {
        proof {
            lemma_normal_form_fits(self@);
        }
        let ghost exponents = |d: BaseDimension| self@.exponent(d);
        match self {
            Unit::Dimensionless => {
                proof {
                    lemma_no_terms(exponents);
                }
                Unit::Dimensionless
            },
            Unit::Base(d, e) => {
                proof {
                    reveal_with_fuel(exponent_in, 2);
                    assert(seq![(*d, *e)].drop_last() =~= Seq::empty());
                }
                if *e == 0 {
                    proof {
                        lemma_no_terms(exponents);
                    }
                    Unit::Dimensionless
                } else {
                    proof {
                        lemma_one_term(exponents, *d);
                    }
                    Unit::Base(*d, *e)
                }
            },
            Unit::Product(terms) => {
                let pairs = combine(terms);
                proof {
                    assert(exponents =~= (|d: BaseDimension| exponent_in(terms@, d)));
                }
                if pairs.len() == 0 {
                    Unit::Dimensionless
                } else if pairs.len() == 1 {
                    let (d, e) = pairs[0];
                    Unit::Base(d, e)
                } else {
                    Unit::Product(pairs)
                }
            },
        }
    }

    /// Multiply two units.
    pub fn mul(&self, other: &Unit) -> (unit: Unit)
        requires
            self@.fits(),
            other@.fits(),
            forall|d: BaseDimension|
                i32::MIN <= #[trigger] self@.exponent(d) + other@.exponent(d) <= i32::MAX,
        ensures
            unit@ == self@.times(other@),
            unit@.fits(),
    {
        let mut terms = self.to_terms();
        let mut others = other.to_terms();
        proof {
            lemma_normalized(self@);
            lemma_normalized(other@);
            assert forall|d: BaseDimension|
                i32::MIN <= exponent_in(terms@, d) + #[trigger] exponent_in(others@, d)
                    <= i32::MAX by {
                assert(exponent_in(terms@, d) == self@.exponent(d));
                assert(exponent_in(others@, d) == other@.exponent(d));
            }
            lemma_joined_sums_fit(terms@, others@);
        }
        let ghost (a, b) = (terms@, others@);
        terms.append(&mut others);
        proof {
            assert(terms@ =~= a + b);
            let f = |d: BaseDimension| UnitView::Product(terms@).exponent(d);
            let g = |d: BaseDimension| self@.exponent(d) + other@.exponent(d);
            assert forall|d: BaseDimension| #[trigger] f(d) == g(d) by {
                lemma_exponent_of_joined(a, b, d);
                assert(exponent_in(a, d) == self@.exponent(d));
                assert(exponent_in(b, d) == other@.exponent(d));
            }
            assert(f =~= g);
        }
        Unit::Product(terms).normalize()
    }

    /// Divide two units.
    pub fn div(&self, other: &Unit) -> (unit: Unit)
        requires
            self@.fits(),
            other@.fits(),
            forall|d: BaseDimension| -#[trigger] other@.exponent(d) <= i32::MAX,
            forall|d: BaseDimension|
                i32::MIN <= #[trigger] self@.exponent(d) - other@.exponent(d) <= i32::MAX,
        ensures
            unit@ == self@.over(other@),
            unit@.fits(),
    {
        let mut terms = self.to_terms();
        let others = other.to_terms();
        proof {
            lemma_normalized(self@);
            lemma_normalized(other@);
        }
        let ghost a = terms@;
        let ghost b = others@;
        let ghost neg = negated(b);
        for i in 0..others.len()
            invariant
                b == others@,
                neg == negated(b),
                distinct_dimensions(b),
                forall|d: BaseDimension| -#[trigger] other@.exponent(d) <= i32::MAX,
                forall|d: BaseDimension| #[trigger] exponent_in(b, d) == other@.exponent(d),
                terms@ == a + neg.take(i as int),
        {
            let (d, e) = others[i];
            proof {
                lemma_exponent_of_distinct(b, i as int);
                assert(exponent_in(b, d) == other@.exponent(d));
                assert(neg.take(i + 1) =~= neg.take(i as int).push((d, (-e) as i32)));
            }
            terms.push((d, -e));
        }
        proof {
            assert(neg.take(b.len() as int) =~= neg);
            assert forall|i: int| 0 <= i < b.len() implies (#[trigger] b[i]).1 != i32::MIN by {
                lemma_exponent_of_distinct(b, i);
                assert(exponent_in(b, b[i].0) == other@.exponent(b[i].0));
            }
            assert forall|d: BaseDimension| #[trigger]
                exponent_in(neg, d) == -other@.exponent(d) by {
                lemma_exponent_of_negated(b, d);
                assert(exponent_in(b, d) == other@.exponent(d));
            }
            assert forall|d: BaseDimension|
                i32::MIN <= exponent_in(a, d) + #[trigger] exponent_in(neg, d) <= i32::MAX by {
                assert(exponent_in(a, d) == self@.exponent(d));
                assert(self@.exponent(d) - other@.exponent(d) <= i32::MAX);
            }
            lemma_joined_sums_fit(a, neg);
            let f = |d: BaseDimension| UnitView::Product(terms@).exponent(d);
            let g = |d: BaseDimension| self@.exponent(d) - other@.exponent(d);
            assert forall|d: BaseDimension| #[trigger] f(d) == g(d) by {
                lemma_exponent_of_joined(a, neg, d);
                assert(exponent_in(a, d) == self@.exponent(d));
            }
            assert(f =~= g);
        }
        Unit::Product(terms).normalize()
    }

    /// The terms of the normalized unit.
    fn to_terms(&self) -> (terms: Vec<(BaseDimension, i32)>)
        requires
            self@.fits(),
        ensures
            terms@ == self@.normalized().terms(),
    {
        match self.normalize() {
            Unit::Dimensionless => Vec::new(),
            Unit::Base(d, e) => {
                let mut terms: Vec<(BaseDimension, i32)> = Vec::new();
                terms.push((d, e));
                assert(terms@ =~= seq![(d, e)]);
                terms
            },
            Unit::Product(terms) => terms,
        }
    }

    /// The unit as text: its normalized terms joined by a centred dot.
    pub fn text(&self) -> (out: String)
        requires
            self@.fits(),
        ensures
            out@ == self@.text(),
    {
        match self.normalize() {
            Unit::Dimensionless => "1".to_owned(),
            Unit::Base(d, e) => {
                let mut out = String::new();
                push_term(&mut out, d, e);
                assert(out@ =~= term_text(d, e));
                assert(seq![(d, e)].len() == 1);
                out
            },
            Unit::Product(terms) => {
                let mut out = String::new();
                for i in 0..terms.len()
                    invariant
                        out@ == joined(terms@.take(i as int)),
                {
                    let (d, e) = terms[i];
                    if i > 0 {
                        out.push_str("·");
                    }
                    push_term(&mut out, d, e);
                    proof {
                        assert(terms@.take(i + 1).drop_last() =~= terms@.take(i as int));
                        assert(out@ =~= joined(terms@.take(i + 1)));
                    }
                }
                assert(terms@.take(terms@.len() as int) =~= terms@);
                out
            },
        }
    }
}

fn push_term(out: &mut String, d: BaseDimension, e: i32)
    ensures
        final(out)@ == old(out)@ + term_text(d, e),
{
    out.push_str(d.as_str());
    if e != 1 {
        out.push_str("^");
        text::push_signed_decimal(out, e as i64);
    }
    assert(out@ =~= old(out)@ + term_text(d, e));
}

// ---------------------------------------------------------------------------
// Exponents of lists of terms
// ---------------------------------------------------------------------------

/// No dimension occurs twice.
spec fn distinct_dimensions(terms: Seq<(BaseDimension, i32)>) -> bool {
    forall|i: int, j: int|
        0 <= i < j < terms.len() ==> #[trigger] terms[i].0 != #[trigger] terms[j].0
}

/// Every exponent with its sign turned.
spec fn negated(terms: Seq<(BaseDimension, i32)>) -> Seq<(BaseDimension, i32)> {
    terms.map_values(|t: (BaseDimension, i32)| (t.0, (-t.1) as i32))
}

proof fn lemma_exponent_of_joined(
    a: Seq<(BaseDimension, i32)>,
    b: Seq<(BaseDimension, i32)>,
    d: BaseDimension,
)
    ensures
        exponent_in(a + b, d) == exponent_in(a, d) + exponent_in(b, d),
    decreases b.len(),
{
    if b.len() == 0 {
        assert(a + b =~= a);
    } else {
        assert((a + b).drop_last() =~= a + b.drop_last());
        lemma_exponent_of_joined(a, b.drop_last(), d);
    }
}

proof fn lemma_exponent_of_negated(b: Seq<(BaseDimension, i32)>, d: BaseDimension)
    requires
        forall|i: int| 0 <= i < b.len() ==> (#[trigger] b[i]).1 != i32::MIN,
    ensures
        exponent_in(negated(b), d) == -exponent_in(b, d),
    decreases b.len(),
{
    if b.len() > 0 {
        assert(negated(b).drop_last() =~= negated(b.drop_last()));
        assert(b.last().1 != i32::MIN);
        lemma_exponent_of_negated(b.drop_last(), d);
    }
}

/// A dimension that no term names has exponent zero.
proof fn lemma_exponent_of_absent(terms: Seq<(BaseDimension, i32)>, d: BaseDimension)
    requires
        forall|i: int| 0 <= i < terms.len() ==> #[trigger] terms[i].0 != d,
    ensures
        exponent_in(terms, d) == 0,
    decreases terms.len(),
{
    if terms.len() > 0 {
        assert(terms.last().0 != d);
        lemma_exponent_of_absent(terms.drop_last(), d);
    }
}

/// Where no dimension occurs twice, a term holds the whole exponent.
proof fn lemma_exponent_of_distinct(terms: Seq<(BaseDimension, i32)>, i: int)
    requires
        distinct_dimensions(terms),
        0 <= i < terms.len(),
    ensures
        exponent_in(terms, terms[i].0) == terms[i].1,
    decreases terms.len(),
{
    let front = terms.drop_last();
    assert(distinct_dimensions(front)) by {
        assert forall|a: int, b: int| 0 <= a < b < front.len() implies #[trigger] front[a].0
            != #[trigger] front[b].0 by {
            assert(terms[a].0 != terms[b].0);
        }
    }
    if i == terms.len() - 1 {
        assert forall|j: int| 0 <= j < front.len() implies #[trigger] front[j].0
            != terms[i].0 by {
            assert(terms[j].0 != terms[i].0);
        }
        lemma_exponent_of_absent(front, terms[i].0);
    } else {
        assert(terms[i].0 != terms.last().0);
        assert(front[i] == terms[i]);
        lemma_exponent_of_distinct(front, i);
    }
}

/// Where no dimension occurs twice, a prefix gives a dimension all of its
/// exponent or none of it.
proof fn lemma_exponent_of_prefix(terms: Seq<(BaseDimension, i32)>, k: int, d: BaseDimension)
    requires
        distinct_dimensions(terms),
        0 <= k <= terms.len(),
    ensures
        exponent_in(terms.take(k), d) == 0 || exponent_in(terms.take(k), d) == exponent_in(
            terms,
            d,
        ),
{
    let front = terms.take(k);
    if exists|i: int| 0 <= i < k && terms[i].0 == d {
        let i = choose|i: int| 0 <= i < k && terms[i].0 == d;
        assert(front[i] == terms[i]);
        assert(distinct_dimensions(front)) by {
            assert forall|a: int, b: int| 0 <= a < b < front.len() implies #[trigger] front[a].0
                != #[trigger] front[b].0 by {
                assert(terms[a].0 != terms[b].0);
            }
        }
        lemma_exponent_of_distinct(front, i);
        lemma_exponent_of_distinct(terms, i);
    } else {
        assert forall|j: int| 0 <= j < front.len() implies #[trigger] front[j].0 != d by {
            assert(terms[j].0 != d);
        }
        lemma_exponent_of_absent(front, d);
    }
}

proof fn lemma_joined_sums_fit(a: Seq<(BaseDimension, i32)>, b: Seq<(BaseDimension, i32)>)
    requires
        distinct_dimensions(a),
        distinct_dimensions(b),
        forall|d: BaseDimension| i32::MIN <= #[trigger] exponent_in(a, d) <= i32::MAX,
        forall|d: BaseDimension|
            i32::MIN <= exponent_in(a, d) + #[trigger] exponent_in(b, d) <= i32::MAX,
    ensures
        sums_fit(a + b),
{
    assert forall|k: int, d: BaseDimension| 0 <= k <= (a + b).len() implies i32::MIN
        <= #[trigger] exponent_in((a + b).take(k), d) <= i32::MAX by {
        assert(i32::MIN <= exponent_in(a, d) <= i32::MAX);
        assert(i32::MIN <= exponent_in(a, d) + exponent_in(b, d) <= i32::MAX);
        if k <= a.len() {
            assert((a + b).take(k) =~= a.take(k));
            lemma_exponent_of_prefix(a, k, d);
        } else {
            let j = k - a.len();
            assert((a + b).take(k) =~= a + b.take(j));
            lemma_exponent_of_joined(a, b.take(j), d);
            lemma_exponent_of_prefix(b, j, d);
        }
    }
}

/// The terms of the first `k` dimensions.
spec fn nonzero_prefix(exponents: spec_fn(BaseDimension) -> int, k: int) -> Seq<
    (BaseDimension, i32),
> {
    dimensions().take(k).filter(|d: BaseDimension| exponents(d) != 0).map_values(
        |d: BaseDimension| (d, exponents(d) as i32),
    )
}

proof fn lemma_nonzero_prefix(exponents: spec_fn(BaseDimension) -> int, k: int)
    requires
        0 <= k <= 7,
        forall|d: BaseDimension| i32::MIN <= #[trigger] exponents(d) <= i32::MAX,
    ensures
        distinct_dimensions(nonzero_prefix(exponents, k)),
        forall|i: int|
            0 <= i < nonzero_prefix(exponents, k).len() ==> rank(
                (#[trigger] nonzero_prefix(exponents, k)[i]).0,
            ) < k,
        forall|d: BaseDimension| #[trigger]
            exponent_in(nonzero_prefix(exponents, k), d) == if rank(d) < k {
                exponents(d)
            } else {
                0
            },
    decreases k,
{
    reveal(Seq::filter);
    let nonzero = |d: BaseDimension| exponents(d) != 0;
    let pairing = |d: BaseDimension| (d, exponents(d) as i32);
    let terms = nonzero_prefix(exponents, k);
    if k == 0 {
        assert(terms =~= Seq::empty());
    } else {
        lemma_nonzero_prefix(exponents, k - 1);
        let front = nonzero_prefix(exponents, k - 1);
        let here = dimensions()[k - 1];
        assert(rank(here) == k - 1);
        assert(dimensions().take(k).drop_last() =~= dimensions().take(k - 1));
        assert(dimensions().take(k).last() == here);
        if nonzero(here) {
            assert(terms =~= front.push(pairing(here)));
            assert(terms.drop_last() =~= front);
        } else {
            assert(terms =~= front);
        }
        assert forall|d: BaseDimension| #[trigger]
            exponent_in(terms, d) == if rank(d) < k {
                exponents(d)
            } else {
                0
            } by {
            assert(exponent_in(front, d) == if rank(d) < k - 1 {
                exponents(d)
            } else {
                0
            });
            assert(rank(d) == k - 1 ==> d == here);
        }
    }
}

/// The listed terms have the exponents that they were made from.
proof fn lemma_nonzero_terms(exponents: spec_fn(BaseDimension) -> int)
    requires
        forall|d: BaseDimension| i32::MIN <= #[trigger] exponents(d) <= i32::MAX,
    ensures
        distinct_dimensions(nonzero_terms(exponents)),
        forall|d: BaseDimension| #[trigger]
            exponent_in(nonzero_terms(exponents), d) == exponents(d),
        unit_with(exponents).terms() == nonzero_terms(exponents),
{
    lemma_nonzero_prefix(exponents, 7);
    assert(dimensions().take(7) =~= dimensions());
    assert(nonzero_terms(exponents) == nonzero_prefix(exponents, 7));
    assert forall|d: BaseDimension| #[trigger]
        exponent_in(nonzero_terms(exponents), d) == exponents(d) by {
        assert(exponent_in(nonzero_prefix(exponents, 7), d) == exponents(d));
    }
    assert(unit_with(exponents).terms() =~= nonzero_terms(exponents));
}

/// The canonical form of a unit can be added up too.
proof fn lemma_normal_form_fits(u: UnitView)
    requires
        u.fits(),
    ensures
        u.normalized().fits(),
{
    let terms = u.normalized().terms();
    let none = Seq::<(BaseDimension, i32)>::empty();
    lemma_normalized(u);
    assert forall|d: BaseDimension| i32::MIN <= #[trigger] exponent_in(terms, d) <= i32::MAX by {
        assert(exponent_in(terms, d) == u.exponent(d));
    }
    assert forall|d: BaseDimension|
        i32::MIN <= exponent_in(terms, d) + #[trigger] exponent_in(none, d) <= i32::MAX by {}
    lemma_joined_sums_fit(terms, none);
    assert(terms + none =~= terms);
}

proof fn lemma_normalized(u: UnitView)
    requires
        u.fits(),
    ensures
        distinct_dimensions(u.normalized().terms()),
        forall|d: BaseDimension| #[trigger]
            exponent_in(u.normalized().terms(), d) == u.exponent(d),
        forall|d: BaseDimension| i32::MIN <= #[trigger] u.exponent(d) <= i32::MAX,
{
    assert forall|d: BaseDimension| i32::MIN <= #[trigger] u.exponent(d) <= i32::MAX by {
        assert(u.terms().take(u.terms().len() as int) =~= u.terms());
        assert(exponent_in(u.terms().take(u.terms().len() as int), d) <= i32::MAX);
    }
    let exponents = |d: BaseDimension| u.exponent(d);
    assert forall|d: BaseDimension| i32::MIN <= #[trigger] exponents(d) <= i32::MAX by {
        assert(exponents(d) == u.exponent(d));
    }
    lemma_nonzero_terms(exponents);
    assert forall|d: BaseDimension| #[trigger]
        exponent_in(u.normalized().terms(), d) == u.exponent(d) by {
        assert(exponent_in(nonzero_terms(exponents), d) == exponents(d));
    }
}

/// Without a nonzero exponent there are no terms.
proof fn lemma_no_terms(exponents: spec_fn(BaseDimension) -> int)
    requires
        forall|d: BaseDimension| #[trigger] exponents(d) == 0,
    ensures
        unit_with(exponents) == UnitView::Dimensionless,
{
    let nonzero = |d: BaseDimension| exponents(d) != 0;
    let kept = dimensions().filter(nonzero);
    dimensions().filter_lemma(nonzero);
    if kept.len() > 0 {
        assert(nonzero(kept[0]));
    }
}

/// With one nonzero exponent there is one term.
proof fn lemma_one_term(exponents: spec_fn(BaseDimension) -> int, d: BaseDimension)
    requires
        i32::MIN <= exponents(d) <= i32::MAX,
        exponents(d) != 0,
        forall|o: BaseDimension| o != d ==> #[trigger] exponents(o) == 0,
    ensures
        unit_with(exponents) == UnitView::Base(d, exponents(d) as i32),
{
    assert forall|o: BaseDimension| i32::MIN <= #[trigger] exponents(o) <= i32::MAX by {
        if o != d {
            assert(exponents(o) == 0);
        }
    }
    lemma_nonzero_terms(exponents);
    let terms = nonzero_terms(exponents);
    lemma_nonzero_is_nonzero(exponents);
    assert forall|i: int| 0 <= i < terms.len() implies (#[trigger] terms[i]).0 == d by {
        assert(terms[i].1 != 0);
        lemma_exponent_of_distinct(terms, i);
        assert(exponent_in(terms, terms[i].0) == exponents(terms[i].0));
    }
    if terms.len() == 0 {
        assert(exponent_in(terms, d) == exponents(d));
    } else if terms.len() > 1 {
        assert(terms[0].0 != terms[1].0);
    } else {
        lemma_exponent_of_distinct(terms, 0);
        assert(exponent_in(terms, d) == exponents(d));
    }
}

// ---------------------------------------------------------------------------
// Laws
// ---------------------------------------------------------------------------

/// Normalizing a unit changes no exponent.
pub proof fn law_normalize_keeps_exponents(u: UnitView, d: BaseDimension)
    requires
        u.fits(),
    ensures
        u.normalized().exponent(d) == u.exponent(d),
{
    lemma_normalized(u);
}

/// Units that give every dimension the same exponent have one normal form, and
/// units with one normal form give every dimension the same exponent.
pub proof fn law_normal_form_is_canonical(u: UnitView, v: UnitView)
    requires
        u.fits(),
        v.fits(),
    ensures
        u.normalized() == v.normalized() <==> (forall|d: BaseDimension| #[trigger]
            u.exponent(d) == v.exponent(d)),
{
    lemma_normalized(u);
    lemma_normalized(v);
    if u.normalized() == v.normalized() {
        assert forall|d: BaseDimension| #[trigger] u.exponent(d) == v.exponent(d) by {
            assert(exponent_in(u.normalized().terms(), d) == u.exponent(d));
            assert(exponent_in(v.normalized().terms(), d) == v.exponent(d));
        }
    }
    if forall|d: BaseDimension| #[trigger] u.exponent(d) == v.exponent(d) {
        let f = |d: BaseDimension| u.exponent(d);
        let g = |d: BaseDimension| v.exponent(d);
        assert(f =~= g);
    }
}

/// A normalized unit stays as it is when it is normalized again.
pub proof fn law_normalize_settles(u: UnitView)
    requires
        u.fits(),
    ensures
        u.normalized().normalized() == u.normalized(),
{
    lemma_normalized(u);
    let f = |d: BaseDimension| u.exponent(d);
    let g = |d: BaseDimension| u.normalized().exponent(d);
    assert forall|d: BaseDimension| #[trigger] g(d) == f(d) by {
        assert(exponent_in(u.normalized().terms(), d) == u.exponent(d));
    }
    assert(g =~= f);
}

/// The exponents of a product of units are the sums, those of a quotient the
/// differences.
pub proof fn law_exponents_add_and_subtract(a: UnitView, b: UnitView, d: BaseDimension)
    ensures
        (forall|o: BaseDimension|
            i32::MIN <= #[trigger] a.exponent(o) + b.exponent(o) <= i32::MAX) ==> a.times(
            b,
        ).exponent(d) == a.exponent(d) + b.exponent(d),
        (forall|o: BaseDimension|
            i32::MIN <= #[trigger] a.exponent(o) - b.exponent(o) <= i32::MAX) ==> a.over(
            b,
        ).exponent(d) == a.exponent(d) - b.exponent(d),
{
    let sum = |o: BaseDimension| a.exponent(o) + b.exponent(o);
    let difference = |o: BaseDimension| a.exponent(o) - b.exponent(o);
    if forall|o: BaseDimension| i32::MIN <= #[trigger] a.exponent(o) + b.exponent(o) <= i32::MAX {
        assert forall|o: BaseDimension| i32::MIN <= #[trigger] sum(o) <= i32::MAX by {
            assert(a.exponent(o) + b.exponent(o) <= i32::MAX);
        }
        lemma_nonzero_terms(sum);
        assert(exponent_in(nonzero_terms(sum), d) == sum(d));
    }
    if forall|o: BaseDimension| i32::MIN <= #[trigger] a.exponent(o) - b.exponent(o) <= i32::MAX {
        assert forall|o: BaseDimension| i32::MIN <= #[trigger] difference(o) <= i32::MAX by {
            assert(a.exponent(o) - b.exponent(o) <= i32::MAX);
        }
        lemma_nonzero_terms(difference);
        assert(exponent_in(nonzero_terms(difference), d) == difference(d));
    }
}

/// Multiplication of units does not depend on the order of the factors.
pub proof fn law_times_commutes(a: UnitView, b: UnitView)
    ensures
        a.times(b) == b.times(a),
{
    let f = |d: BaseDimension| a.exponent(d) + b.exponent(d);
    let g = |d: BaseDimension| b.exponent(d) + a.exponent(d);
    assert(f =~= g);
}

/// Multiplication of units does not depend on how the factors are grouped.
pub proof fn law_times_associates(a: UnitView, b: UnitView, c: UnitView)
    requires
        forall|d: BaseDimension|
            i32::MIN <= #[trigger] a.exponent(d) + b.exponent(d) <= i32::MAX,
        forall|d: BaseDimension|
            i32::MIN <= #[trigger] b.exponent(d) + c.exponent(d) <= i32::MAX,
    ensures
        a.times(b).times(c) == a.times(b.times(c)),
{
    let f = |d: BaseDimension| a.times(b).exponent(d) + c.exponent(d);
    let g = |d: BaseDimension| a.exponent(d) + b.times(c).exponent(d);
    assert forall|d: BaseDimension| #[trigger] f(d) == g(d) by {
        law_exponents_add_and_subtract(a, b, d);
        law_exponents_add_and_subtract(b, c, d);
    }
    assert(f =~= g);
}

/// Multiplying or dividing by the dimensionless unit normalizes, and a unit over
/// itself is dimensionless.
pub proof fn law_dimensionless_is_neutral(u: UnitView)
    ensures
        u.times(UnitView::Dimensionless) == u.normalized(),
        u.over(UnitView::Dimensionless) == u.normalized(),
        u.over(u) == UnitView::Dimensionless,
{
    let same = |d: BaseDimension| u.exponent(d);
    let sum = |d: BaseDimension| u.exponent(d) + UnitView::Dimensionless.exponent(d);
    let difference = |d: BaseDimension| u.exponent(d) - UnitView::Dimensionless.exponent(d);
    assert(sum =~= same);
    assert(difference =~= same);
    let zero = |d: BaseDimension| u.exponent(d) - u.exponent(d);
    lemma_nonzero_terms(zero);
    let terms = nonzero_terms(zero);
    if terms.len() > 0 {
        lemma_nonzero_is_nonzero(zero);
        assert(terms[0].1 != 0);
        lemma_exponent_of_distinct(terms, 0);
        assert(exponent_in(terms, terms[0].0) == zero(terms[0].0));
        assert(false);
    }
}

proof fn lemma_nonzero_is_nonzero(exponents: spec_fn(BaseDimension) -> int)
    requires
        forall|d: BaseDimension| i32::MIN <= #[trigger] exponents(d) <= i32::MAX,
    ensures
        forall|i: int|
            0 <= i < nonzero_terms(exponents).len() ==> (#[trigger] nonzero_terms(exponents)[i]).1
                != 0,
{
    let nonzero = |d: BaseDimension| exponents(d) != 0;
    let kept = dimensions().filter(nonzero);
    assert forall|i: int| 0 <= i < nonzero_terms(exponents).len() implies (
    #[trigger] nonzero_terms(exponents)[i]).1 != 0 by {
        dimensions().filter_lemma(nonzero);
        assert(nonzero(kept[i]));
    }
}

/// The exponent that a unit gives a dimension is the sum of those that its terms give
/// it: a single term gives its dimension its exponent and no other one any, and lists
/// of terms one after the other give the sum.
pub proof fn law_exponents_of_terms(
    a: Seq<(BaseDimension, i32)>,
    b: Seq<(BaseDimension, i32)>,
    d: BaseDimension,
    e: i32,
    other: BaseDimension,
)
    ensures
        UnitView::Dimensionless.exponent(d) == 0,
        UnitView::Base(d, e).exponent(d) == e,
        other != d ==> UnitView::Base(d, e).exponent(other) == 0,
        UnitView::Product(seq![(d, e)]).exponent(d) == e,
        other != d ==> UnitView::Product(seq![(d, e)]).exponent(other) == 0,
        UnitView::Product(a + b).exponent(d) == UnitView::Product(a).exponent(d)
            + UnitView::Product(b).exponent(d),
{
    reveal_with_fuel(exponent_in, 2);
    assert(seq![(d, e)].drop_last() =~= Seq::empty());
    lemma_exponent_of_joined(a, b, d);
}

/// The place of a dimension among the seven, in the order in which they are written.
pub open spec fn place_in_text(d: BaseDimension) -> int {
    match d {
        BaseDimension::Length => 1,
        BaseDimension::Mass => 2,
        BaseDimension::Time => 3,
        BaseDimension::Temperature => 4,
        BaseDimension::Angle => 5,
        BaseDimension::Current => 6,
        BaseDimension::Amount => 7,
    }
}

/// The terms of the first `k` dimensions are in order.
proof fn lemma_prefix_in_order(exponents: spec_fn(BaseDimension) -> int, k: int)
    requires
        0 <= k <= 7,
        forall|d: BaseDimension| i32::MIN <= #[trigger] exponents(d) <= i32::MAX,
    ensures
        ({
            let terms = nonzero_prefix(exponents, k);
            &&& forall|i: int|
                0 <= i < terms.len() ==> place_in_text((#[trigger] terms[i]).0) <= k
                    && terms[i].1 != 0
            &&& forall|i: int, j: int|
                0 <= i < j < terms.len() ==> place_in_text((#[trigger] terms[i]).0)
                    < place_in_text((#[trigger] terms[j]).0)
        }),
    decreases k,
{
    reveal(Seq::filter);
    let nonzero = |d: BaseDimension| exponents(d) != 0;
    if k > 0 {
        lemma_prefix_in_order(exponents, k - 1);
        let (front, all) = (dimensions().take(k - 1), dimensions().take(k));
        assert(all.drop_last() =~= front);
        assert(all.last() == dimensions()[k - 1]);
        assert(place_in_text(dimensions()[k - 1]) == k);
        let (shorter, longer) = (nonzero_prefix(exponents, k - 1), nonzero_prefix(exponents, k));
        if exponents(dimensions()[k - 1]) != 0 {
            let d = dimensions()[k - 1];
            assert(longer =~= shorter.push((d, exponents(d) as i32)));
        } else {
            assert(longer =~= shorter);
        }
    } else {
        assert(dimensions().take(0) =~= Seq::empty());
        assert(nonzero_prefix(exponents, 0) =~= Seq::empty());
    }
}

/// A normal form has one term for each dimension whose exponent is not zero, in the
/// order of the seven dimensions. Without terms it is dimensionless, and with a single
/// one it is a base unit.
pub proof fn law_what_normal_forms_look_like(u: UnitView, i: int, j: int)
    requires
        u.fits(),
        0 <= i <= j < u.normalized().terms().len(),
    ensures
        ({
            let terms = u.normalized().terms();
            &&& terms[i].1 != 0
            &&& terms[i].1 == u.exponent(terms[i].0)
            &&& i < j ==> place_in_text(terms[i].0) < place_in_text(terms[j].0)
            &&& u.normalized() == if terms.len() == 1 {
                UnitView::Base(terms[0].0, terms[0].1)
            } else {
                UnitView::Product(terms)
            }
        }),
{
    lemma_normalized(u);
    let exponents = |d: BaseDimension| u.exponent(d);
    assert forall|d: BaseDimension| i32::MIN <= #[trigger] exponents(d) <= i32::MAX by {
        assert(exponents(d) == u.exponent(d));
    }
    lemma_nonzero_terms(exponents);
    lemma_prefix_in_order(exponents, 7);
    assert(dimensions().take(7) =~= dimensions());
    let terms = u.normalized().terms();
    assert(terms == nonzero_prefix(exponents, 7));
    lemma_exponent_of_distinct(terms, i);
}

/// A unit in words: the symbols of its dimensions, with the exponents that are not
/// one, joined by dots; without dimensions it is a one.
pub proof fn law_units_in_words(u: UnitView, d: BaseDimension, e: i32, f: i32)
    requires
        u.fits(),
    ensures
        d.symbol() == match d {
            BaseDimension::Length => "m"@,
            BaseDimension::Mass => "kg"@,
            BaseDimension::Time => "s"@,
            BaseDimension::Temperature => "K"@,
            BaseDimension::Angle => "rad"@,
            BaseDimension::Current => "A"@,
            BaseDimension::Amount => "mol"@,
        },
        u.normalized() == UnitView::Dimensionless ==> u.text() == "1"@,
        u.normalized() == UnitView::Base(d, 1) ==> u.text() == d.symbol(),
        e != 1 && u.normalized() == UnitView::Base(d, e) ==> u.text() == d.symbol() + "^"@
            + text::signed_decimal(e as int),
        u.normalized() matches UnitView::Product(terms) ==> terms.len() >= 2 ==> {
            let front = terms.drop_last();
            let last = UnitView::Base(terms.last().0, terms.last().1);
            u.text() == joined(front) + "·"@ + joined(last.terms())
        },
        joined(seq![(d, 1)]) == d.symbol(),
        f != 1 ==> joined(seq![(d, f)]) == d.symbol() + "^"@ + text::signed_decimal(f as int),
{
}

/// The texts of terms are joined by a dot, one after the other.
pub proof fn law_terms_are_joined_by_dots(terms: Seq<(BaseDimension, i32)>, d: BaseDimension, e: i32)
    ensures
        joined(Seq::empty()) == Seq::<char>::empty(),
        terms.len() > 0 ==> joined(terms.push((d, e))) == joined(terms) + "·"@ + joined(
            seq![(d, e)],
        ),
{
    assert(terms.push((d, e)).drop_last() =~= terms);
}

/// A view shows a unit as it is.
pub proof fn law_view_of_a_unit(d: BaseDimension, e: i32, terms: Vec<(BaseDimension, i32)>)
    ensures
        Unit::Dimensionless@ == UnitView::Dimensionless,
        Unit::Base(d, e)@ == UnitView::Base(d, e),
        Unit::Product(terms)@ == UnitView::Product(terms@),
{
}

} // verus!
