use vstd::prelude::*;

verus! {

/// An exact non-negative fraction `numerator / denominator` with a positive denominator.
///
/// Confidences, similarities and accuracies are fractions of this kind. Fractions are
/// not reduced: 1/2 and 2/4 are different values of the type that compare as equal.
#[derive(Clone, Copy, Debug)]
pub struct Ratio {
    num: u128,
    den: u128,
}

impl Ratio {
    #[verifier::type_invariant]
    spec fn positive_denominator(self) -> bool {
        self.den > 0
    }

    /// The numerator of the fraction.
    pub closed spec fn numer(self) -> nat {
        self.num as nat
    }

    /// The denominator of the fraction.
    pub closed spec fn denom(self) -> nat {
        self.den as nat
    }

    /// `a <= b` as fractions.
    pub open spec fn spec_le(a: Ratio, b: Ratio) -> bool {
        a.numer() * b.denom() <= b.numer() * a.denom()
    }

    /// `a < b` as fractions.
    pub open spec fn spec_lt(a: Ratio, b: Ratio) -> bool {
        a.numer() * b.denom() < b.numer() * a.denom()
    }

    /// `a` and `b` denote the same fraction.
    pub open spec fn same_value(a: Ratio, b: Ratio) -> bool {
        a.numer() * b.denom() == b.numer() * a.denom()
    }

    /// The fraction `num / den`.
    pub fn new(num: u128, den: u128) -> (r: Ratio)
        requires
            den > 0,
        ensures
            r.numer() == num,
            r.denom() == den,
    {
        Ratio { num, den }
    }

    /// The fraction 0/1.
    pub fn zero() -> (r: Ratio)
        ensures
            r.numer() == 0,
            r.denom() == 1,
    {
        Ratio { num: 0, den: 1 }
    }

    /// The numerator.
    pub fn numerator(&self) -> (n: u128)
        ensures
            n == self.numer(),
    {
        self.num
    }

    /// The denominator, which is never zero.
    pub fn denominator(&self) -> (d: u128)
        ensures
            d == self.denom(),
            d > 0,
    {
        proof {
            use_type_invariant(self);
        }
        self.den
    }

    /// Is this fraction at least `other`?
    pub fn at_least(&self, other: &Ratio) -> (b: bool)
        ensures
            b == Ratio::spec_le(*other, *self),
    {
        proof {
            use_type_invariant(self);
            use_type_invariant(other);
        }
        fraction_le(other.num, other.den, self.num, self.den)
    }

    /// Is this fraction strictly greater than `other`?
    pub fn exceeds(&self, other: &Ratio) -> (b: bool)
        ensures
            b == Ratio::spec_lt(*other, *self),
    {
        proof {
            use_type_invariant(self);
            use_type_invariant(other);
        }
        !fraction_le(self.num, self.den, other.num, other.den)
    }
}

/// Decides `a / b <= c / d`, that is `a * d <= c * b`, without forming the products:
/// it compares integer parts and recurses on the reciprocals of the remainders.
fn fraction_le(a: u128, b: u128, c: u128, d: u128) -> (r: bool)
    requires
        b > 0,
        d > 0,
    ensures
        r == (a * d <= c * b),
    decreases b + d,
{
    let qa = a / b;
    let qc = c / d;
    let ra = a % b;
    let rc = c % d;
    proof {
        vstd::arithmetic::div_mod::lemma_fundamental_div_mod(a as int, b as int);
        vstd::arithmetic::div_mod::lemma_fundamental_div_mod(c as int, d as int);
        vstd::arithmetic::mul::lemma_mul_is_commutative(b as int, qa as int);
        vstd::arithmetic::mul::lemma_mul_is_commutative(d as int, qc as int);
        lemma_split(a as int, b as int, qa as int, ra as int, c as int, d as int, qc as int, rc as int);
    }
    if qa != qc {
        qa < qc
    } else if ra == 0 {
        true
    } else if rc == 0 {
        false
    } else {
        fraction_le(d, rc, b, ra)
    }
}

proof fn lemma_split(a: int, b: int, qa: int, ra: int, c: int, d: int, qc: int, rc: int)
    requires
        b > 0,
        d > 0,
        a == qa * b + ra,
        c == qc * d + rc,
        0 <= ra < b,
        0 <= rc < d,
        qa >= 0,
        qc >= 0,
    ensures
        qa < qc ==> a * d < c * b,
        qa > qc ==> a * d > c * b,
        qa == qc ==> (a * d <= c * b <==> ra * d <= rc * b),
        qa == qc && ra == 0 ==> a * d <= c * b,
        qa == qc && ra > 0 && rc == 0 ==> a * d > c * b,
{
    assert(a * d == qa * b * d + ra * d) by (nonlinear_arith)
        requires
            a == qa * b + ra,
    ;
    assert(c * b == qc * d * b + rc * b) by (nonlinear_arith)
        requires
            c == qc * d + rc,
    ;
    assert(qa * b * d == qa * (b * d)) by (nonlinear_arith);
    assert(qc * d * b == qc * (b * d)) by (nonlinear_arith);
    assert(ra * d < b * d) by (nonlinear_arith)
        requires
            0 <= ra < b,
            d > 0,
    ;
    assert(rc * b < b * d) by (nonlinear_arith)
        requires
            0 <= rc < d,
            b > 0,
    ;
    assert(0 <= ra * d && 0 <= rc * b) by (nonlinear_arith)
        requires
            0 <= ra,
            0 <= rc,
            b > 0,
            d > 0,
    ;
    if qa < qc {
        assert(qa * (b * d) + b * d <= qc * (b * d)) by (nonlinear_arith)
            requires
                qa < qc,
                b * d > 0,
        ;
    }
    if qa > qc {
        assert(qc * (b * d) + b * d <= qa * (b * d)) by (nonlinear_arith)
            requires
                qa > qc,
                b * d > 0,
        ;
    }
    if qa == qc && ra > 0 && rc == 0 {
        assert(ra * d > 0) by (nonlinear_arith)
            requires
                ra > 0,
                d > 0,
        ;
    }
}

/// The order on fractions is total.
pub proof fn lemma_le_total(a: Ratio, b: Ratio)
    ensures
        Ratio::spec_le(a, b) || Ratio::spec_le(b, a),
        Ratio::spec_lt(a, b) <==> !Ratio::spec_le(b, a),
{
}

} // verus!
