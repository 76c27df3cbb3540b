//! Values of the ray parameter: exact fractions and the two infinities.
use vstd::prelude::*;

verus! {

/// The extended rational line: a fraction `n / d` (meaningful for `d > 0`) or an infinity.
pub enum Ext {
    NegInf,
    Rat(int, int),
    PosInf,
}

impl Ext {
    /// Fractions have a positive denominator.
    pub open spec fn wf(self) -> bool {
        match self {
            Ext::Rat(_, d) => d > 0,
            _ => true,
        }
    }

    /// Strict order of the extended line.
    pub open spec fn lt(self, o: Ext) -> bool {
        match (self, o) {
            (Ext::NegInf, Ext::NegInf) => false,
            (Ext::NegInf, _) => true,
            (Ext::Rat(a, b), Ext::Rat(c, d)) => a * d < c * b,
            (Ext::Rat(_, _), Ext::PosInf) => true,
            _ => false,
        }
    }

    pub open spec fn le(self, o: Ext) -> bool {
        !o.lt(self)
    }

    /// Reflection of the line about zero.
    pub open spec fn neg(self) -> Ext {
        match self {
            Ext::NegInf => Ext::PosInf,
            Ext::Rat(n, d) => Ext::Rat(-n, d),
            Ext::PosInf => Ext::NegInf,
        }
    }
}

proof fn lemma_frac_trans(a: int, b: int, c: int, d: int, e: int, f: int)
    requires
        b > 0,
        d > 0,
        f > 0,
        a * d <= c * b,
        c * f <= e * d,
    ensures
        a * f <= e * b,
        (a * d < c * b || c * f < e * d) ==> a * f < e * b,
{
    assert(a * d * f <= c * b * f) by (nonlinear_arith)
        requires
            a * d <= c * b,
            f > 0,
    ;
    assert(c * f * b <= e * d * b) by (nonlinear_arith)
        requires
            c * f <= e * d,
            b > 0,
    ;
    assert(a * d < c * b ==> a * d * f < c * b * f) by (nonlinear_arith)
        requires
            f > 0,
    ;
    assert(c * f < e * d ==> c * f * b < e * d * b) by (nonlinear_arith)
        requires
            b > 0,
    ;
    assert(a * d * f == a * f * d && c * b * f == c * f * b && e * d * b == e * b * d)
        by (nonlinear_arith);
    assert(a * f * d <= e * b * d ==> a * f <= e * b) by (nonlinear_arith)
        requires
            d > 0,
    ;
    assert(a * f * d < e * b * d ==> a * f < e * b) by (nonlinear_arith)
        requires
            d > 0,
    ;
}

/// `le` is transitive.
pub proof fn lemma_le_trans(x: Ext, y: Ext, z: Ext)
    requires
        x.wf(),
        y.wf(),
        z.wf(),
        x.le(y),
        y.le(z),
    ensures
        x.le(z),
{
    if let (Ext::Rat(a, b), Ext::Rat(c, d), Ext::Rat(e, f)) = (x, y, z) {
        lemma_frac_trans(a, b, c, d, e, f);
    }
}

/// A strict step followed by a weak one is strict.
pub proof fn lemma_lt_le_trans(x: Ext, y: Ext, z: Ext)
    requires
        x.wf(),
        y.wf(),
        z.wf(),
        x.lt(y),
        y.le(z),
    ensures
        x.lt(z),
{
    if let (Ext::Rat(a, b), Ext::Rat(c, d), Ext::Rat(e, f)) = (x, y, z) {
        lemma_frac_trans(a, b, c, d, e, f);
    }
}

/// A weak step followed by a strict one is strict.
pub proof fn lemma_le_lt_trans(x: Ext, y: Ext, z: Ext)
    requires
        x.wf(),
        y.wf(),
        z.wf(),
        x.le(y),
        y.lt(z),
    ensures
        x.lt(z),
{
    if let (Ext::Rat(a, b), Ext::Rat(c, d), Ext::Rat(e, f)) = (x, y, z) {
        lemma_frac_trans(a, b, c, d, e, f);
    }
}

/// Reflection reverses the order.
pub proof fn lemma_neg_lt(x: Ext, y: Ext)
    ensures
        x.lt(y) == y.neg().lt(x.neg()),
{
    if let (Ext::Rat(a, b), Ext::Rat(c, d)) = (x, y) {
        assert((-c) * b == -(c * b) && (-a) * d == -(a * d)) by (nonlinear_arith);
    }
}

/// An exact ray parameter.
#[derive(Clone, Copy, Debug, PartialEq, Eq, Structural)]
pub enum Param {
    NegInf,
    /// The fraction `num / den`; `den` is positive.
    Frac { num: i64, den: i64 },
    PosInf,
}

impl Param {
    pub open spec fn view(self) -> Ext {
        match self {
            Param::NegInf => Ext::NegInf,
            Param::Frac { num, den } => Ext::Rat(num as int, den as int),
            Param::PosInf => Ext::PosInf,
        }
    }

    pub open spec fn wf(self) -> bool {
        self@.wf()
    }

    /// Whether `self` lies strictly below `o`.
    pub fn lt(&self, o: &Param) -> (r: bool)
        ensures
            r == self@.lt(o@),
    {
        match (self, o) {
            (Param::NegInf, Param::NegInf) => false,
            (Param::NegInf, _) => true,
            (Param::Frac { num: a, den: b }, Param::Frac { num: c, den: d }) => {
                proof {
                    crate::vec3::lemma_i64_product(*a, *d);
                    crate::vec3::lemma_i64_product(*c, *b);
                }
                (*a as i128) * (*d as i128) < (*c as i128) * (*b as i128)
            },
            (Param::Frac { .. }, Param::PosInf) => true,
            _ => false,
        }
    }

    /// The larger of two parameters.
    pub fn max(self, o: Param) -> (r: Param)
        ensures
            r == self || r == o,
            self@.le(r@),
            o@.le(r@),
    {
        if self.lt(&o) {
            o
        } else {
            proof {
                lemma_total(self@, o@);
            }
            self
        }
    }

    /// The smaller of two parameters.
    pub fn min(self, o: Param) -> (r: Param)
        ensures
            r == self || r == o,
            r@.le(self@),
            r@.le(o@),
    {
        if o.lt(&self) {
            o
        } else {
            proof {
                lemma_total(self@, o@);
            }
            self
        }
    }
}

proof fn lemma_total(x: Ext, y: Ext)
    ensures
        x.le(x),
        !x.lt(y) ==> y.le(x),
{
}

} // verus!
