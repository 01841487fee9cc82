use vstd::prelude::*;

verus! {

/// An exact rational number, the numeric type of the language.
/// Kept in lowest terms with a positive denominator, so that two
/// `Num` values denote the same rational exactly when they are equal
/// field for field.
#[derive(Clone, Copy, Debug, PartialEq, Eq, Structural)]
pub struct Num {
    pub n: i64,
    pub d: i64,
}

/// Euclid's greatest common divisor on naturals.
pub open spec fn spec_gcd(a: nat, b: nat) -> nat
    decreases b,
{
    if b == 0 {
        a
    } else {
        spec_gcd(b, a % b)
    }
}

/// `(n, d)` brought to lowest terms, the sign carried by the numerator.
pub open spec fn spec_reduce(n: int, d: int) -> (int, int) {
    let na = if n >= 0 {
        n
    } else {
        -n
    };
    let g = spec_gcd(na as nat, d as nat) as int;
    let rn = na / g;
    let rd = d / g;
    (
        if n >= 0 {
            rn
        } else {
            -rn
        },
        rd,
    )
}

/// `(n, d)` reduced and packed into a `Num`, or `None` where the
/// reduced parts do not fit the field type.
pub open spec fn spec_make(n: int, d: int) -> Option<Num> {
    let (rn, rd) = spec_reduce(n, d);
    if -i64::MAX <= rn <= i64::MAX && rd <= i64::MAX {
        Some(Num { n: rn as i64, d: rd as i64 })
    } else {
        None
    }
}

impl Num {
    /// The representation invariant: positive denominator, and a
    /// numerator whose negation also fits, so products fit in `i128`.
    pub open spec fn wf(&self) -> bool {
        1 <= self.d && -i64::MAX <= self.n
    }

    /// The rational denoted by two `Num` values is the same.
    pub open spec fn same_ratio_as(&self, n: int, d: int) -> bool {
        self.n * d == n * self.d
    }

    pub open spec fn spec_add(a: Num, b: Num) -> Option<Num> {
        spec_make(a.n * b.d + b.n * a.d, a.d * b.d)
    }

    pub open spec fn spec_sub(a: Num, b: Num) -> Option<Num> {
        spec_make(a.n * b.d - b.n * a.d, a.d * b.d)
    }

    pub open spec fn spec_mul(a: Num, b: Num) -> Option<Num> {
        spec_make(a.n * b.n, a.d * b.d)
    }

    /// Division: `None` on a zero divisor as well as on overflow.
    pub open spec fn spec_div(a: Num, b: Num) -> Option<Num> {
        if b.n == 0 {
            None
        } else if b.n < 0 {
            spec_make(-(a.n * b.d), -(a.d * b.n))
        } else {
            spec_make(a.n * b.d, a.d * b.n)
        }
    }

    pub open spec fn spec_lt(a: Num, b: Num) -> bool {
        a.n * b.d < b.n * a.d
    }

    pub open spec fn spec_eq(a: Num, b: Num) -> bool {
        a.n * b.d == b.n * a.d
    }

    pub open spec fn is_zero(&self) -> bool {
        self.n == 0
    }
}

proof fn lemma_gcd_divides(a: nat, b: nat)
    requires
        1 <= b,
    ensures
        1 <= spec_gcd(a, b),
        exists|k: int| a == #[trigger] (spec_gcd(a, b) * k),
        exists|k: int| b == #[trigger] (spec_gcd(a, b) * k),
    decreases b,
{
    let g = spec_gcd(a, b);
    let r = a % b;
    vstd::arithmetic::div_mod::lemma_fundamental_div_mod(a as int, b as int);
    assert(g == spec_gcd(b, a % b));
    if r == 0 {
        assert(spec_gcd(b, 0) == b);
        assert(g == b);
        assert(b == g * 1);
        let q = a as int / b as int;
        assert(a == g * q);
    } else {
        lemma_gcd_divides(b, r);
        assert(g == spec_gcd(b, r));
        let kb = choose|k: int| b == #[trigger] (spec_gcd(b, r) * k);
        let kr = choose|k: int| r == #[trigger] (spec_gcd(b, r) * k);
        let q = a as int / b as int;
        assert(a == b * q + r);
        assert(b * q == (g * kb) * q);
        assert((g * kb) * q == g * (kb * q)) by (nonlinear_arith);
        assert(a == g * (kb * q) + g * kr);
        assert(g * (kb * q) + g * kr == g * (kb * q + kr)) by (nonlinear_arith);
        assert(a == g * (kb * q + kr));
    }
}

/// Facts callers need of `spec_reduce`: the parts are in range,
/// the denominator stays positive, and the ratio is unchanged.
pub proof fn lemma_reduce_props(n: int, d: int)
    requires
        1 <= d,
    ensures
        ({
            let (rn, rd) = spec_reduce(n, d);
            &&& 1 <= rd <= d
            &&& if n >= 0 {
                0 <= rn <= n
            } else {
                n <= rn <= 0
            }
            &&& rn * d == n * rd
        }),
{
    let na = if n >= 0 {
        n
    } else {
        -n
    };
    let g = spec_gcd(na as nat, d as nat) as int;
    lemma_gcd_divides(na as nat, d as nat);
    let ka = choose|k: int| na == #[trigger] (spec_gcd(na as nat, d as nat) * k);
    let kd = choose|k: int| d == #[trigger] (spec_gcd(na as nat, d as nat) * k);
    assert(na == g * ka);
    assert(d == g * kd);
    assert(ka >= 0) by (nonlinear_arith)
        requires
            na >= 0,
            g >= 1,
            na == g * ka,
    ;
    assert(kd >= 1) by (nonlinear_arith)
        requires
            d >= 1,
            g >= 1,
            d == g * kd,
    ;
    vstd::arithmetic::div_mod::lemma_div_multiples_vanish(ka, g);
    vstd::arithmetic::div_mod::lemma_div_multiples_vanish(kd, g);
    assert(g * ka == ka * g) by (nonlinear_arith);
    assert(g * kd == kd * g) by (nonlinear_arith);
    let rn0 = na / g;
    let rd = d / g;
    assert(rn0 == ka);
    assert(rd == kd);
    assert(kd <= d) by (nonlinear_arith)
        requires
            g >= 1,
            kd >= 1,
            d == g * kd,
    ;
    assert(ka <= na) by (nonlinear_arith)
        requires
            g >= 1,
            ka >= 0,
            na == g * ka,
    ;
    assert(ka * d == na * kd) by (nonlinear_arith)
        requires
            na == g * ka,
            d == g * kd,
    ;
    if n < 0 {
        assert((-ka) * d == n * kd) by (nonlinear_arith)
            requires
                ka * d == na * kd,
                na == -n,
        ;
    }
}

/// Exact division of two nonnegative machine integers, used to bring
/// a raw fraction to lowest terms.
fn gcd_i128(a: i128, b: i128) -> (g: i128)
    requires
        0 <= a,
        1 <= b,
    ensures
        g == spec_gcd(a as nat, b as nat),
        1 <= g,
    decreases b,
{
    proof {
        lemma_gcd_divides(a as nat, b as nat);
        assert(spec_gcd(a as nat, b as nat) == spec_gcd(b as nat, (a % b) as nat));
        if a % b == 0 {
            assert(spec_gcd(b as nat, 0) == b);
        }
    }
    let r = a % b;
    if r == 0 {
        b
    } else {
        gcd_i128(b, r)
    }
}

/// Reduces `n / d` and packs it into a `Num`; `None` where the reduced
/// parts overflow the field type.
fn make(n: i128, d: i128) -> (r: Option<Num>)
    requires
        1 <= d,
        i128::MIN < n,
    ensures
        r == spec_make(n as int, d as int),
        match r {
            Some(q) => q.wf() && q.same_ratio_as(n as int, d as int),
            None => true,
        },
{
    proof {
        lemma_reduce_props(n as int, d as int);
    }
    let neg = n < 0;
    let na = if neg {
        -n
    } else {
        n
    };
    let g = gcd_i128(na, d);
    let rn = na / g;
    let rd = d / g;
    if rn <= i64::MAX as i128 && rd <= i64::MAX as i128 {
        let nn = if neg {
            -rn
        } else {
            rn
        };
        Some(Num { n: nn as i64, d: rd as i64 })
    } else {
        None
    }
}

impl Num {
    /// The integer `i` as a rational.
    pub fn from_int(i: i64) -> (r: Num)
        requires
            i64::MIN < i,
        ensures
            r == (Num { n: i, d: 1 }),
            r.wf(),
    {
        Num { n: i, d: 1 }
    }

    /// The fraction `n / d` in lowest terms; `None` on a zero
    /// denominator or overflow of the reduced parts.
    pub fn ratio(n: i64, d: i64) -> (r: Option<Num>)
        requires
            i64::MIN < n,
            i64::MIN < d,
        ensures
            d == 0 ==> r is None,
            d > 0 ==> r == spec_make(n as int, d as int),
            d < 0 ==> r == spec_make(-n as int, -d as int),
            match r {
                Some(q) => q.wf() && q.n * d == n * q.d,
                None => true,
            },
    {
        if d == 0 {
            None
        } else if d < 0 {
            let r = make(-(n as i128), -(d as i128));
            proof {
                match r {
                    Some(q) => {
                        assert(q.n * d == n * q.d) by (nonlinear_arith)
                            requires
                                q.n * (-(d as int)) == (-(n as int)) * q.d,
                        ;
                    },
                    None => {},
                }
            }
            r
        } else {
            make(n as i128, d as i128)
        }
    }

    pub fn add(self, b: Num) -> (r: Option<Num>)
        requires
            self.wf(),
            b.wf(),
        ensures
            r == Num::spec_add(self, b),
            r matches Some(q) ==> q.wf(),
    {
        proof {
            lemma_num_prod_bounds(self, b);
        }
        let nn = self.n as i128 * b.d as i128 + b.n as i128 * self.d as i128;
        let dd = self.d as i128 * b.d as i128;
        make(nn, dd)
    }

    pub fn sub(self, b: Num) -> (r: Option<Num>)
        requires
            self.wf(),
            b.wf(),
        ensures
            r == Num::spec_sub(self, b),
            r matches Some(q) ==> q.wf(),
    {
        proof {
            lemma_num_prod_bounds(self, b);
        }
        let nn = self.n as i128 * b.d as i128 - b.n as i128 * self.d as i128;
        let dd = self.d as i128 * b.d as i128;
        make(nn, dd)
    }

    pub fn mul(self, b: Num) -> (r: Option<Num>)
        requires
            self.wf(),
            b.wf(),
        ensures
            r == Num::spec_mul(self, b),
            r matches Some(q) ==> q.wf(),
    {
        proof {
            lemma_num_prod_bounds(self, b);
        }
        make(self.n as i128 * b.n as i128, self.d as i128 * b.d as i128)
    }

    pub fn div(self, b: Num) -> (r: Option<Num>)
        requires
            self.wf(),
            b.wf(),
        ensures
            r == Num::spec_div(self, b),
            r matches Some(q) ==> q.wf(),
    {
        proof {
            lemma_num_prod_bounds(self, b);
        }
        if b.n == 0 {
            None
        } else {
            let nn = self.n as i128 * b.d as i128;
            let dd = self.d as i128 * b.n as i128;
            if b.n < 0 {
                proof {
                    assert(self.d * b.n <= -1) by (nonlinear_arith)
                        requires
                            self.d >= 1,
                            b.n <= -1,
                    ;
                }
                make(-nn, -dd)
            } else {
                proof {
                    assert(self.d * b.n >= 1) by (nonlinear_arith)
                        requires
                            self.d >= 1,
                            b.n >= 1,
                    ;
                }
                make(nn, dd)
            }
        }
    }

    pub fn lt(self, b: Num) -> (r: bool)
        requires
            self.wf(),
            b.wf(),
        ensures
            r == Num::spec_lt(self, b),
    {
        proof {
            lemma_num_prod_bounds(self, b);
        }
        let lhs = self.n as i128 * b.d as i128;
        let rhs = b.n as i128 * self.d as i128;
        lhs < rhs
    }

    pub fn num_eq(self, b: Num) -> (r: bool)
        requires
            self.wf(),
            b.wf(),
        ensures
            r == Num::spec_eq(self, b),
    {
        proof {
            lemma_num_prod_bounds(self, b);
        }
        self.n as i128 * b.d as i128 == b.n as i128 * self.d as i128
    }
}

/// The cross products of two well-formed rationals fit comfortably in
/// `i128`.
proof fn lemma_num_prod_bounds(a: Num, b: Num)
    requires
        a.wf(),
        b.wf(),
    ensures
        -(i128::MAX / 2) <= a.n * b.d <= i128::MAX / 2,
        -(i128::MAX / 2) <= b.n * a.d <= i128::MAX / 2,
        -(i128::MAX / 2) <= a.n * b.n <= i128::MAX / 2,
        1 <= a.d * b.d <= i128::MAX / 2,
        -(i128::MAX / 2) <= a.d * b.n <= i128::MAX / 2,
{
    assert(-(i128::MAX / 2) <= a.n * b.d <= i128::MAX / 2 && -(i128::MAX / 2) <= b.n * a.d
        <= i128::MAX / 2 && -(i128::MAX / 2) <= a.n * b.n <= i128::MAX / 2 && 1 <= a.d * b.d
        <= i128::MAX / 2 && -(i128::MAX / 2) <= a.d * b.n <= i128::MAX / 2) by (nonlinear_arith)
        requires
            -i64::MAX <= a.n <= i64::MAX,
            -i64::MAX <= b.n <= i64::MAX,
            1 <= a.d <= i64::MAX,
            1 <= b.d <= i64::MAX,
    ;
}

} // verus!
