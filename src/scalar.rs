//! Exact scalars of the form `2^pow * (c0 + c1 w + c2 w^2 + c3 w^3)`,
//! where `w = e^(i pi / 4)` and so `w^4 = -1`.
use vstd::prelude::*;

verus! {

/// An exact scalar `2^pow * (c0 + c1 w + c2 w^2 + c3 w^3)`.
#[derive(Clone, Copy, Debug)]
pub struct Scalar {
    pub pow: i64,
    pub c0: i32,
    pub c1: i32,
    pub c2: i32,
    pub c3: i32,
}

/// Coefficients over the basis `1, w, w^2, w^3`, as mathematical integers.
pub type Coeffs = (int, int, int, int);

pub open spec fn in_i64(x: int) -> bool {
    i64::MIN <= x <= i64::MAX
}

pub open spec fn in_i32(x: int) -> bool {
    i32::MIN <= x <= i32::MAX
}

pub open spec fn coeffs_fit(c: Coeffs) -> bool {
    in_i32(c.0) && in_i32(c.1) && in_i32(c.2) && in_i32(c.3)
}

pub open spec fn add_coeffs(a: Coeffs, b: Coeffs) -> Coeffs {
    (a.0 + b.0, a.1 + b.1, a.2 + b.2, a.3 + b.3)
}

/// Product in `Z[w]` with `w^4 = -1`.
pub open spec fn mul_coeffs(a: Coeffs, b: Coeffs) -> Coeffs {
    (
        a.0 * b.0 - a.1 * b.3 - a.2 * b.2 - a.3 * b.1,
        a.0 * b.1 + a.1 * b.0 - a.2 * b.3 - a.3 * b.2,
        a.0 * b.2 + a.1 * b.1 + a.2 * b.0 - a.3 * b.3,
        a.0 * b.3 + a.1 * b.2 + a.2 * b.1 + a.3 * b.0,
    )
}

/// Multiplication by two.
pub open spec fn times_two(c: Coeffs) -> Coeffs {
    (2 * c.0, 2 * c.1, 2 * c.2, 2 * c.3)
}

/// Multiplication by `2^k`.
pub open spec fn times_two_pow(c: Coeffs, k: nat) -> Coeffs
    decreases k,
{
    if k == 0 {
        c
    } else {
        times_two(times_two_pow(c, (k - 1) as nat))
    }
}

/// Every intermediate of `times_two_pow(c, k)` fits.
pub open spec fn two_pow_fits(c: Coeffs, k: nat) -> bool
    decreases k,
{
    coeffs_fit(times_two_pow(c, k)) && (k == 0 || two_pow_fits(c, (k - 1) as nat))
}

impl Scalar {
    pub open spec fn coeffs(self) -> Coeffs {
        (self.c0 as int, self.c1 as int, self.c2 as int, self.c3 as int)
    }

    /// The product `self * o`: exponents add and coefficients multiply in `Z[w]`.
    pub open spec fn mul_spec(self, o: Scalar) -> (int, Coeffs) {
        (self.pow + o.pow, mul_coeffs(self.coeffs(), o.coeffs()))
    }

    pub open spec fn mul_fits(self, o: Scalar) -> bool {
        in_i64(self.mul_spec(o).0) && coeffs_fit(self.mul_spec(o).1)
    }

    pub open spec fn is_zero(self) -> bool {
        self.coeffs() == (0int, 0int, 0int, 0int)
    }

    /// The sum `self + o`: a zero operand gives the other as it is;
    /// otherwise the sum is written over the smaller of the two exponents.
    pub open spec fn add_spec(self, o: Scalar) -> (int, Coeffs) {
        if self.is_zero() {
            (o.pow as int, o.coeffs())
        } else if o.is_zero() {
            (self.pow as int, self.coeffs())
        } else if self.pow <= o.pow {
            (
                self.pow as int,
                add_coeffs(self.coeffs(), times_two_pow(o.coeffs(), (o.pow - self.pow) as nat)),
            )
        } else {
            (
                o.pow as int,
                add_coeffs(times_two_pow(self.coeffs(), (self.pow - o.pow) as nat), o.coeffs()),
            )
        }
    }

    pub open spec fn add_fits(self, o: Scalar) -> bool {
        o.is_zero() || self.is_zero() || coeffs_fit(self.add_spec(o).1) && if self.pow <= o.pow {
            two_pow_fits(o.coeffs(), (o.pow - self.pow) as nat)
        } else {
            two_pow_fits(self.coeffs(), (self.pow - o.pow) as nat)
        }
    }

    /// `self + o` as a scalar, where it fits.
    pub open spec fn plus(self, o: Scalar) -> Scalar {
        let r = self.add_spec(o);
        Scalar { pow: r.0 as i64, c0: r.1.0 as i32, c1: r.1.1 as i32, c2: r.1.2 as i32, c3: r.1.3 as i32 }
    }

    pub open spec fn is_value(self, r: (int, Coeffs)) -> bool {
        self.pow == r.0 && self.coeffs() == r.1
    }

    /// The scalar `2^pow * (c0 + c1 w + c2 w^2 + c3 w^3)`.
    pub fn exact(pow: i64, c0: i32, c1: i32, c2: i32, c3: i32) -> (r: Scalar)
        ensures
            r == (Scalar { pow, c0, c1, c2, c3 }),
    {
        Scalar { pow, c0, c1, c2, c3 }
    }

    pub fn zero() -> (r: Scalar)
        ensures
            r.pow == 0 && r.coeffs() == (0int, 0int, 0int, 0int),
    {
        Scalar { pow: 0, c0: 0, c1: 0, c2: 0, c3: 0 }
    }

    pub fn one() -> (r: Scalar)
        ensures
            r.pow == 0 && r.coeffs() == (1int, 0int, 0int, 0int),
    {
        Scalar { pow: 0, c0: 1, c1: 0, c2: 0, c3: 0 }
    }

    /// `e^(i pi k / 4)`, a phase given in units of `pi / 4`.
    pub fn from_phase(k: u8) -> (r: Scalar)
        ensures
            r.pow == 0,
            r.coeffs() == w_pow((k % 8) as nat),
    {
        let k = k % 8;
        proof {
            reveal_with_fuel(w_pow, 9);
        }
        let s: i32 = if k < 4 { 1 } else { -1 };
        let j = k % 4;
        let r = if j == 0 {
            Scalar { pow: 0, c0: s, c1: 0, c2: 0, c3: 0 }
        } else if j == 1 {
            Scalar { pow: 0, c0: 0, c1: s, c2: 0, c3: 0 }
        } else if j == 2 {
            Scalar { pow: 0, c0: 0, c1: 0, c2: s, c3: 0 }
        } else {
            Scalar { pow: 0, c0: 0, c1: 0, c2: 0, c3: s }
        };
        r
    }

    /// `self * o`, or `None` where the exact result does not fit in `i64`.
    pub fn checked_mul(&self, o: &Scalar) -> (r: Option<Scalar>)
        ensures
            r is Some <==> self.mul_fits(*o),
            r matches Some(s) ==> s.is_value(self.mul_spec(*o)),
    {
        let (a0, a1, a2, a3) = (self.c0 as i128, self.c1 as i128, self.c2 as i128, self.c3 as i128);
        let (b0, b1, b2, b3) = (o.c0 as i128, o.c1 as i128, o.c2 as i128, o.c3 as i128);
        let p = self.pow as i128 + o.pow as i128;
        let d0 = mul32(a0, b0) - mul32(a1, b3) - mul32(a2, b2) - mul32(a3, b1);
        let d1 = mul32(a0, b1) + mul32(a1, b0) - mul32(a2, b3) - mul32(a3, b2);
        let d2 = mul32(a0, b2) + mul32(a1, b1) + mul32(a2, b0) - mul32(a3, b3);
        let d3 = mul32(a0, b3) + mul32(a1, b2) + mul32(a2, b1) + mul32(a3, b0);
        if fits(p) && fits32(d0) && fits32(d1) && fits32(d2) && fits32(d3) {
            Some(Scalar { pow: p as i64, c0: d0 as i32, c1: d1 as i32, c2: d2 as i32, c3: d3 as i32 })
        } else {
            None
        }
    }

    /// Coefficients times two, or `None` where they do not fit.
    fn checked_times_two(c: (i32, i32, i32, i32)) -> (r: Option<(i32, i32, i32, i32)>)
        ensures
            r is Some <==> coeffs_fit(times_two((c.0 as int, c.1 as int, c.2 as int, c.3 as int))),
            r matches Some(d) ==> (d.0 as int, d.1 as int, d.2 as int, d.3 as int) == times_two(
                (c.0 as int, c.1 as int, c.2 as int, c.3 as int),
            ),
    {
        let (a0, a1, a2, a3) = (c.0 as i128, c.1 as i128, c.2 as i128, c.3 as i128);
        let (d0, d1, d2, d3) = (2 * a0, 2 * a1, 2 * a2, 2 * a3);
        if fits32(d0) && fits32(d1) && fits32(d2) && fits32(d3) {
            Some((d0 as i32, d1 as i32, d2 as i32, d3 as i32))
        } else {
            None
        }
    }

    /// Coefficients times `2^k`, or `None` where an intermediate does not fit.
    fn checked_times_two_pow(c: (i32, i32, i32, i32), k: u64) -> (r: Option<(i32, i32, i32, i32)>)
        ensures
            r is Some <==> two_pow_fits((c.0 as int, c.1 as int, c.2 as int, c.3 as int), k as nat),
            r matches Some(d) ==> (d.0 as int, d.1 as int, d.2 as int, d.3 as int) == times_two_pow(
                (c.0 as int, c.1 as int, c.2 as int, c.3 as int),
                k as nat,
            ),
    {
        let ghost c0 = (c.0 as int, c.1 as int, c.2 as int, c.3 as int);
        let mut d = c;
        let mut i: u64 = 0;
        while i < k
            invariant
                i <= k,
                c0 == (c.0 as int, c.1 as int, c.2 as int, c.3 as int),
                two_pow_fits(c0, i as nat),
                (d.0 as int, d.1 as int, d.2 as int, d.3 as int) == times_two_pow(c0, i as nat),
            decreases k - i,
        {
            match Scalar::checked_times_two(d) {
                Some(e) => {
                    d = e;
                    i = i + 1;
                },
                None => {
                    proof {
                        assert(times_two_pow(c0, (i + 1) as nat) == times_two(times_two_pow(c0, i as nat)));
                        lemma_fits_prefix(c0, (i + 1) as nat, k as nat);
                    }
                    return None;
                },
            }
        }
        Some(d)
    }

    /// `self + o`, or `None` where the exact result does not fit.
    pub fn checked_add(&self, o: &Scalar) -> (r: Option<Scalar>)
        ensures
            r is Some <==> self.add_fits(*o),
            r matches Some(s) ==> s.is_value(self.add_spec(*o)) && s == self.plus(*o),
    {
        if self.c0 == 0 && self.c1 == 0 && self.c2 == 0 && self.c3 == 0 {
            return Some(*o);
        }
        if o.c0 == 0 && o.c1 == 0 && o.c2 == 0 && o.c3 == 0 {
            return Some(*self);
        }
        let (lo, hi) = if self.pow <= o.pow { (self, o) } else { (o, self) };
        let k = (hi.pow as i128 - lo.pow as i128) as u64;
        match Scalar::checked_times_two_pow((hi.c0, hi.c1, hi.c2, hi.c3), k) {
            None => None,
            Some(h) => {
                let (d0, d1, d2, d3) = (
                    lo.c0 as i128 + h.0 as i128,
                    lo.c1 as i128 + h.1 as i128,
                    lo.c2 as i128 + h.2 as i128,
                    lo.c3 as i128 + h.3 as i128,
                );
                if fits32(d0) && fits32(d1) && fits32(d2) && fits32(d3) {
                    Some(Scalar { pow: lo.pow, c0: d0 as i32, c1: d1 as i32, c2: d2 as i32, c3: d3 as i32 })
                } else {
                    None
                }
            },
        }
    }
}

pub open spec fn pow2(k: nat) -> int
    decreases k,
{
    if k == 0 {
        1
    } else {
        2 * pow2((k - 1) as nat)
    }
}

pub open spec fn scale(c: Coeffs, f: int) -> Coeffs {
    (c.0 * f, c.1 * f, c.2 * f, c.3 * f)
}

proof fn lemma_times_two_pow(c: Coeffs, k: nat)
    ensures
        times_two_pow(c, k) == scale(c, pow2(k)),
        pow2(k) >= 1,
    decreases k,
{
    if k == 0 {
        assert(c.0 * 1 == c.0 && c.1 * 1 == c.1 && c.2 * 1 == c.2 && c.3 * 1 == c.3);
    } else {
        let j = (k - 1) as nat;
        lemma_times_two_pow(c, j);
        let p = pow2(j);
        assert(times_two_pow(c, k) == times_two(times_two_pow(c, j)));
        assert(pow2(k) == 2 * p);
        assert(2 * (c.0 * p) == c.0 * (2 * p)) by (nonlinear_arith);
        assert(2 * (c.1 * p) == c.1 * (2 * p)) by (nonlinear_arith);
        assert(2 * (c.2 * p) == c.2 * (2 * p)) by (nonlinear_arith);
        assert(2 * (c.3 * p) == c.3 * (2 * p)) by (nonlinear_arith);
    }
}

proof fn lemma_pow2_large(k: nat)
    requires
        k >= 32,
    ensures
        pow2(k) >= 0x1_0000_0000,
    decreases k,
{
    if k > 32 {
        lemma_pow2_large((k - 1) as nat);
    } else {
        reveal_with_fuel(pow2, 33);
    }
}

impl Scalar {
    /// Both scalars stand for the same number: over the smaller exponent,
    /// the coefficients agree.
    pub open spec fn same_value(self, o: Scalar) -> bool {
        if self.pow <= o.pow {
            self.coeffs() == times_two_pow(o.coeffs(), (o.pow - self.pow) as nat)
        } else {
            o.coeffs() == times_two_pow(self.coeffs(), (self.pow - o.pow) as nat)
        }
    }

    /// `sqrt(2) = w - w^3`.
    pub fn sqrt2() -> (r: Scalar)
        ensures
            r.pow == 0 && r.coeffs() == (0int, 1int, 0int, -1int),
    {
        Scalar { pow: 0, c0: 0, c1: 1, c2: 0, c3: -1 }
    }

    /// `sqrt(2)^p`.
    pub fn sqrt2_pow(p: i64) -> (r: Scalar)
        ensures
            p % 2 == 0 ==> r.pow == p / 2 && r.coeffs() == (1int, 0int, 0int, 0int),
            p % 2 != 0 ==> r.pow == (p - 1) / 2 && r.coeffs() == (0int, 1int, 0int, -1int),
    {
        if p % 2 == 0 {
            Scalar { pow: p / 2, c0: 1, c1: 0, c2: 0, c3: 0 }
        } else {
            Scalar { pow: (p - 1) / 2, c0: 0, c1: 1, c2: 0, c3: -1 }
        }
    }
}

fn same_aligned(lo: &Scalar, hi: &Scalar) -> (r: bool)
    requires
        lo.pow <= hi.pow,
    ensures
        r == (lo.coeffs() == times_two_pow(hi.coeffs(), (hi.pow - lo.pow) as nat)),
{
    let k = (hi.pow as i128 - lo.pow as i128) as u64;
    proof {
        lemma_times_two_pow(hi.coeffs(), k as nat);
    }
    if hi.c0 == 0 && hi.c1 == 0 && hi.c2 == 0 && hi.c3 == 0 {
        proof {
            let p = pow2(k as nat);
            assert(0 * p == 0);
            assert(scale(hi.coeffs(), p) == (0int, 0int, 0int, 0int));
        }
        return lo.c0 == 0 && lo.c1 == 0 && lo.c2 == 0 && lo.c3 == 0;
    }
    if k >= 32 {
        proof {
            lemma_pow2_large(k as nat);
            let p = pow2(k as nat);
            let c = hi.coeffs();
            if c.0 != 0 {
                lemma_big_product(c.0, p, lo.c0 as int);
            } else if c.1 != 0 {
                lemma_big_product(c.1, p, lo.c1 as int);
            } else if c.2 != 0 {
                lemma_big_product(c.2, p, lo.c2 as int);
            } else {
                lemma_big_product(c.3, p, lo.c3 as int);
            }
        }
        return false;
    }
    let mut f: i128 = 1;
    let mut i: u64 = 0;
    while i < k
        invariant
            i <= k < 32,
            f == pow2(i as nat),
            1 <= f <= 0x1_0000_0000,
        decreases k - i,
    {
        proof {
            assert(pow2((i + 1) as nat) == 2 * pow2(i as nat));
            if i + 1 < 32 {
                lemma_pow2_small((i + 1) as nat);
            }
        }
        f = f * 2;
        i = i + 1;
    }
    proof {
        assert(hi.c0 * f <= 0x8000_0000_0000_0000 && hi.c0 * f >= -0x8000_0000_0000_0000) by (nonlinear_arith)
            requires i32::MIN <= hi.c0 <= i32::MAX, 1 <= f <= 0x1_0000_0000;
        assert(hi.c1 * f <= 0x8000_0000_0000_0000 && hi.c1 * f >= -0x8000_0000_0000_0000) by (nonlinear_arith)
            requires i32::MIN <= hi.c1 <= i32::MAX, 1 <= f <= 0x1_0000_0000;
        assert(hi.c2 * f <= 0x8000_0000_0000_0000 && hi.c2 * f >= -0x8000_0000_0000_0000) by (nonlinear_arith)
            requires i32::MIN <= hi.c2 <= i32::MAX, 1 <= f <= 0x1_0000_0000;
        assert(hi.c3 * f <= 0x8000_0000_0000_0000 && hi.c3 * f >= -0x8000_0000_0000_0000) by (nonlinear_arith)
            requires i32::MIN <= hi.c3 <= i32::MAX, 1 <= f <= 0x1_0000_0000;
    }
    lo.c0 as i128 == hi.c0 as i128 * f && lo.c1 as i128 == hi.c1 as i128 * f && lo.c2 as i128 == hi.c2 as i128 * f
        && lo.c3 as i128 == hi.c3 as i128 * f
}

proof fn lemma_big_product(c: int, p: int, x: int)
    requires
        c != 0,
        p >= 0x1_0000_0000,
        i32::MIN <= x <= i32::MAX,
    ensures
        c * p != x,
{
    if c > 0 {
        assert(c * p >= p) by (nonlinear_arith)
            requires c >= 1, p > 0;
    } else {
        assert(c * p <= -p) by (nonlinear_arith)
            requires c <= -1, p > 0;
    }
}

proof fn lemma_pow2_small(k: nat)
    requires
        k <= 32,
    ensures
        1 <= pow2(k) <= pow2(32),
        pow2(32) == 0x1_0000_0000,
    decreases 32 - k,
{
    reveal_with_fuel(pow2, 33);
    if k < 32 {
        lemma_pow2_small(k + 1);
    }
}

impl PartialEq for Scalar {
    /// Equality of the numbers that the two scalars stand for.
    fn eq(&self, o: &Scalar) -> (r: bool)
        ensures
            r == self.same_value(*o),
    {
        if self.pow <= o.pow {
            same_aligned(self, o)
        } else {
            same_aligned(o, self)
        }
    }
}

impl vstd::std_specs::cmp::PartialEqSpecImpl for Scalar {
    open spec fn obeys_eq_spec() -> bool {
        true
    }

    open spec fn eq_spec(&self, o: &Scalar) -> bool {
        self.same_value(*o)
    }
}

/// `w^k` for `k < 8`.
pub open spec fn w_pow(k: nat) -> Coeffs
    decreases k,
{
    if k == 0 {
        (1, 0, 0, 0)
    } else {
        let c = w_pow((k - 1) as nat);
        (-c.3, c.0, c.1, c.2)
    }
}

proof fn lemma_fits_prefix(c: Coeffs, i: nat, k: nat)
    requires
        i <= k,
        !two_pow_fits(c, i),
    ensures
        !two_pow_fits(c, k),
    decreases k - i,
{
    if i < k {
        lemma_fits_prefix(c, i, (k - 1) as nat);
    }
}

fn fits(x: i128) -> (r: bool)
    ensures
        r == in_i64(x as int),
{
    i64::MIN as i128 <= x && x <= i64::MAX as i128
}

fn fits32(x: i128) -> (r: bool)
    ensures
        r == in_i32(x as int),
{
    i32::MIN as i128 <= x && x <= i32::MAX as i128
}

fn mul32(a: i128, b: i128) -> (r: i128)
    requires
        in_i32(a as int),
        in_i32(b as int),
    ensures
        r == a * b,
        -0x4000_0000_0000_0000 <= r <= 0x4000_0000_0000_0000,
{
    proof {
        assert(-0x4000_0000_0000_0000 <= a * b <= 0x4000_0000_0000_0000) by (nonlinear_arith)
            requires
                i32::MIN <= a <= i32::MAX,
                i32::MIN <= b <= i32::MAX,
        ;
    }
    a * b
}

} // verus!
