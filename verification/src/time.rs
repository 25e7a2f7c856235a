use vstd::prelude::*;
use vstd::arithmetic::div_mod::{
    lemma_div_nonincreasing, lemma_fundamental_div_mod, lemma_mod_decreases,
    lemma_mod_division_less_than_divisor, lemma_mod_multiples_basic,
};
use vstd::arithmetic::mul::lemma_mul_inequality;
use vstd::std_specs::cmp::PartialOrdSpec;

verus! {

/// Mathematical value of a beat quantity: an exact fraction `n / d` of a beat,
/// with `d > 0` for every well-formed value.
pub ghost struct FracV {
    pub n: int,
    pub d: int,
}

/// `a` and `b` denote the same rational number.
pub open spec fn frac_eq(a: FracV, b: FracV) -> bool {
    a.n * b.d == b.n * a.d
}

/// `a` denotes a rational no greater than `b` (for positive denominators).
pub open spec fn frac_le(a: FracV, b: FracV) -> bool {
    a.n * b.d <= b.n * a.d
}

/// `a` denotes a rational strictly less than `b` (for positive denominators).
pub open spec fn frac_lt(a: FracV, b: FracV) -> bool {
    a.n * b.d < b.n * a.d
}

/// The fraction is a well-formed nonnegative rational.
pub open spec fn frac_wf(f: FracV) -> bool {
    f.d > 0 && f.n >= 0
}

/// Exact (unreduced) sum of two fractions.
pub open spec fn frac_raw_add(a: FracV, b: FracV) -> FracV {
    FracV { n: a.n * b.d + b.n * a.d, d: a.d * b.d }
}

/// Exact (unreduced) difference `a - b`.
pub open spec fn frac_raw_sub(a: FracV, b: FracV) -> FracV {
    FracV { n: a.n * b.d - b.n * a.d, d: a.d * b.d }
}

/// Exact (unreduced) product.
pub open spec fn frac_raw_mul(a: FracV, b: FracV) -> FracV {
    FracV { n: a.n * b.n, d: a.d * b.d }
}

/// Greatest common divisor by Euclid's rule.
pub open spec fn spec_gcd(a: nat, b: nat) -> nat
    decreases b,
{
    if b == 0 {
        a
    } else {
        spec_gcd(b, a % b)
    }
}

/// The fraction in lowest terms (both components divided by their gcd).
pub open spec fn frac_norm(f: FracV) -> FracV {
    let g = spec_gcd(f.n as nat, f.d as nat) as int;
    FracV { n: f.n / g, d: f.d / g }
}

/// Both components fit the machine representation used by `Beat`.
pub open spec fn frac_in_range(f: FracV) -> bool {
    f.n <= u32::MAX && f.d <= u32::MAX
}

/// The gcd of two naturals (not both zero) is positive and divides both.
pub proof fn lemma_gcd_divides(a: nat, b: nat)
    requires
        a > 0 || b > 0,
    ensures
        spec_gcd(a, b) >= 1,
        a % spec_gcd(a, b) == 0,
        b % spec_gcd(a, b) == 0,
    decreases b,
{
    let g = spec_gcd(a, b);
    if b == 0 {
        assert(g == a);
        lemma_mod_multiples_basic(1, a as int);
        assert(a % g == 0);
        assert(b % g == 0) by {
            lemma_mod_multiples_basic(0, a as int);
        }
    } else {
        lemma_mod_division_less_than_divisor(a as int, b as int);
        lemma_gcd_divides(b, a % b);
        assert(g == spec_gcd(b, a % b));
        assert(b % g == 0);
        assert((a % b) % g == 0);
        // a == b * (a / b) + a % b, and g divides both b and a % b.
        lemma_fundamental_div_mod(a as int, b as int);
        lemma_fundamental_div_mod(b as int, g as int);
        lemma_fundamental_div_mod((a % b) as int, g as int);
        let k1 = b as int / g as int;
        let k2 = (a % b) as int / g as int;
        let q = a as int / b as int;
        assert(b as int == g * k1);
        assert((a % b) as int == g * k2);
        assert(a as int == (g * k1) * q + g * k2);
        assert(a as int == g * (k1 * q + k2)) by (nonlinear_arith)
            requires
                a as int == (g * k1) * q + g * k2,
        ;
        lemma_mod_multiples_basic(k1 * q + k2, g as int);
    }
}

/// A positive divisor of a positive number is no larger than it.
proof fn lemma_divisor_le(g: int, x: int)
    requires
        g >= 1,
        x >= 1,
        x % g == 0,
    ensures
        g <= x,
        x / g >= 1,
        x / g <= x,
{
    lemma_fundamental_div_mod(x, g);
    let k = x / g;
    assert(x == g * k);
    assert(k >= 1) by (nonlinear_arith)
        requires
            x == g * k,
            g >= 1,
            x >= 1,
    ;
    assert(g <= x && k <= x) by (nonlinear_arith)
        requires
            x == g * k,
            g >= 1,
            k >= 1,
    ;
}

/// Reduction to lowest terms keeps the value, the positivity of the
/// denominator, and never grows either component.
pub proof fn lemma_frac_norm(f: FracV)
    requires
        frac_wf(f),
    ensures
        frac_wf(frac_norm(f)),
        frac_eq(frac_norm(f), f),
        frac_norm(f).n <= f.n,
        frac_norm(f).d <= f.d,
{
    lemma_gcd_divides(f.n as nat, f.d as nat);
    let g = spec_gcd(f.n as nat, f.d as nat) as int;
    lemma_divisor_le(g, f.d);
    lemma_fundamental_div_mod(f.d, g);
    let n2 = f.n / g;
    let d2 = f.d / g;
    assert(f.d == g * d2);
    if f.n == 0 {
        assert(n2 == 0);
        assert(frac_eq(frac_norm(f), f)) by (nonlinear_arith)
            requires
                n2 == 0,
                f.n == 0,
                frac_norm(f) == (FracV { n: n2, d: d2 }),
        ;
    } else {
        lemma_divisor_le(g, f.n);
        lemma_fundamental_div_mod(f.n, g);
        assert(f.n == g * n2);
        // n2 * f.d == f.n * d2 since both equal g * n2 * d2.
        assert(n2 * f.d == f.n * d2) by (nonlinear_arith)
            requires
                f.n == g * n2,
                f.d == g * d2,
        ;
    }
}

/// Widening product of two 32-bit values; never overflows.
fn mul32(a: u32, b: u32) -> (r: u64)
    ensures
        r as int == a as int * b as int,
{
    proof {
        lemma_mul_inequality(a as int, u32::MAX as int, b as int);
        lemma_mul_inequality(b as int, u32::MAX as int, u32::MAX as int);
        assert(a as int * b as int <= u32::MAX as int * u32::MAX as int) by (nonlinear_arith)
            requires
                a <= u32::MAX,
                b <= u32::MAX,
        ;
    }
    a as u64 * b as u64
}

/// Euclid's algorithm, matching `spec_gcd` exactly.
fn gcd128(a: u128, b: u128) -> (g: u128)
    ensures
        g == spec_gcd(a as nat, b as nat),
    decreases b,
{
    if b == 0 {
        a
    } else {
        gcd128(b, a % b)
    }
}

/// Reduce `n / d` to lowest terms and return it as a `Beat` when both reduced
/// components fit; reports exactly when they do not.
fn reduce_fit128(n: u128, d: u128) -> (r: Option<Beat>)
    requires
        d > 0,
    ensures
        match r {
            Some(b) => {
                &&& b@ == frac_norm(FracV { n: n as int, d: d as int })
                &&& frac_in_range(frac_norm(FracV { n: n as int, d: d as int }))
            },
            None => !frac_in_range(frac_norm(FracV { n: n as int, d: d as int })),
        },
{
    let g = gcd128(n, d);
    proof {
        lemma_gcd_divides(n as nat, d as nat);
        lemma_divisor_le(g as int, d as int);
    }
    let rn = n / g;
    let rd = d / g;
    if rn <= u32::MAX as u128 && rd <= u32::MAX as u128 {
        Some(Beat { num: rn as u32, den: rd as u32 })
    } else {
        None
    }
}

/// An exact fractional count of beats: the unit of duration and of beat
/// position inside a measure.
#[derive(Debug, Clone, Copy, Hash)]
pub struct Beat {
    num: u32,
    den: u32,
}

pub type BeatUnit = u32;

pub type Measure = u32;

impl View for Beat {
    type V = FracV;

    closed spec fn view(&self) -> FracV {
        FracV { n: self.num as int, d: self.den as int }
    }
}

impl Beat {
    /// The denominator is positive for every beat ever constructed.
    #[verifier::type_invariant]
    pub closed spec fn type_wf(self) -> bool {
        self.den >= 1
    }

    /// A beat value is a nonnegative fraction with positive denominator.
    pub open spec fn wf(self) -> bool {
        frac_wf(self@)
    }

    pub fn new(num: BeatUnit, denom: BeatUnit) -> (r: Beat)
        requires
            denom != 0,
        ensures
            r@ == frac_norm(FracV { n: num as int, d: denom as int }),
            r.wf(),
    {
        proof {
            lemma_frac_norm(FracV { n: num as int, d: denom as int });
        }
        reduce_fit128(num as u128, denom as u128).unwrap()
    }

    pub fn whole(num: BeatUnit) -> (r: Beat)
        ensures
            r@ == (FracV { n: num as int, d: 1int }),
            r.wf(),
    {
        let r = Beat { num, den: 1 };
        r
    }

    pub fn zero() -> (r: Beat)
        ensures
            r@ == (FracV { n: 0int, d: 1int }),
            r.wf(),
    {
        Beat { num: 0, den: 1 }
    }

    pub fn numerator(&self) -> (r: BeatUnit)
        ensures
            r as int == self@.n,
    {
        self.num
    }

    pub fn denominator(&self) -> (r: BeatUnit)
        ensures
            r as int == self@.d,
            r >= 1,
    {
        proof {
            use_type_invariant(self);
        }
        self.den
    }

    /// Exact sum; `None` exactly when the reduced result does not fit the
    /// 32-bit representation.
    pub fn checked_add(self, rhs: Beat) -> (r: Option<Beat>)
        ensures
            match r {
                Some(b) => {
                    &&& b@ == frac_norm(frac_raw_add(self@, rhs@))
                    &&& b.wf()
                    &&& frac_eq(b@, frac_raw_add(self@, rhs@))
                },
                None => !frac_in_range(frac_norm(frac_raw_add(self@, rhs@))),
            },
    {
        proof {
            use_type_invariant(self);
            use_type_invariant(rhs);
        }
        let n = mul32(self.num, rhs.den) as u128 + mul32(rhs.num, self.den) as u128;
        let d = mul32(self.den, rhs.den) as u128;
        proof {
            assert(d > 0) by (nonlinear_arith)
                requires
                    self.den >= 1 && rhs.den >= 1,
                    d as int == self.den as int * rhs.den as int,
            ;
            lemma_frac_norm(frac_raw_add(self@, rhs@));
        }
        reduce_fit128(n, d)
    }

    /// Exact difference; `None` when `rhs` exceeds `self` or the reduced
    /// result does not fit.
    pub fn checked_sub(self, rhs: Beat) -> (r: Option<Beat>)
        ensures
            match r {
                Some(b) => {
                    &&& frac_le(rhs@, self@)
                    &&& b@ == frac_norm(frac_raw_sub(self@, rhs@))
                    &&& b.wf()
                    &&& frac_eq(b@, frac_raw_sub(self@, rhs@))
                },
                None => frac_lt(self@, rhs@) || !frac_in_range(
                    frac_norm(frac_raw_sub(self@, rhs@)),
                ),
            },
    {
        proof {
            use_type_invariant(self);
            use_type_invariant(rhs);
        }
        let n1 = mul32(self.num, rhs.den);
        let n2 = mul32(rhs.num, self.den);
        let d = mul32(self.den, rhs.den) as u128;
        if n1 < n2 {
            return None;
        }
        let n = (n1 - n2) as u128;
        proof {
            assert(d > 0) by (nonlinear_arith)
                requires
                    self.den >= 1 && rhs.den >= 1,
                    d as int == self.den as int * rhs.den as int,
            ;
            lemma_frac_norm(frac_raw_sub(self@, rhs@));
        }
        reduce_fit128(n, d)
    }

    /// Exact product; `None` exactly when the reduced result does not fit.
    pub fn checked_mul(self, rhs: Beat) -> (r: Option<Beat>)
        ensures
            match r {
                Some(b) => {
                    &&& b@ == frac_norm(frac_raw_mul(self@, rhs@))
                    &&& b.wf()
                },
                None => !frac_in_range(frac_norm(frac_raw_mul(self@, rhs@))),
            },
    {
        proof {
            use_type_invariant(self);
            use_type_invariant(rhs);
        }
        let n = mul32(self.num, rhs.num) as u128;
        let d = mul32(self.den, rhs.den) as u128;
        proof {
            assert(d > 0) by (nonlinear_arith)
                requires
                    self.den >= 1 && rhs.den >= 1,
                    d as int == self.den as int * rhs.den as int,
            ;
            lemma_frac_norm(frac_raw_mul(self@, rhs@));
        }
        reduce_fit128(n, d)
    }

    /// Value comparison: `self < rhs` as rationals.
    pub fn lt(&self, rhs: &Beat) -> (r: bool)
        ensures
            r == frac_lt(self@, rhs@),
    {
        mul32(self.num, rhs.den) < mul32(rhs.num, self.den)
    }

    /// Value comparison: `self <= rhs` as rationals.
    pub fn le(&self, rhs: &Beat) -> (r: bool)
        ensures
            r == frac_le(self@, rhs@),
    {
        mul32(self.num, rhs.den) <= mul32(rhs.num, self.den)
    }

    pub fn is_zero(&self) -> (r: bool)
        ensures
            r == (self@.n == 0),
    {
        self.num == 0
    }

    /// Normalize a raw beat count against a signature: whole measures by
    /// floor division, and the remainder beat, always below one measure.
    pub fn as_music_time(&self, time_signature: TimeSignature) -> (r: MusicTime)
        requires
            time_signature.0 >= 1,
    ensures
            r@ == spec_beat_split(self@, time_signature.0 as int),
            r.1.wf(),
            frac_lt_whole(r.1@, time_signature.0 as int),
    {
        proof {
            use_type_invariant(self);
            let x = self@.d * time_signature.0 as int;
            assert(0 < x <= u64::MAX) by (nonlinear_arith)
                requires
                    1 <= self@.d <= u32::MAX,
                    1 <= time_signature.0 <= u32::MAX,
                    x == self@.d * time_signature.0 as int,
            ;
            lemma_div_nonincreasing(self@.n, x);
            lemma_mod_decreases(self@.n as nat, x as nat);
            lemma_frac_norm(FracV { n: self@.n % x, d: self@.d });
        }
        let r = split128(self.num as u128, self.den as u128, time_signature.0);
        r.unwrap()
    }
}

/// Split a raw fraction `n / d` of beats into whole measures and a reduced
/// remainder beat; `None` exactly when a component does not fit.
fn split128(n: u128, d: u128, ts: u32) -> (r: Option<MusicTime>)
    requires
        d > 0,
        ts >= 1,
        d as int * ts as int <= u128::MAX,
    ensures
        match r {
            Some(mt) => {
                &&& mt@ == spec_beat_split(FracV { n: n as int, d: d as int }, ts as int)
                &&& mt.1.wf()
                &&& frac_lt_whole(mt.1@, ts as int)
            },
            None => n as int / (d as int * ts as int) > u32::MAX || !frac_in_range(
                frac_norm(FracV { n: n as int % (d as int * ts as int), d: d as int }),
            ),
        },
{
    let ghost xi = d as int * ts as int;
    proof {
        assert(xi > 0) by (nonlinear_arith)
            requires
                d > 0,
                ts >= 1,
                xi == d as int * ts as int,
        ;
    }
    let x = d * ts as u128;
    let m = n / x;
    let rem = n % x;
    if m > u32::MAX as u128 {
        return None;
    }
    proof {
        lemma_mod_division_less_than_divisor(n as int, xi);
        lemma_frac_norm(FracV { n: rem as int, d: d as int });
    }
    match reduce_fit128(rem, d) {
        Some(b) => {
            proof {
                let raw = FracV { n: rem as int, d: d as int };
                let nm = frac_norm(raw);
                // rem < d * ts carries over to the reduced remainder.
                assert(frac_lt_whole(nm, ts as int)) by (nonlinear_arith)
                    requires
                        frac_eq(nm, raw),
                        nm.d > 0,
                        raw.d > 0,
                        raw.n < raw.d * ts as int,
                        xi == raw.d * ts as int,
                ;
            }
            Some(MusicTime(m as u32, b))
        },
        None => None,
    }
}

/// The value of the remainder beat stays under one measure of `w` beats.
pub open spec fn frac_lt_whole(f: FracV, w: int) -> bool {
    f.n < w * f.d
}

/// Mathematical value of a music time: whole measures and the remainder beat.
pub ghost struct MtV {
    pub m: int,
    pub b: FracV,
}

/// Splitting a raw beat count into measures and a reduced remainder beat.
pub open spec fn spec_beat_split(f: FracV, ts: int) -> MtV {
    MtV { m: f.n / (f.d * ts), b: frac_norm(FracV { n: f.n % (f.d * ts), d: f.d }) }
}

/// A time signature: beats per measure and the unit that counts one beat.
#[derive(Debug, Clone, Copy, PartialEq, Eq, Structural, Hash)]
pub struct TimeSignature(pub BeatUnit, pub BeatUnit);

impl TimeSignature {
    /// Common time, four quarter-note beats to the measure.
    pub fn common() -> (r: TimeSignature)
        ensures
            r == (TimeSignature(4, 4)),
    {
        TimeSignature(4, 4)
    }
}

/// A position in music, or a span of it: whole measures plus a fractional
/// beat remainder. Arithmetic is signature-dependent and goes through
/// `MusicTimeWithSignature`.
#[derive(Debug, Clone, Copy, Hash)]
pub struct MusicTime(pub Measure, pub Beat);

impl View for MusicTime {
    type V = MtV;

    open spec fn view(&self) -> MtV {
        MtV { m: self.0 as int, b: self.1@ }
    }
}

/// The total beat count that a music time denotes under `ts` beats per
/// measure, as an exact fraction.
pub open spec fn mt_total(mt: MtV, ts: int) -> FracV {
    FracV { n: mt.m * ts * mt.b.d + mt.b.n, d: mt.b.d }
}

/// The beat remainder is well formed and lies inside one measure.
pub open spec fn mt_normalized(mt: MtV, ts: int) -> bool {
    frac_wf(mt.b) && frac_lt_whole(mt.b, ts)
}

impl MusicTime {
    pub fn zero() -> (r: MusicTime)
        ensures
            r.0 == 0 && r.1@ == (FracV { n: 0int, d: 1int }),
    {
        MusicTime(0, Beat::zero())
    }

    pub fn beats(beats: BeatUnit) -> (r: MusicTime)
        ensures
            r.0 == 0 && r.1@ == (FracV { n: beats as int, d: 1int }),
    {
        MusicTime(0, Beat::whole(beats))
    }

    pub fn measures(measures: Measure) -> (r: MusicTime)
        ensures
            r.0 == measures && r.1@ == (FracV { n: 0int, d: 1int }),
    {
        MusicTime(measures, Beat::zero())
    }

    pub fn from_whole_beats(time_signature: TimeSignature, beats: BeatUnit) -> (r: MusicTime)
        requires
            time_signature.0 >= 1,
        ensures
            r.0 == beats as int / time_signature.0 as int,
            r.1@ == (FracV { n: beats as int % time_signature.0 as int, d: 1int }),
    {
        let measures = beats / time_signature.0;
        let rem = beats % time_signature.0;
        MusicTime(measures, Beat::whole(rem))
    }

    pub fn with(self, time_signature: TimeSignature) -> (r: MusicTimeWithSignature)
        ensures
            r.time == self && r.time_signature == time_signature,
    {
        MusicTimeWithSignature { time: self, time_signature }
    }
}

/// A music time paired with the signature that its arithmetic must respect.
#[derive(Debug, Clone, Copy)]
pub struct MusicTimeWithSignature {
    pub time: MusicTime,
    pub time_signature: TimeSignature,
}

/// Exact addition: beat remainders are summed, the sum is split into carry
/// measures and a reduced remainder, and measures add with the carry.
pub open spec fn spec_mt_add(a: MtV, b: MtV, ts: int) -> MtV {
    let bs = frac_norm(frac_raw_add(a.b, b.b));
    let sp = spec_beat_split(bs, ts);
    MtV { m: a.m + b.m + sp.m, b: sp.b }
}

/// Subtraction succeeds without underflow: after borrowing one measure when
/// the right beat exceeds the left one, both components stay nonnegative.
pub open spec fn spec_mt_sub_ok(a: MtV, b: MtV, ts: int) -> bool {
    let borrow = frac_lt(a.b, b.b);
    let b1 = if borrow {
        frac_norm(frac_raw_add(a.b, FracV { n: ts, d: 1 }))
    } else {
        a.b
    };
    &&& a.m - b.m - (if borrow {
        1int
    } else {
        0int
    }) >= 0
    &&& frac_le(b.b, b1)
}

/// Exact subtraction by borrowing, then normalizing the remainder.
/// The exact sum fits the machine representation.
pub open spec fn spec_mt_add_fits(a: MtV, b: MtV, ts: int) -> bool {
    &&& frac_in_range(frac_norm(frac_raw_add(a.b, b.b)))
    &&& spec_mt_add(a, b, ts).m <= u32::MAX
}

/// Every intermediate of the borrowing subtraction fits the representation.
pub open spec fn spec_mt_sub_fits(a: MtV, b: MtV, ts: int) -> bool {
    let borrow = frac_lt(a.b, b.b);
    let b1 = if borrow {
        frac_norm(frac_raw_add(a.b, FracV { n: ts, d: 1 }))
    } else {
        a.b
    };
    &&& (borrow ==> frac_in_range(frac_norm(frac_raw_add(a.b, FracV { n: ts, d: 1 }))))
    &&& frac_in_range(frac_norm(frac_raw_sub(b1, b.b)))
    &&& spec_mt_sub(a, b, ts).m <= u32::MAX
}

pub open spec fn spec_mt_sub(a: MtV, b: MtV, ts: int) -> MtV {
    let borrow = frac_lt(a.b, b.b);
    let m0 = a.m - b.m - (if borrow {
        1int
    } else {
        0int
    });
    let b1 = if borrow {
        frac_norm(frac_raw_add(a.b, FracV { n: ts, d: 1 }))
    } else {
        a.b
    };
    let diff = frac_norm(frac_raw_sub(b1, b.b));
    let sp = spec_beat_split(diff, ts);
    MtV { m: m0 + sp.m, b: sp.b }
}

impl MusicTimeWithSignature {
    /// The total number of beats this position denotes, as one reduced
    /// fraction; `None` exactly when that fraction does not fit.
    pub fn total_beats(&self) -> (r: Option<Beat>)
        ensures
            match r {
                Some(b) => {
                    &&& b@ == frac_norm(mt_total(self.time@, self.time_signature.0 as int))
                    &&& b.wf()
                    &&& frac_eq(b@, mt_total(self.time@, self.time_signature.0 as int))
                    &&& frac_in_range(frac_norm(mt_total(self.time@, self.time_signature.0 as int)))
                },
                None => !frac_in_range(
                    frac_norm(mt_total(self.time@, self.time_signature.0 as int)),
                ),
            },
    {
        proof {
            use_type_invariant(&self.time.1);
        }
        let whole = mul32(self.time.0, self.time_signature.0);
        let beat = self.time.1;
        let num = beat.numerator();
        let den = beat.denominator();
        proof {
            assert(whole as int * den as int <= u64::MAX as int * u32::MAX as int)
                by (nonlinear_arith)
                requires
                    0 <= whole as int <= u64::MAX,
                    0 <= den as int <= u32::MAX,
            ;
        }
        let n = whole as u128 * den as u128 + num as u128;
        proof {
            assert(n as int == mt_total(self.time@, self.time_signature.0 as int).n)
                by (nonlinear_arith)
                requires
                    n as int == whole as int * den as int + num as int,
                    whole as int == self.time.0 as int * self.time_signature.0 as int,
                    num as int == self.time.1@.n,
                    den as int == self.time.1@.d,
            ;
            lemma_frac_norm(mt_total(self.time@, self.time_signature.0 as int));
        }
        reduce_fit128(n, den as u128)
    }

    /// Signature-aware addition; `None` exactly when the exact result does
    /// not fit the representation.
    pub fn checked_add(self, rhs: MusicTime) -> (r: Option<MusicTime>)
        requires
            self.time_signature.0 >= 1,
        ensures
            r is Some <==> spec_mt_add_fits(self.time@, rhs@, self.time_signature.0 as int),
            match r {
                Some(mt) => {
                    &&& mt@ == spec_mt_add(self.time@, rhs@, self.time_signature.0 as int)
                    &&& mt.1.wf()
                    &&& frac_lt_whole(mt.1@, self.time_signature.0 as int)
                },
                None => true,
            },
    {
        match self.time.1.checked_add(rhs.1) {
            None => None,
            Some(bs) => {
                let carried = bs.as_music_time(self.time_signature);
                let m = self.time.0 as u64 + rhs.0 as u64 + carried.0 as u64;
                if m > u32::MAX as u64 {
                    None
                } else {
                    Some(MusicTime(m as u32, carried.1))
                }
            },
        }
    }

    /// Signature-aware subtraction by borrowing; `None` on underflow or when
    /// the exact result does not fit the representation.
    pub fn checked_sub(self, rhs: MusicTime) -> (r: Option<MusicTime>)
        requires
            self.time_signature.0 >= 1,
        ensures
            r is Some <==> spec_mt_sub_ok(self.time@, rhs@, self.time_signature.0 as int)
                && spec_mt_sub_fits(self.time@, rhs@, self.time_signature.0 as int),
            match r {
                Some(mt) => {
                    &&& mt@ == spec_mt_sub(self.time@, rhs@, self.time_signature.0 as int)
                    &&& mt.1.wf()
                    &&& frac_lt_whole(mt.1@, self.time_signature.0 as int)
                },
                None => true,
            },
    {
        let borrow = self.time.1.lt(&rhs.1);
        let b1 = if borrow {
            match self.time.1.checked_add(Beat::whole(self.time_signature.0)) {
                None => {
                    return None;
                },
                Some(b) => b,
            }
        } else {
            self.time.1
        };
        let sub_m = rhs.0 as u64 + (if borrow {
            1u64
        } else {
            0u64
        });
        if (self.time.0 as u64) < sub_m {
            return None;
        }
        let m0 = self.time.0 as u64 - sub_m;
        match b1.checked_sub(rhs.1) {
            None => None,
            Some(diff) => {
                let carried = diff.as_music_time(self.time_signature);
                let m = m0 + carried.0 as u64;
                if m > u32::MAX as u64 {
                    None
                } else {
                    Some(MusicTime(m as u32, carried.1))
                }
            },
        }
    }
}

/// Scaling factor for `compress`: a nonnegative magnitude and a direction;
/// a negative factor reverses the track before scaling.
#[derive(Debug, Clone, Copy)]
pub struct TimeCompression {
    pub negative: bool,
    pub factor: Beat,
}

impl TimeCompression {
    pub fn new(negative: bool, factor: Beat) -> (r: TimeCompression)
        ensures
            r.negative == negative && r.factor == factor,
    {
        TimeCompression { negative, factor }
    }
}

impl PartialEq for Beat {
    /// Beats compare by rational value.
    fn eq(&self, other: &Beat) -> (r: bool)
        ensures
            r == frac_eq(self@, other@),
    {
        mul32(self.num, other.den) == mul32(other.num, self.den)
    }
}

impl vstd::std_specs::cmp::PartialEqSpecImpl for Beat {
    open spec fn obeys_eq_spec() -> bool {
        true
    }

    open spec fn eq_spec(&self, other: &Beat) -> bool {
        frac_eq(self@, other@)
    }
}

impl PartialOrd for Beat {
    /// Beats order by rational value; the order is total.
    fn partial_cmp(&self, other: &Beat) -> (r: Option<core::cmp::Ordering>) {
        let l = mul32(self.num, other.den);
        let rr = mul32(other.num, self.den);
        if l < rr {
            Some(core::cmp::Ordering::Less)
        } else if l == rr {
            Some(core::cmp::Ordering::Equal)
        } else {
            Some(core::cmp::Ordering::Greater)
        }
    }
}

impl vstd::std_specs::cmp::PartialOrdSpecImpl for Beat {
    open spec fn obeys_partial_cmp_spec() -> bool {
        true
    }

    open spec fn partial_cmp_spec(&self, other: &Beat) -> Option<core::cmp::Ordering> {
        if frac_lt(self@, other@) {
            Some(core::cmp::Ordering::Less)
        } else if frac_eq(self@, other@) {
            Some(core::cmp::Ordering::Equal)
        } else {
            Some(core::cmp::Ordering::Greater)
        }
    }
}

/// Lexicographic order on music times: by measure, then by beat value.
pub open spec fn mt_lt(a: MtV, b: MtV) -> bool {
    a.m < b.m || (a.m == b.m && frac_lt(a.b, b.b))
}

pub open spec fn mt_le(a: MtV, b: MtV) -> bool {
    a.m < b.m || (a.m == b.m && frac_le(a.b, b.b))
}

pub open spec fn mt_eq(a: MtV, b: MtV) -> bool {
    a.m == b.m && frac_eq(a.b, b.b)
}

impl PartialEq for MusicTime {
    /// Music times compare componentwise: equal measures, equal beat values.
    fn eq(&self, other: &MusicTime) -> (r: bool)
        ensures
            r == mt_eq(self@, other@),
    {
        self.0 == other.0 && self.1 == other.1
    }
}

impl vstd::std_specs::cmp::PartialEqSpecImpl for MusicTime {
    open spec fn obeys_eq_spec() -> bool {
        true
    }

    open spec fn eq_spec(&self, other: &MusicTime) -> bool {
        mt_eq(self@, other@)
    }
}

impl PartialOrd for MusicTime {
    /// Lexicographic: whole measures first, then the beat remainder.
    fn partial_cmp(&self, other: &MusicTime) -> (r: Option<core::cmp::Ordering>) {
        if self.0 < other.0 {
            Some(core::cmp::Ordering::Less)
        } else if self.0 > other.0 {
            Some(core::cmp::Ordering::Greater)
        } else {
            self.1.partial_cmp(&other.1)
        }
    }
}

impl vstd::std_specs::cmp::PartialOrdSpecImpl for MusicTime {
    open spec fn obeys_partial_cmp_spec() -> bool {
        true
    }

    open spec fn partial_cmp_spec(&self, other: &MusicTime) -> Option<core::cmp::Ordering> {
        if mt_lt(self@, other@) {
            Some(core::cmp::Ordering::Less)
        } else if mt_eq(self@, other@) {
            Some(core::cmp::Ordering::Equal)
        } else {
            Some(core::cmp::Ordering::Greater)
        }
    }
}

impl MusicTime {
    /// Exec comparison with the lexicographic order, for use in loops.
    pub fn lt(&self, other: &MusicTime) -> (r: bool)
        ensures
            r == mt_lt(self@, other@),
    {
        self.0 < other.0 || (self.0 == other.0 && self.1.lt(&other.1))
    }

    pub fn le(&self, other: &MusicTime) -> (r: bool)
        ensures
            r == mt_le(self@, other@),
    {
        self.0 < other.0 || (self.0 == other.0 && self.1.le(&other.1))
    }
}

} // verus!

verus! {

impl DeepView for MusicTime {
    type V = MtV;

    open spec fn deep_view(&self) -> MtV {
        self@
    }
}

impl DeepView for Beat {
    type V = FracV;

    open spec fn deep_view(&self) -> FracV {
        self@
    }
}

} // verus!
