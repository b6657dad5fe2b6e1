//! Integer statistics over fixed-point samples: sums, mean-scaled
//! deviations, Pearson correlation, and Bessel-corrected standard deviation.
//!
//! To stay in exact integer arithmetic, deviations from the mean are scaled
//! by the sample count `n`: the vector `n * x[i] - sum(x)` is `n` times the
//! deviation vector, and the shared factor cancels out of the correlation
//! and is divided back out of the variance.

use vstd::prelude::*;
use crate::FP;
use crate::math::{isqrt, div_floor};

verus! {

/// Sum of a sequence of integers.
pub open spec fn sum_int(s: Seq<int>) -> int
    decreases s.len(),
{
    if s.len() == 0 {
        0
    } else {
        sum_int(s.drop_last()) + s.last()
    }
}

/// Dot product of two sequences of the same length.
pub open spec fn dot_int(a: Seq<int>, b: Seq<int>) -> int
    decreases a.len(),
{
    if a.len() == 0 {
        0
    } else {
        dot_int(a.drop_last(), b.drop_last()) + a.last() * b.last()
    }
}

/// Deviations from the mean, scaled by the length: element `i` is
/// `len * s[i] - sum(s)`, which is `len` times the deviation of `s[i]`.
pub open spec fn scaled_devs(s: Seq<int>) -> Seq<int> {
    Seq::new(s.len(), |i: int| s.len() * s[i] - sum_int(s))
}

/// The integer square root: the unique `r` with `r * r <= x < (r+1)*(r+1)`.
pub open spec fn sqrt_nat(x: int) -> int {
    choose|r: int| 0 <= r && #[trigger] (r * r) <= x && x < (r + 1) * (r + 1)
}

/// Any `r` within the square-root bounds is `sqrt_nat(x)`.
pub proof fn lemma_sqrt_unique(x: int, r: int)
    requires
        0 <= r,
        r * r <= x,
        x < (r + 1) * (r + 1),
    ensures
        sqrt_nat(x) == r,
{
    let w = sqrt_nat(x);
    assert(0 <= w && w * w <= x < (w + 1) * (w + 1));
    if w < r {
        assert((w + 1) * (w + 1) <= r * r) by (nonlinear_arith)
            requires 0 <= w, w < r;
        assert(false);
    }
    if r < w {
        assert((r + 1) * (r + 1) <= w * w) by (nonlinear_arith)
            requires 0 <= r, r < w;
        assert(false);
    }
}

/// A dot product of a sequence with itself is non-negative.
pub proof fn lemma_dot_self_nonneg(a: Seq<int>)
    ensures
        dot_int(a, a) >= 0,
    decreases a.len(),
{
    if a.len() > 0 {
        lemma_dot_self_nonneg(a.drop_last());
        assert(a.last() * a.last() >= 0) by (nonlinear_arith);
    }
}

/// Appending one element adds it to the sum of the prefix.
pub proof fn lemma_sum_take_step(s: Seq<int>, i: int)
    requires
        0 <= i < s.len(),
    ensures
        sum_int(s.take(i + 1)) == sum_int(s.take(i)) + s[i],
{
    assert(s.take(i + 1).drop_last() =~= s.take(i));
}

/// Appending one element pair adds its product to the dot of the prefixes.
pub proof fn lemma_dot_take_step(a: Seq<int>, b: Seq<int>, i: int)
    requires
        0 <= i < a.len(),
        a.len() == b.len(),
    ensures
        dot_int(a.take(i + 1), b.take(i + 1))
            == dot_int(a.take(i), b.take(i)) + a[i] * b[i],
{
    assert(a.take(i + 1).drop_last() =~= a.take(i));
    assert(b.take(i + 1).drop_last() =~= b.take(i));
}

/// One accumulation step stays within the running and the absolute bound.
proof fn lemma_acc_step(i: int, bound: int, cap: int, acc: int, x: int)
    requires
        0 <= i <= 4095,
        0 <= bound <= cap,
        -(i * bound) <= acc <= i * bound,
        -bound <= x <= bound,
    ensures
        -((i + 1) * bound) <= acc + x <= (i + 1) * bound,
        -(4096 * cap) <= acc + x <= 4096 * cap,
{
    assert((i + 1) * bound == i * bound + bound
        && i * bound <= 4095 * cap
        && (i + 1) * bound <= 4096 * cap
        && -(4095 * cap) <= -(i * bound)) by (nonlinear_arith)
        requires 0 <= i <= 4095, 0 <= bound <= cap;
}

/// Largest sample magnitude the statistics functions accept; prices,
/// price movements and beliefs all fit well inside it.
pub const STAT_BOUND: i128 = 2_000_000_000_000;

/// Largest magnitude of a length-scaled deviation over samples within
/// [`STAT_BOUND`]: `2 * 4096 * STAT_BOUND`.
pub const DEV_BOUND: i128 = 16_384_000_000_000_000;

/// All elements within `b` in magnitude.
pub open spec fn bounded_by(s: Seq<i128>, b: int) -> bool {
    forall|i: int| 0 <= i < s.len() ==> -b <= #[trigger] s[i] <= b
}

/// View of a signed sample vector as a sequence of mathematical integers.
pub open spec fn view_int(v: Seq<i128>) -> Seq<int> {
    v.map_values(|x: i128| x as int)
}

/// Sum of a sample vector of magnitude at most `bound`.
pub fn sum_vec(v: &Vec<i128>, bound: i128) -> (s: i128)
    requires
        v@.len() <= 4096,
        0 <= bound <= STAT_BOUND,
        bounded_by(v@, bound as int),
    ensures
        s == sum_int(view_int(v@)),
        -((v@.len() as int) * bound) <= s <= (v@.len() as int) * bound,
{
    let ghost sq = view_int(v@);
    let mut acc: i128 = 0;
    let mut i: usize = 0;
    proof {
        assert(sq.take(0) =~= Seq::<int>::empty());
    }
    while i < v.len()
        invariant
            0 <= i <= v@.len(),
            v@.len() <= 4096,
            0 <= bound <= STAT_BOUND,
            sq == view_int(v@),
            sq.len() == v@.len(),
            bounded_by(v@, bound as int),
            acc == sum_int(sq.take(i as int)),
            -((i as int) * bound) <= acc <= (i as int) * bound,
        decreases v@.len() - i,
    {
        proof {
            lemma_sum_take_step(sq, i as int);
            assert(sq[i as int] == v@[i as int] as int);
            lemma_acc_step(i as int, bound as int, STAT_BOUND as int,
                acc as int, v@[i as int] as int);
        }
        acc = acc + v[i];
        i = i + 1;
    }
    proof {
        assert(sq.take(v@.len() as int) =~= sq);
    }
    acc
}

/// The length-scaled deviation vector `len * v[i] - sum(v)`.
pub fn scaled_devs_vec(v: &Vec<i128>, bound: i128) -> (d: Vec<i128>)
    requires
        v@.len() <= 4096,
        0 <= bound <= STAT_BOUND,
        bounded_by(v@, bound as int),
    ensures
        view_int(d@) =~= scaled_devs(view_int(v@)),
        d@.len() == v@.len(),
        bounded_by(d@, 8192 * bound as int),
{
    let ghost sq = view_int(v@);
    let n = v.len();
    let s = sum_vec(v, bound);
    let mut d: Vec<i128> = Vec::new();
    let mut i: usize = 0;
    while i < n
        invariant
            0 <= i <= n,
            n == v@.len() <= 4096,
            0 <= bound <= STAT_BOUND,
            sq == view_int(v@),
            sq.len() == n,
            bounded_by(v@, bound as int),
            s == sum_int(sq),
            -((n as int) * bound) <= s <= (n as int) * bound,
            d@.len() == i,
            forall|j: int| 0 <= j < i ==>
                #[trigger] d@[j] == (n as int) * sq[j] - s,
            forall|j: int| 0 <= j < i ==>
                -(8192 * bound as int) <= #[trigger] d@[j] <= 8192 * bound as int,
        decreases n - i,
    {
        proof {
            assert(sq[i as int] == v@[i as int] as int);
            assert(-(4096 * (bound as int)) <= (n as int) * sq[i as int]
                <= 4096 * (bound as int)
                && (n as int) * (bound as int) <= 4096 * (bound as int)
                && -(4096 * (bound as int)) <= -((n as int) * (bound as int)))
                by (nonlinear_arith)
                requires
                    0 < n <= 4096,
                    0 <= bound <= STAT_BOUND,
                    sq[i as int] == v@[i as int] as int,
                    -bound <= v@[i as int] <= bound;
        }
        let e: i128 = (n as i128) * v[i] - s;
        d.push(e);
        i = i + 1;
    }
    proof {
        assert(view_int(d@) =~= scaled_devs(view_int(v@))) by {
            assert(forall|j: int| 0 <= j < n ==>
                #[trigger] view_int(d@)[j] == d@[j] as int);
        }
    }
    d
}

/// Dot product of two sample vectors with per-side magnitude bounds.
pub fn dot_vec(a: &Vec<i128>, b: &Vec<i128>, ba: i128, bb: i128) -> (r: i128)
    requires
        a@.len() == b@.len() <= 4096,
        0 <= ba <= DEV_BOUND,
        0 <= bb <= DEV_BOUND,
        bounded_by(a@, ba as int),
        bounded_by(b@, bb as int),
    ensures
        r == dot_int(view_int(a@), view_int(b@)),
        -((a@.len() as int) * (ba as int) * (bb as int))
            <= r <= (a@.len() as int) * (ba as int) * (bb as int),
{
    let ghost sa = view_int(a@);
    let ghost sb = view_int(b@);
    let ghost p: int = (ba as int) * (bb as int);
    proof {
        assert(sa.take(0) =~= Seq::<int>::empty());
        assert(sb.take(0) =~= Seq::<int>::empty());
        assert(0 <= p <= DEV_BOUND * DEV_BOUND) by (nonlinear_arith)
            requires 0 <= ba <= DEV_BOUND, 0 <= bb <= DEV_BOUND,
                p == (ba as int) * (bb as int);
    }
    let mut acc: i128 = 0;
    let mut i: usize = 0;
    while i < a.len()
        invariant
            0 <= i <= a@.len(),
            a@.len() == b@.len() <= 4096,
            0 <= ba <= DEV_BOUND,
            0 <= bb <= DEV_BOUND,
            sa == view_int(a@),
            sb == view_int(b@),
            sa.len() == a@.len(),
            sb.len() == b@.len(),
            bounded_by(a@, ba as int),
            bounded_by(b@, bb as int),
            p == (ba as int) * (bb as int),
            0 <= p <= DEV_BOUND * DEV_BOUND,
            acc == dot_int(sa.take(i as int), sb.take(i as int)),
            -((i as int) * p) <= acc <= (i as int) * p,
        decreases a@.len() - i,
    {
        proof {
            lemma_dot_take_step(sa, sb, i as int);
            assert(sa[i as int] == a@[i as int] as int);
            assert(sb[i as int] == b@[i as int] as int);
            assert(-p <= a@[i as int] * b@[i as int] <= p) by (nonlinear_arith)
                requires
                    -ba <= a@[i as int] <= ba,
                    -bb <= b@[i as int] <= bb,
                    0 <= ba,
                    0 <= bb,
                    p == (ba as int) * (bb as int);
            lemma_acc_step(i as int, p, (DEV_BOUND as int) * (DEV_BOUND as int),
                acc as int, a@[i as int] * b@[i as int]);
        }
        acc = acc + a[i] * b[i];
        i = i + 1;
    }
    proof {
        assert(sa.take(a@.len() as int) =~= sa);
        assert(sb.take(b@.len() as int) =~= sb);
        assert((a@.len() as int) * (ba as int) * (bb as int) == (a@.len() as int) * p
            && -((a@.len() as int) * (ba as int) * (bb as int))
                == -((a@.len() as int) * p)) by (nonlinear_arith)
            requires p == (ba as int) * (bb as int);
    }
    acc
}

/// The Pearson correlation of two sample vectors, in fixed-point units:
/// `dot(X, Y) * FP / (sqrt(dot(X, X)) * sqrt(dot(Y, Y)))` over the
/// length-scaled deviation vectors `X` and `Y`.
pub open spec fn pearson_spec(xs: Seq<int>, ys: Seq<int>) -> int {
    let dx = scaled_devs(xs);
    let dy = scaled_devs(ys);
    dot_int(dx, dy) * FP / (sqrt_nat(dot_int(dx, dx)) * sqrt_nat(dot_int(dy, dy)))
}

/// Whether a sample vector has zero variance (all elements equal the mean).
pub open spec fn zero_variance(xs: Seq<int>) -> bool {
    dot_int(scaled_devs(xs), scaled_devs(xs)) == 0
}

/// Pearson correlation in fixed-point units, or `None` when either sample
/// vector has zero variance (the correlation is undefined there). The
/// second vector must hold fixed-point values in `[-FP, FP]`, as belief
/// snapshots do.
pub fn pearson_fp(xs: &Vec<i128>, ys: &Vec<i128>) -> (r: Option<i128>)
    requires
        xs@.len() == ys@.len(),
        2 <= xs@.len() <= 4096,
        bounded_by(xs@, STAT_BOUND as int),
        bounded_by(ys@, FP as int),
    ensures
        r is None <==> zero_variance(view_int(xs@)) || zero_variance(view_int(ys@)),
        r is Some ==> r->0 == pearson_spec(view_int(xs@), view_int(ys@)),
{
    let dx = scaled_devs_vec(xs, STAT_BOUND);
    let dy = scaled_devs_vec(ys, FP as i128);
    let sxx = dot_vec(&dx, &dx, DEV_BOUND, DEV_BOUND);
    let syy = dot_vec(&dy, &dy, 8192 * (FP as i128), 8192 * (FP as i128));
    let sxy = dot_vec(&dx, &dy, DEV_BOUND, 8192 * (FP as i128));
    proof {
        lemma_dot_self_nonneg(view_int(dx@));
        lemma_dot_self_nonneg(view_int(dy@));
    }
    if sxx == 0 || syy == 0 {
        return None;
    }
    let rx = isqrt(sxx as u128);
    let ry = isqrt(syy as u128);
    proof {
        lemma_sqrt_unique(sxx as int, rx as int);
        lemma_sqrt_unique(syy as int, ry as int);
        assert(rx >= 1 && ry >= 1) by (nonlinear_arith)
            requires
                (rx as int) * (rx as int) <= sxx as int,
                (ry as int) * (ry as int) <= syy as int,
                (sxx as int) < ((rx as int + 1) * (rx as int + 1)),
                (syy as int) < ((ry as int + 1) * (ry as int + 1)),
                sxx >= 1,
                syy >= 1,
                rx >= 0,
                ry >= 0;
        assert((rx as int) * (rx as int) <= sxx as int);
        assert((rx as int) <= 0x8000_0000_0000_0000int) by (nonlinear_arith)
            requires
                rx >= 0,
                (rx as int) * (rx as int) <= 0x4000_0000_0000_0000_0000_0000_0000_0000int;
        assert((ry as int) * (ry as int) <= syy as int);
        assert((ry as int) <= 0x8000_0000_0000_0000int) by (nonlinear_arith)
            requires
                ry >= 0,
                (ry as int) * (ry as int) <= 0x4000_0000_0000_0000_0000_0000_0000_0000int;
        assert((rx as int) * (ry as int) <= 0x4000_0000_0000_0000_0000_0000_0000_0000int)
            by (nonlinear_arith)
            requires
                0 <= rx as int <= 0x8000_0000_0000_0000int,
                0 <= ry as int <= 0x8000_0000_0000_0000int;
        assert((rx as int) * (ry as int) >= 1) by (nonlinear_arith)
            requires rx >= 1, ry >= 1;
        assert(-0x1000_0000_0000_0000_0000_0000_0000_0000int <= sxy * FP
            <= 0x1000_0000_0000_0000_0000_0000_0000_0000int) by (nonlinear_arith)
            requires
                -((dx@.len() as int) * (DEV_BOUND as int) * ((8192 * (FP as i128)) as int))
                    <= sxy,
                sxy <= (dx@.len() as int) * (DEV_BOUND as int) * ((8192 * (FP as i128)) as int),
                dx@.len() <= 4096;
    }
    let denom: i128 = (rx as i128) * (ry as i128);
    let num: i128 = sxy * (FP as i128);
    Some(div_floor(num, denom))
}

/// Bessel-corrected sample standard deviation in the input's own units:
/// the square root of `dot(D, D) / (n * n * (n - 1))` over the
/// length-scaled deviation vector `D` (the `n * n` undoes the scaling).
pub open spec fn stddev_spec(s: Seq<int>) -> int {
    let d = scaled_devs(s);
    let n = s.len() as int;
    sqrt_nat(dot_int(d, d) / (n * n * (n - 1)))
}

/// Bessel-corrected sample standard deviation of a sample vector.
pub fn stddev_fp(v: &Vec<i128>, bound: i128) -> (r: u64)
    requires
        2 <= v@.len() <= 4096,
        0 <= bound <= STAT_BOUND,
        bounded_by(v@, bound as int),
    ensures
        r == stddev_spec(view_int(v@)),
{
    let d = scaled_devs_vec(v, bound);
    let dd = dot_vec(&d, &d, DEV_BOUND, DEV_BOUND);
    proof {
        lemma_dot_self_nonneg(view_int(d@));
    }
    let n = v.len();
    proof {
        assert((n as int) * (n as int) <= 16_777_216
            && ((n as int) * (n as int)) * ((n as int) - 1) <= 68_719_476_736int
            && 4 <= ((n as int) * (n as int)) * ((n as int) - 1)) by (nonlinear_arith)
            requires 2 <= n <= 4096;
    }
    let scale: u128 = (n as u128) * (n as u128) * ((n - 1) as u128);

    let q: u128 = (dd as u128) / scale;
    let r = isqrt(q);
    proof {
        lemma_sqrt_unique(q as int, r as int);
    }
    r
}

} // verus!
