//! Subframes: one channel of a frame, stored as a constant, verbatim, or as
//! warm-up samples followed by the residuals of a fixed or linear predictor.
use vstd::prelude::*;

use crate::bits::{
    bit_len, bits_value, lemma_bits_value_bound, lemma_pow2_monotonic, lemma_pow2_positive, pow2,
    pow2_u64, sign_extend, BitReader,
};
use crate::error::FlacError;
use crate::residual::{in_range, read_residual, read_signed_run, residual_spec, signed_fields, unary_len};

verus! {

#[derive(Debug, Clone, Copy, PartialEq, Eq, Structural)]
pub enum SubframeType {
    Constant,
    Verbatim,
    Fixed,
    LPC,
}

/// The kind and predictor order that a 6-bit type code stands for.
pub open spec fn subframe_type_of(code: nat) -> Option<(SubframeType, nat)> {
    if code == 0 {
        Some((SubframeType::Constant, 0))
    } else if code == 1 {
        Some((SubframeType::Verbatim, 0))
    } else if 8 <= code <= 12 {
        Some((SubframeType::Fixed, (code - 8) as nat))
    } else if 32 <= code <= 63 {
        Some((SubframeType::LPC, (code - 31) as nat))
    } else {
        None
    }
}

/// A subframe header at `pos`: its kind, predictor order, wasted bits, and the
/// position after it.
pub open spec fn subframe_header_spec(data: Seq<u8>, pos: int) -> Result<
    (SubframeType, nat, nat, int),
    FlacError,
> {
    if pos + 8 > bit_len(data) {
        Err(FlacError::UnexpectedEnd)
    } else if bits_value(data, pos, 1) != 0 {
        Err(FlacError::ReservedCodeUsed)
    } else {
        match subframe_type_of(bits_value(data, pos + 1, 6)) {
            None => Err(FlacError::ReservedCodeUsed),
            Some((t, order)) => if bits_value(data, pos + 7, 1) == 0 {
                Ok((t, order, 0, pos + 8))
            } else {
                match unary_len(data, pos + 8) {
                    None => Err(FlacError::UnexpectedEnd),
                    Some(k) => Ok((t, order, k + 1, pos + 8 + k + 1)),
                }
            },
        }
    }
}

/// The fixed polynomial predictor of the given order for sample `i`.
pub open spec fn fixed_prediction(order: nat, s: Seq<i64>, i: int) -> int {
    if order == 0 {
        0
    } else if order == 1 {
        s[i - 1] as int
    } else if order == 2 {
        2 * s[i - 1] - s[i - 2]
    } else if order == 3 {
        3 * s[i - 1] - 3 * s[i - 2] + s[i - 3]
    } else {
        4 * s[i - 1] - 6 * s[i - 2] + 4 * s[i - 3] - s[i - 4]
    }
}

/// `coefs[0] * s[i - 1] + ... + coefs[k - 1] * s[i - k]`.
pub open spec fn lpc_sum(coefs: Seq<i64>, s: Seq<i64>, i: int, k: nat) -> int
    decreases k,
{
    if k == 0 {
        0
    } else {
        lpc_sum(coefs, s, i, (k - 1) as nat) + coefs[k - 1] * s[i - k]
    }
}

/// The prediction for sample `i`: the fixed predictor of `order`, or the linear
/// predictor `coefs` with the sum shifted right (rounding down) by `shift`.
pub open spec fn prediction(
    lpc: bool,
    order: nat,
    coefs: Seq<i64>,
    shift: nat,
    s: Seq<i64>,
    i: int,
) -> int {
    if lpc {
        lpc_sum(coefs, s, i, coefs.len()) / (pow2(shift) as int)
    } else {
        fixed_prediction(order, s, i)
    }
}

/// The warm-up samples followed by the first `k` predicted samples, each the
/// prediction plus its residual.
pub open spec fn restore_spec(
    lpc: bool,
    order: nat,
    coefs: Seq<i64>,
    shift: nat,
    warm: Seq<i64>,
    res: Seq<i64>,
    k: nat,
) -> Result<Seq<i64>, FlacError>
    decreases k,
{
    if k == 0 {
        Ok(warm)
    } else {
        match restore_spec(lpc, order, coefs, shift, warm, res, (k - 1) as nat) {
            Err(e) => Err(e),
            Ok(s) => {
                let x = prediction(lpc, order, coefs, shift, s, s.len() as int) + res[k - 1];
                if in_range(x) {
                    Ok(s.push(x as i64))
                } else {
                    Err(FlacError::SampleOverflow)
                }
            },
        }
    }
}

/// The samples with `w` zero bits put back at the bottom of each.
pub open spec fn apply_wasted(s: Seq<i64>, w: nat) -> Result<Seq<i64>, FlacError> {
    if forall|i: int| 0 <= i < s.len() ==> in_range(#[trigger] s[i] * pow2(w)) {
        Ok(Seq::new(s.len(), |i: int| (s[i] * pow2(w)) as i64))
    } else {
        Err(FlacError::SampleOverflow)
    }
}

pub open spec fn all_in_range(s: Seq<i64>) -> bool {
    forall|i: int| 0 <= i < s.len() ==> in_range(#[trigger] s[i] as int)
}

proof fn lemma_sign_extend_range(u: nat, n: nat)
    requires
        u < pow2(n),
        1 <= n <= 33,
    ensures
        -pow2((n - 1) as nat) <= sign_extend(u, n) < pow2((n - 1) as nat),
        in_range(sign_extend(u, n)),
{
    assert(pow2(n) == 2 * pow2((n - 1) as nat));
    lemma_pow2_monotonic((n - 1) as nat, 32);
    assert(pow2(32) == 0x1_0000_0000) by {
        reveal_with_fuel(pow2, 33);
    }
}

proof fn lemma_signed_fields_range(data: Seq<u8>, pos: int, w: nat, n: nat)
    requires
        w <= 33,
    ensures
        all_in_range(signed_fields(data, pos, w, n)),
        signed_fields(data, pos, w, n).len() == n,
{
    assert forall|i: int| 0 <= i < n implies in_range(
        #[trigger] signed_fields(data, pos, w, n)[i] as int,
    ) by {
        lemma_bits_value_bound(data, pos + i * w, w);
        if w >= 1 {
            lemma_sign_extend_range(bits_value(data, pos + i * w, w), w);
        } else {
            assert(pow2(0) == 1);
        }
    }
}

proof fn lemma_floor_div_neg(m: int, d: int)
    requires
        m > 0,
        d > 0,
    ensures
        (-m) / d == -((m + d - 1) / d),
{
    let q = (m + d - 1) / d;
    let rr = (m + d - 1) % d;
    vstd::arithmetic::div_mod::lemma_fundamental_div_mod(m + d - 1, d);
    assert(-m == (-q) * d + (d - 1 - rr)) by (nonlinear_arith)
        requires
            m + d - 1 == d * q + rr,
    ;
    vstd::arithmetic::div_mod::lemma_fundamental_div_mod_converse(-m, d, -q, d - 1 - rr);
}

/// The fixed predictor of `order` for the sample after the last of `s`.
fn fixed_predict(order: u32, s: &Vec<i64>) -> (r: i64)
    requires
        order <= 4,
        s.len() >= order,
        all_in_range(s@),
    ensures
        r == fixed_prediction(order as nat, s@, s@.len() as int),
        -0x10_0000_0000 <= r <= 0x10_0000_0000,
{
    let n = s.len();
    if order == 0 {
        0
    } else {
        let a = s[n - 1];
        assert(in_range(s@[n - 1] as int));
        if order == 1 {
            a
        } else {
            let b = s[n - 2];
            assert(in_range(s@[n - 2] as int));
            if order == 2 {
                2 * a - b
            } else {
                let c = s[n - 3];
                assert(in_range(s@[n - 3] as int));
                if order == 3 {
                    3 * a - 3 * b + c
                } else {
                    let d = s[n - 4];
                    assert(in_range(s@[n - 4] as int));
                    4 * a - 6 * b + 4 * c - d
                }
            }
        }
    }
}

/// The linear predictor `coefs`, shifted right by `shift`, for the sample after the last of `s`.
fn lpc_predict(coefs: &Vec<i64>, shift: u32, s: &Vec<i64>) -> (r: i64)
    requires
        coefs.len() <= 32,
        s.len() >= coefs.len(),
        shift <= 15,
        all_in_range(s@),
        forall|j: int| 0 <= j < coefs.len() ==> -0x8000 <= #[trigger] coefs@[j] <= 0x8000,
    ensures
        r == lpc_sum(coefs@, s@, s@.len() as int, coefs@.len()) / (pow2(shift as nat) as int),
        -0x10_0000_0000_0000 <= r <= 0x10_0000_0000_0000,
{
    let n = s.len();
    let mut acc: i64 = 0;
    let mut j: usize = 0;
    while j < coefs.len()
        invariant
            coefs.len() <= 32,
            s.len() == n >= coefs.len(),
            all_in_range(s@),
            forall|i: int| 0 <= i < coefs.len() ==> -0x8000 <= #[trigger] coefs@[i] <= 0x8000,
            j <= coefs.len(),
            acc == lpc_sum(coefs@, s@, n as int, j as nat),
            -(j as int) * 0x8000_0000_0000 <= acc <= (j as int) * 0x8000_0000_0000,
        decreases coefs.len() - j,
    {
        let c = coefs[j];
        let x = s[n - 1 - j];
        assert(in_range(s@[n - 1 - j] as int));
        assert(-0x8000 <= c <= 0x8000);
        assert(-0x8000_0000_0000 <= c * x <= 0x8000_0000_0000) by (nonlinear_arith)
            requires
                -0x8000 <= c <= 0x8000,
                -0x1_0000_0000 <= x < 0x1_0000_0000,
        ;
        acc = acc + c * x;
        j = j + 1;
    }
    let d = pow2_u64(shift);
    proof {
        lemma_pow2_positive(shift as nat);
        lemma_pow2_monotonic(shift as nat, 15);
        assert(pow2(15) == 0x8000) by {
            reveal_with_fuel(pow2, 16);
        }
    }
    if acc >= 0 {
        proof {
            assert((acc as int) / (d as int) <= acc) by (nonlinear_arith)
                requires
                    acc >= 0,
                    d >= 1,
            ;
        }
        ((acc as u64) / d) as i64
    } else {
        let m = (-acc) as u64;
        proof {
            lemma_floor_div_neg(m as int, d as int);
            assert((m + d - 1) / (d as int) <= m) by (nonlinear_arith)
                requires
                    m >= 1,
                    d >= 1,
            ;
        }
        -(((m + d - 1) / d) as i64)
    }
}

proof fn lemma_restore_err(
    lpc: bool,
    order: nat,
    coefs: Seq<i64>,
    shift: nat,
    warm: Seq<i64>,
    res: Seq<i64>,
    i: nat,
    n: nat,
)
    requires
        i <= n,
        restore_spec(lpc, order, coefs, shift, warm, res, i) is Err,
    ensures
        restore_spec(lpc, order, coefs, shift, warm, res, n) == restore_spec(
            lpc,
            order,
            coefs,
            shift,
            warm,
            res,
            i,
        ),
    decreases n - i,
{
    if i < n {
        lemma_restore_err(lpc, order, coefs, shift, warm, res, i, (n - 1) as nat);
    }
}

/// Appends to the warm-up samples one predicted sample per residual.
fn restore(
    lpc: bool,
    order: u32,
    coefs: &Vec<i64>,
    shift: u32,
    warm: Vec<i64>,
    res: &Vec<i64>,
) -> (r: Result<Vec<i64>, FlacError>)
    requires
        order <= 32,
        !lpc ==> order <= 4,
        lpc ==> coefs.len() == order,
        forall|j: int| 0 <= j < coefs.len() ==> -0x8000 <= #[trigger] coefs@[j] <= 0x8000,
        shift <= 15,
        warm.len() == order,
        all_in_range(warm@),
    ensures
        match restore_spec(
            lpc,
            order as nat,
            coefs@,
            shift as nat,
            warm@,
            res@,
            res@.len(),
        ) {
            Ok(s) => r is Ok && r->Ok_0@ == s,
            Err(e) => r == Err::<Vec<i64>, FlacError>(e),
        },
        r is Ok ==> all_in_range(r->Ok_0@) && r->Ok_0@.len() == order + res@.len(),
{
    let mut s = warm;
    let mut k: usize = 0;
    while k < res.len()
        invariant
            order <= 32,
            !lpc ==> order <= 4,
            lpc ==> coefs.len() == order,
            forall|j: int| 0 <= j < coefs.len() ==> -0x8000 <= #[trigger] coefs@[j] <= 0x8000,
            shift <= 15,
            k <= res.len(),
            s.len() == order + k,
            all_in_range(s@),
            restore_spec(lpc, order as nat, coefs@, shift as nat, warm@, res@, k as nat) == Ok::<
                Seq<i64>,
                FlacError,
            >(s@),
        decreases res.len() - k,
    {
        let pred: i64 = if lpc {
            lpc_predict(coefs, shift, &s)
        } else {
            fixed_predict(order, &s)
        };
        let x: i128 = pred as i128 + res[k] as i128;
        if x < -0x1_0000_0000 || x >= 0x1_0000_0000 {
            proof {
                lemma_restore_err(
                    lpc,
                    order as nat,
                    coefs@,
                    shift as nat,
                    warm@,
                    res@,
                    (k + 1) as nat,
                    res@.len(),
                );
            }
            return Err(FlacError::SampleOverflow);
        }
        s.push(x as i64);
        proof {
            assert(all_in_range(s@)) by {
                assert forall|i: int| 0 <= i < s@.len() implies in_range(#[trigger] s@[i] as int) by {
                    if i < s@.len() - 1 {
                        assert(s@[i] == s@.drop_last()[i]);
                    }
                }
            }
        }
        k = k + 1;
    }
    Ok(s)
}

/// Shifts every sample left by `w` bits.
fn put_wasted(s: Vec<i64>, w: u32) -> (r: Result<Vec<i64>, FlacError>)
    requires
        all_in_range(s@),
        w <= 33,
    ensures
        match apply_wasted(s@, w as nat) {
            Ok(t) => r is Ok && r->Ok_0@ == t,
            Err(e) => r == Err::<Vec<i64>, FlacError>(e),
        },
        r is Ok ==> all_in_range(r->Ok_0@) && r->Ok_0@.len() == s@.len(),
{
    let p = pow2_u64(w);
    proof {
        lemma_pow2_monotonic(w as nat, 33);
        assert(pow2(33) == 0x2_0000_0000) by {
            reveal_with_fuel(pow2, 34);
        }
    }
    let mut out: Vec<i64> = Vec::new();
    let mut i: usize = 0;
    while i < s.len()
        invariant
            all_in_range(s@),
            p == pow2(w as nat),
            p <= 0x2_0000_0000,
            i <= s.len(),
            out@.len() == i,
            forall|j: int| 0 <= j < i ==> in_range(#[trigger] s@[j] * pow2(w as nat)),
            forall|j: int| 0 <= j < i ==> out@[j] == (s@[j] * pow2(w as nat)) as i64,
        decreases s.len() - i,
    {
        let v = s[i];
        assert(in_range(s@[i as int] as int));
        assert(-0x2_0000_0000_0000_0000 <= v * p <= 0x2_0000_0000_0000_0000) by (nonlinear_arith)
            requires
                -0x1_0000_0000 <= v < 0x1_0000_0000,
                0 <= p <= 0x2_0000_0000,
        ;
        let x: i128 = v as i128 * p as i128;
        if x < -0x1_0000_0000 || x >= 0x1_0000_0000 {
            proof {
                assert(!in_range(s@[i as int] * pow2(w as nat)));
            }
            return Err(FlacError::SampleOverflow);
        }
        out.push(x as i64);
        i = i + 1;
    }
    proof {
        assert(out@ =~= Seq::new(s@.len(), |j: int| (s@[j] * pow2(w as nat)) as i64));
    }
    Ok(out)
}

/// The residuals an encoder stores for samples `s` after `order` warm-up
/// samples: each sample less its prediction from the samples before it.
pub open spec fn residuals_of(lpc: bool, order: nat, coefs: Seq<i64>, shift: nat, s: Seq<i64>) -> Seq<
    i64,
> {
    Seq::new(
        (s.len() - order) as nat,
        |k: int|
            (s[order + k] - prediction(lpc, order, coefs, shift, s.subrange(0, order + k), order + k))
                as i64,
    )
}

proof fn lemma_lpc_sum_bound(coefs: Seq<i64>, s: Seq<i64>, i: int, k: nat)
    requires
        k <= coefs.len(),
        k <= i <= s.len(),
        all_in_range(s),
        forall|j: int| 0 <= j < coefs.len() ==> -0x8000 <= #[trigger] coefs[j] <= 0x8000,
    ensures
        -(k as int) * 0x8000_0000_0000 <= lpc_sum(coefs, s, i, k) <= (k as int) * 0x8000_0000_0000,
    decreases k,
{
    if k > 0 {
        lemma_lpc_sum_bound(coefs, s, i, (k - 1) as nat);
        let c = coefs[k - 1];
        let x = s[i - k];
        assert(in_range(s[i - k] as int));
        assert(-0x8000_0000_0000 <= c * x <= 0x8000_0000_0000) by (nonlinear_arith)
            requires
                -0x8000 <= c <= 0x8000,
                -0x1_0000_0000 <= x < 0x1_0000_0000,
        ;
    }
}

/// Prediction is lossless: restoring the residuals that an encoder computes
/// for samples `s`, from its first `order` samples, gives back `s` exactly,
/// with either the fixed predictor of `order` or the linear predictor `coefs`.
pub proof fn lemma_prediction_round_trip(
    lpc: bool,
    order: nat,
    coefs: Seq<i64>,
    shift: nat,
    s: Seq<i64>,
)
    requires
        order <= s.len(),
        all_in_range(s),
        !lpc ==> order <= 4,
        lpc ==> coefs.len() == order && order <= 32,
        forall|j: int| 0 <= j < coefs.len() ==> -0x8000 <= #[trigger] coefs[j] <= 0x8000,
    ensures
        restore_spec(
            lpc,
            order,
            coefs,
            shift,
            s.subrange(0, order as int),
            residuals_of(lpc, order, coefs, shift, s),
            (s.len() - order) as nat,
        ) == Ok::<Seq<i64>, FlacError>(s),
{
    lemma_restore_prefix(lpc, order, coefs, shift, s, (s.len() - order) as nat);
    assert(s.subrange(0, s.len() as int) =~= s);
}

proof fn lemma_restore_prefix(
    lpc: bool,
    order: nat,
    coefs: Seq<i64>,
    shift: nat,
    s: Seq<i64>,
    k: nat,
)
    requires
        order + k <= s.len(),
        all_in_range(s),
        !lpc ==> order <= 4,
        lpc ==> coefs.len() == order && order <= 32,
        forall|j: int| 0 <= j < coefs.len() ==> -0x8000 <= #[trigger] coefs[j] <= 0x8000,
    ensures
        restore_spec(
            lpc,
            order,
            coefs,
            shift,
            s.subrange(0, order as int),
            residuals_of(lpc, order, coefs, shift, s),
            k,
        ) == Ok::<Seq<i64>, FlacError>(s.subrange(0, (order + k) as int)),
    decreases k,
{
    if k > 0 {
        let km = (k - 1) as nat;
        lemma_restore_prefix(lpc, order, coefs, shift, s, km);
        let i = (order + km) as int;
        let t = s.subrange(0, i);
        let p = prediction(lpc, order, coefs, shift, t, i);
        assert(all_in_range(t)) by {
            assert forall|j: int| 0 <= j < t.len() implies in_range(#[trigger] t[j] as int) by {
                assert(t[j] == s[j]);
            }
        }
        if lpc {
            lemma_lpc_sum_bound(coefs, t, i, coefs.len());
            lemma_pow2_positive(shift);
            let sum = lpc_sum(coefs, t, i, coefs.len());
            let d = pow2(shift) as int;
            assert(-0x10_0000_0000_0000 <= sum / d <= 0x10_0000_0000_0000) by (nonlinear_arith)
                requires
                    -0x10_0000_0000_0000 <= sum <= 0x10_0000_0000_0000,
                    d >= 1,
            ;
        } else {
            assert((i >= 1 ==> in_range(t[i - 1] as int)) && (i >= 2 ==> in_range(t[i - 2] as int))
                && (i >= 3 ==> in_range(t[i - 3] as int)) && (i >= 4 ==> in_range(t[i - 4] as int)));
        }
        let res = residuals_of(lpc, order, coefs, shift, s);
        assert(res[km as int] == (s[i] - p) as i64);
        assert(in_range(s[i] as int));
        assert(s.subrange(0, (order + k) as int) =~= t.push(s[i]));
    }
}

/// The samples of a subframe body at `pos` of kind `t`, with `w`-bit samples
/// and `bs` samples in all, and the position after it.
pub open spec fn subframe_body_spec(
    data: Seq<u8>,
    pos: int,
    t: SubframeType,
    order: nat,
    w: nat,
    bs: nat,
) -> Result<(Seq<i64>, int), FlacError> {
    match t {
        SubframeType::Constant => if pos + w > bit_len(data) {
            Err(FlacError::UnexpectedEnd)
        } else {
            Ok(
                (
                    Seq::new(bs, |i: int| sign_extend(bits_value(data, pos, w), w) as i64),
                    pos + w,
                ),
            )
        },
        SubframeType::Verbatim => if pos + bs * w > bit_len(data) {
            Err(FlacError::UnexpectedEnd)
        } else {
            Ok((signed_fields(data, pos, w, bs), pos + bs * w))
        },
        SubframeType::Fixed => if pos + order * w > bit_len(data) {
            Err(FlacError::UnexpectedEnd)
        } else {
            let warm = signed_fields(data, pos, w, order);
            match residual_spec(data, pos + order * w, bs, order) {
                Err(e) => Err(e),
                Ok((res, end)) => match restore_spec(false, order, seq![], 0, warm, res, res.len()) {
                    Err(e) => Err(e),
                    Ok(s) => Ok((s, end)),
                },
            }
        },
        SubframeType::LPC => {
            let q = pos + order * w;
            if q + 9 > bit_len(data) {
                Err(FlacError::UnexpectedEnd)
            } else {
                let warm = signed_fields(data, pos, w, order);
                let precision = bits_value(data, q, 4) + 1;
                let shift = sign_extend(bits_value(data, q + 4, 5), 5);
                if shift < 0 {
                    Err(FlacError::InvalidShift)
                } else if q + 9 + order * precision > bit_len(data) {
                    Err(FlacError::UnexpectedEnd)
                } else {
                    let coefs = signed_fields(data, q + 9, precision, order);
                    match residual_spec(data, q + 9 + order * precision, bs, order) {
                        Err(e) => Err(e),
                        Ok((res, end)) => match restore_spec(
                            true,
                            order,
                            coefs,
                            shift as nat,
                            warm,
                            res,
                            res.len(),
                        ) {
                            Err(e) => Err(e),
                            Ok(s) => Ok((s, end)),
                        },
                    }
                }
            }
        },
    }
}

/// A whole subframe at `pos` for samples of `width` bits: its kind, predictor
/// order, wasted bits, samples, and the position after it.
#[verifier::opaque]
pub open spec fn subframe_spec(data: Seq<u8>, pos: int, width: nat, bs: nat) -> Result<
    (SubframeType, nat, nat, Seq<i64>, int),
    FlacError,
> {
    match subframe_header_spec(data, pos) {
        Err(e) => Err(e),
        Ok((t, order, wasted, p)) => if wasted > width {
            Err(FlacError::InvalidWastedBits)
        } else {
            match subframe_body_spec(data, p, t, order, (width - wasted) as nat, bs) {
                Err(e) => Err(e),
                Ok((s, end)) => match apply_wasted(s, wasted) {
                    Err(e) => Err(e),
                    Ok(s2) => Ok((t, order, wasted, s2, end)),
                },
            }
        },
    }
}

/// Decoding a fixed-predictor subframe gives back the samples it was encoded
/// from: where the header at `pos` selects the predictor of `order` with no
/// wasted bits, the warm-up fields hold the first `order` samples, and the
/// residual section holds the encoder's residuals, the subframe decodes to `s`.
pub proof fn lemma_fixed_subframe_round_trip(
    data: Seq<u8>,
    pos: int,
    width: nat,
    order: nat,
    s: Seq<i64>,
    end: int,
)
    requires
        order <= 4,
        order <= s.len(),
        width <= 33,
        all_in_range(s),
        subframe_header_spec(data, pos) == Ok::<(SubframeType, nat, nat, int), FlacError>(
            (SubframeType::Fixed, order, 0, pos + 8),
        ),
        pos + 8 + order * width <= bit_len(data),
        signed_fields(data, pos + 8, width, order) == s.subrange(0, order as int),
        residual_spec(data, pos + 8 + order * width, s.len(), order) == Ok::<
            (Seq<i64>, int),
            FlacError,
        >((residuals_of(false, order, seq![], 0, s), end)),
    ensures
        subframe_spec(data, pos, width, s.len()) == Ok::<
            (SubframeType, nat, nat, Seq<i64>, int),
            FlacError,
        >((SubframeType::Fixed, order, 0, s, end)),
{
    reveal(subframe_spec);
    lemma_prediction_round_trip(false, order, seq![], 0, s);
    lemma_no_wasted(s);
}

/// Decoding an LPC subframe gives back the samples it was encoded from: where
/// the header at `pos` selects order `order` with no wasted bits, the warm-up
/// fields hold the first samples, the precision, shift and coefficient fields
/// hold `coefs` and `shift`, and the residual section holds the encoder's
/// residuals, the subframe decodes to `s`.
pub proof fn lemma_lpc_subframe_round_trip(
    data: Seq<u8>,
    pos: int,
    width: nat,
    s: Seq<i64>,
    coefs: Seq<i64>,
    precision: nat,
    shift: nat,
    end: int,
)
    requires
        1 <= coefs.len() <= 32,
        coefs.len() <= s.len(),
        1 <= precision <= 16,
        width <= 33,
        all_in_range(s),
        subframe_header_spec(data, pos) == Ok::<(SubframeType, nat, nat, int), FlacError>(
            (SubframeType::LPC, coefs.len(), 0, pos + 8),
        ),
        pos + 8 + coefs.len() * width + 9 + coefs.len() * precision <= bit_len(data),
        signed_fields(data, pos + 8, width, coefs.len()) == s.subrange(0, coefs.len() as int),
        bits_value(data, pos + 8 + coefs.len() * width, 4) + 1 == precision,
        sign_extend(bits_value(data, pos + 8 + coefs.len() * width + 4, 5), 5) == shift,
        signed_fields(data, pos + 8 + coefs.len() * width + 9, precision, coefs.len()) == coefs,
        residual_spec(
            data,
            pos + 8 + coefs.len() * width + 9 + coefs.len() * precision,
            s.len(),
            coefs.len(),
        ) == Ok::<(Seq<i64>, int), FlacError>(
            (residuals_of(true, coefs.len(), coefs, shift, s), end),
        ),
    ensures
        subframe_spec(data, pos, width, s.len()) == Ok::<
            (SubframeType, nat, nat, Seq<i64>, int),
            FlacError,
        >((SubframeType::LPC, coefs.len(), 0, s, end)),
{
    reveal(subframe_spec);
    lemma_coefs_bound(data, pos + 8 + coefs.len() * width + 9, precision, coefs.len());
    lemma_prediction_round_trip(true, coefs.len(), coefs, shift, s);
    lemma_no_wasted(s);
}

proof fn lemma_no_wasted(s: Seq<i64>)
    requires
        all_in_range(s),
    ensures
        apply_wasted(s, 0) == Ok::<Seq<i64>, FlacError>(s),
{
    crate::bits::lemma_pow2_values();
    assert forall|i: int| 0 <= i < s.len() implies in_range(#[trigger] s[i] * pow2(0)) by {
        assert(in_range(s[i] as int));
    }
    assert(Seq::new(s.len(), |i: int| (s[i] * pow2(0)) as i64) =~= s);
}

fn read_subframe_header(r: &mut BitReader) -> (res: Result<(SubframeType, u32, usize), FlacError>)
    requires
        old(r).wf(),
    ensures
        final(r).wf(),
        final(r).data@ == old(r).data@,
        old(r).pos <= final(r).pos,
        match subframe_header_spec(old(r).data@, old(r).pos as int) {
            Ok((t, order, wasted, end)) => res is Ok && res->Ok_0.0 == t && res->Ok_0.1 == order
                && res->Ok_0.2 == wasted && final(r).pos == end,
            Err(e) => res == Err::<(SubframeType, u32, usize), FlacError>(e),
        },
        res is Ok ==> res->Ok_0.1 <= 32 && (res->Ok_0.0 == SubframeType::Fixed ==> res->Ok_0.1
            <= 4) && (res->Ok_0.0 == SubframeType::LPC ==> res->Ok_0.1 >= 1),
{
    let ghost data = r.data@;
    let ghost pos = r.pos as int;
    if r.data.len() * 8 - r.pos < 8 {
        return Err(FlacError::UnexpectedEnd);
    }
    proof {
        lemma_bits_value_bound(data, pos + 1, 6);
        assert(pow2(6) == 64) by {
            reveal_with_fuel(pow2, 7);
        }
    }
    let pad = r.read_bits(1)?;
    if pad != 0 {
        return Err(FlacError::ReservedCodeUsed);
    }
    let code = r.read_bits(6)?;
    let (t, order): (SubframeType, u32) = if code == 0 {
        (SubframeType::Constant, 0)
    } else if code == 1 {
        (SubframeType::Verbatim, 0)
    } else if 8 <= code && code <= 12 {
        (SubframeType::Fixed, (code - 8) as u32)
    } else if code >= 32 {
        (SubframeType::LPC, (code - 31) as u32)
    } else {
        return Err(FlacError::ReservedCodeUsed);
    };
    let flag = r.read_bits(1)?;
    if flag == 0 {
        return Ok((t, order, 0));
    }
    let k = match r.read_unary() {
        Ok(k) => k,
        Err(e) => {
            proof {
                crate::residual::lemma_unary_none(data, pos + 8);
            }
            return Err(e);
        },
    };
    proof {
        crate::residual::lemma_unary_unique(data, pos + 8, k as nat);
    }
    Ok((t, order, k + 1))
}

proof fn lemma_coefs_bound(data: Seq<u8>, pos: int, w: nat, n: nat)
    requires
        1 <= w <= 16,
    ensures
        forall|j: int|
            0 <= j < n ==> -0x8000 <= #[trigger] signed_fields(data, pos, w, n)[j] <= 0x8000,
{
    assert forall|j: int| 0 <= j < n implies -0x8000 <= #[trigger] signed_fields(
        data,
        pos,
        w,
        n,
    )[j] <= 0x8000 by {
        lemma_bits_value_bound(data, pos + j * w, w);
        lemma_sign_extend_range(bits_value(data, pos + j * w, w), w);
        lemma_pow2_monotonic((w - 1) as nat, 15);
        assert(pow2(15) == 0x8000) by {
            reveal_with_fuel(pow2, 16);
        }
    }
}

fn read_body(r: &mut BitReader, t: SubframeType, order: u32, w: u32, bs: u32) -> (res: Result<
    Vec<i64>,
    FlacError,
>)
    requires
        old(r).wf(),
        w <= 33,
        bs <= 0x10000,
        order <= 32,
        t == SubframeType::Fixed ==> order <= 4,
    ensures
        final(r).wf(),
        final(r).data@ == old(r).data@,
        old(r).pos <= final(r).pos,
        match subframe_body_spec(old(r).data@, old(r).pos as int, t, order as nat, w as nat, bs as nat) {
            Ok((s, end)) => res is Ok && res->Ok_0@ == s && final(r).pos == end,
            Err(e) => res == Err::<Vec<i64>, FlacError>(e),
        },
        res is Ok ==> all_in_range(res->Ok_0@) && res->Ok_0@.len() == bs,
{
    let ghost data = r.data@;
    let ghost pos = r.pos as int;
    proof {
        lemma_signed_fields_range(data, pos, w as nat, bs as nat);
        lemma_signed_fields_range(data, pos, w as nat, order as nat);
    }
    match t {
        SubframeType::Constant => {
            let v = r.read_signed(w)?;
            proof {
                lemma_bits_value_bound(data, pos, w as nat);
                if w >= 1 {
                    lemma_sign_extend_range(bits_value(data, pos, w as nat), w as nat);
                } else {
                    assert(pow2(0) == 1);
                }
            }
            let mut out: Vec<i64> = Vec::new();
            let mut i: u32 = 0;
            while i < bs
                invariant
                    i <= bs,
                    in_range(v as int),
                    out@ =~= Seq::new(i as nat, |j: int| v),
                decreases bs - i,
            {
                out.push(v);
                i = i + 1;
            }
            proof {
                assert(out@ =~= Seq::new(
                    bs as nat,
                    |i: int| sign_extend(bits_value(data, pos, w as nat), w as nat) as i64,
                ));
            }
            Ok(out)
        },
        SubframeType::Verbatim => {
            let mut out: Vec<i64> = Vec::new();
            read_signed_run(r, w, bs as usize, &mut out)?;
            proof {
                assert(out@ =~= signed_fields(data, pos, w as nat, bs as nat));
            }
            Ok(out)
        },
        SubframeType::Fixed => {
            let mut warm: Vec<i64> = Vec::new();
            read_signed_run(r, w, order as usize, &mut warm)?;
            proof {
                assert(warm@ =~= signed_fields(data, pos, w as nat, order as nat));
            }
            let ghost q = r.pos as int;
            let res = read_residual(r, bs, order)?;
            proof {
                crate::residual::lemma_residual_len(data, q, bs as nat, order as nat);
            }
            let no_coefs: Vec<i64> = Vec::new();
            let s = restore(false, order, &no_coefs, 0, warm, &res)?;
            proof {
                assert(no_coefs@ =~= seq![]);
            }
            Ok(s)
        },
        SubframeType::LPC => {
            proof {
                assert(order * w <= 32 * 33) by (nonlinear_arith)
                    requires
                        order <= 32,
                        w <= 33,
                ;
            }
            if r.data.len() * 8 - r.pos < (order * w + 9) as usize {
                return Err(FlacError::UnexpectedEnd);
            }
            let mut warm: Vec<i64> = Vec::new();
            read_signed_run(r, w, order as usize, &mut warm)?;
            proof {
                assert(warm@ =~= signed_fields(data, pos, w as nat, order as nat));
            }
            let ghost q = r.pos as int;
            proof {
                lemma_bits_value_bound(data, q, 4);
                lemma_bits_value_bound(data, q + 4, 5);
                assert(pow2(4) == 16 && pow2(5) == 32 && pow2(4) == 16) by {
                    reveal_with_fuel(pow2, 6);
                }
            }
            let precision = r.read_bits(4)? + 1;
            let shift = r.read_signed(5)?;
            if shift < 0 {
                return Err(FlacError::InvalidShift);
            }
            let mut coefs: Vec<i64> = Vec::new();
            read_signed_run(r, precision as u32, order as usize, &mut coefs)?;
            proof {
                assert(coefs@ =~= signed_fields(data, q + 9, precision as nat, order as nat));
                lemma_coefs_bound(data, q + 9, precision as nat, order as nat);
            }
            let q2 = r.pos;
            let res = read_residual(r, bs, order)?;
            proof {
                crate::residual::lemma_residual_len(data, q2 as int, bs as nat, order as nat);
            }
            let s = restore(true, order, &coefs, shift as u32, warm, &res)?;
            Ok(s)
        },
    }
}

/// One decoded channel of a frame.
pub struct Subframe {
    pub sub_type: SubframeType,
    /// Low-order zero bits that were stripped from every sample.
    pub wasted_bits: u32,
    pub order: u32,
    pub samples: Vec<i64>,
}

impl Subframe {
    /// Reads and decodes one subframe of `block_size` samples of `bps` bits.
    pub fn parse(r: &mut BitReader, bps: u8, block_size: u32) -> (res: Result<Subframe, FlacError>)
        requires
            old(r).wf(),
            bps <= 33,
            block_size <= 0x10000,
        ensures
            final(r).wf(),
            final(r).data@ == old(r).data@,
            old(r).pos <= final(r).pos,
            match subframe_spec(old(r).data@, old(r).pos as int, bps as nat, block_size as nat) {
                Ok((t, order, wasted, s, end)) => res is Ok && res->Ok_0.sub_type == t
                    && res->Ok_0.order == order && res->Ok_0.wasted_bits == wasted
                    && res->Ok_0.samples@ == s && final(r).pos == end,
                Err(e) => res is Err && res->Err_0 == e,
            },
            res is Ok ==> all_in_range(res->Ok_0.samples@) && res->Ok_0.samples@.len()
                == block_size,
    {
        reveal(subframe_spec);
        let (t, order, wasted) = read_subframe_header(r)?;
        if wasted > bps as usize {
            return Err(FlacError::InvalidWastedBits);
        }
        let w = bps as u32 - wasted as u32;
        let s = read_body(r, t, order, w, block_size)?;
        let samples = put_wasted(s, wasted as u32)?;
        Ok(Subframe { sub_type: t, wasted_bits: wasted as u32, order, samples })
    }
}

} // verus!
