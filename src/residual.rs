//! Residual coding: partitioned Rice codes with escaped partitions of raw
//! two's-complement values.
use vstd::prelude::*;

use crate::bits::{
    bit_len, bits_value, lemma_bits_value_bound, lemma_pow2_add, lemma_pow2_monotonic,
    lemma_pow2_positive, pow2, pow2_u64, sign_extend, unary_at, BitReader,
};
use crate::error::FlacError;

verus! {

/// Largest magnitude, exclusive, of a decoded residual or sample: 33 signed bits.
pub open spec fn in_range(x: int) -> bool {
    -0x1_0000_0000 <= x < 0x1_0000_0000
}

/// Number of zero bits before the one bit that ends a unary code at `pos`,
/// when the input has such a one bit.
pub open spec fn unary_len(data: Seq<u8>, pos: int) -> Option<nat> {
    if exists|k: nat| unary_at(data, pos, k) {
        Some(choose|k: nat| unary_at(data, pos, k))
    } else {
        None
    }
}

/// The signed value of a folded residual: even values are the non-negative
/// ones, odd values the negative ones.
pub open spec fn unfold_residual(u: nat) -> int {
    if u % 2 == 0 {
        (u / 2) as int
    } else {
        -((u / 2) as int) - 1
    }
}

/// The residual of quotient `q` and remainder `rem` under parameter `param`.
pub open spec fn rice_value(q: nat, rem: nat, param: nat) -> Result<i64, FlacError> {
    let u = q * pow2(param) + rem;
    if u >= pow2(33) {
        Err(FlacError::SampleOverflow)
    } else {
        Ok(unfold_residual(u) as i64)
    }
}

/// One Rice-coded residual with parameter `param` at `pos`, and the position after it.
pub open spec fn rice_spec(data: Seq<u8>, pos: int, param: nat) -> Result<(i64, int), FlacError> {
    match unary_len(data, pos) {
        None => Err(FlacError::UnexpectedEnd),
        Some(q) => {
            let p = pos + q + 1;
            if p + param > bit_len(data) {
                Err(FlacError::UnexpectedEnd)
            } else {
                match rice_value(q, bits_value(data, p, param), param) {
                    Err(e) => Err(e),
                    Ok(v) => Ok((v, p + param)),
                }
            }
        },
    }
}

/// `n` Rice-coded residuals with parameter `param` at `pos`.
pub open spec fn rice_run_spec(data: Seq<u8>, pos: int, param: nat, n: nat) -> Result<
    (Seq<i64>, int),
    FlacError,
>
    decreases n,
{
    if n == 0 {
        Ok((seq![], pos))
    } else {
        match rice_run_spec(data, pos, param, (n - 1) as nat) {
            Err(e) => Err(e),
            Ok((s, p)) => match rice_spec(data, p, param) {
                Err(e) => Err(e),
                Ok((v, pos2)) => Ok((s.push(v), pos2)),
            },
        }
    }
}

/// `n` consecutive `w`-bit two's-complement fields starting at `pos`.
pub open spec fn signed_fields(data: Seq<u8>, pos: int, w: nat, n: nat) -> Seq<i64> {
    Seq::new(n, |i: int| sign_extend(bits_value(data, pos + i * w, w), w) as i64)
}

/// One partition of `n` residuals whose parameter is `pbits` wide; the all-ones
/// parameter escapes to raw values of a 5-bit width.
pub open spec fn partition_spec(data: Seq<u8>, pos: int, pbits: nat, n: nat) -> Result<
    (Seq<i64>, int),
    FlacError,
> {
    if pos + pbits > bit_len(data) {
        Err(FlacError::UnexpectedEnd)
    } else {
        let param = bits_value(data, pos, pbits);
        let p = pos + pbits;
        if param == pow2(pbits) - 1 {
            if p + 5 > bit_len(data) {
                Err(FlacError::UnexpectedEnd)
            } else {
                let w = bits_value(data, p, 5);
                if p + 5 + n * w > bit_len(data) {
                    Err(FlacError::UnexpectedEnd)
                } else {
                    Ok((signed_fields(data, p + 5, w, n), p + 5 + n * w))
                }
            }
        } else {
            rice_run_spec(data, p, param, n)
        }
    }
}

/// Residuals in partition `j` of `2^porder` partitions of a block of `bs`
/// samples whose first `order` samples are warm-up samples.
pub open spec fn partition_count(bs: nat, order: nat, porder: nat, j: nat) -> nat {
    if j == 0 {
        (bs / pow2(porder) - order) as nat
    } else {
        bs / pow2(porder)
    }
}

/// The first `k` partitions, concatenated.
#[verifier::opaque]
pub open spec fn partitions_spec(
    data: Seq<u8>,
    pos: int,
    pbits: nat,
    bs: nat,
    order: nat,
    porder: nat,
    k: nat,
) -> Result<(Seq<i64>, int), FlacError>
    decreases k,
{
    if k == 0 {
        Ok((seq![], pos))
    } else {
        match partitions_spec(data, pos, pbits, bs, order, porder, (k - 1) as nat) {
            Err(e) => Err(e),
            Ok((s, p)) => match partition_spec(
                data,
                p,
                pbits,
                partition_count(bs, order, porder, (k - 1) as nat),
            ) {
                Err(e) => Err(e),
                Ok((t, pos2)) => Ok((s + t, pos2)),
            },
        }
    }
}

/// The `bs - order` residuals of a subframe at `pos`: a 2-bit coding method
/// (0 for 4-bit parameters, 1 for 5-bit ones, the others reserved), a 4-bit
/// partition order, then the partitions.
pub open spec fn residual_spec(data: Seq<u8>, pos: int, bs: nat, order: nat) -> Result<
    (Seq<i64>, int),
    FlacError,
> {
    if pos + 6 > bit_len(data) {
        Err(FlacError::UnexpectedEnd)
    } else {
        let method = bits_value(data, pos, 2);
        let porder = bits_value(data, pos + 2, 4);
        if method >= 2 {
            Err(FlacError::ReservedCodeUsed)
        } else if bs % pow2(porder) != 0 || bs / pow2(porder) < order {
            Err(FlacError::InvalidPartitionOrder)
        } else {
            partitions_spec(
                data,
                pos + 6,
                if method == 0 {
                    4
                } else {
                    5
                },
                bs,
                order,
                porder,
                pow2(porder),
            )
        }
    }
}

pub(crate) proof fn lemma_unary_unique(data: Seq<u8>, pos: int, k: nat)
    requires
        unary_at(data, pos, k),
    ensures
        unary_len(data, pos) == Some(k),
{
    let c = choose|c: nat| unary_at(data, pos, c);
    if c < k {
        assert(crate::bits::bit_at(data, pos + c) == 0);
    } else if c > k {
        assert(crate::bits::bit_at(data, pos + k) == 0);
    }
}

pub(crate) proof fn lemma_unary_none(data: Seq<u8>, pos: int)
    requires
        forall|j: int| pos <= j < bit_len(data) ==> crate::bits::bit_at(data, j) == 0,
    ensures
        unary_len(data, pos) is None,
{
    if exists|k: nat| unary_at(data, pos, k) {
        let k = choose|k: nat| unary_at(data, pos, k);
        assert(crate::bits::bit_at(data, pos + k) == 0);
    }
}

/// Reads `n` fields of `w` bits each, two's complement, appending them to `out`.
pub fn read_signed_run(r: &mut BitReader, w: u32, n: usize, out: &mut Vec<i64>) -> (res: Result<
    (),
    FlacError,
>)
    requires
        old(r).wf(),
        w <= 40,
        n <= 0x10000,
    ensures
        final(r).wf(),
        final(r).data@ == old(r).data@,
        old(r).pos <= final(r).pos,
        old(r).pos + n * w <= bit_len(old(r).data@) ==> res is Ok && final(out)@ == old(out)@
            + signed_fields(old(r).data@, old(r).pos as int, w as nat, n as nat) && final(r).pos
            == old(r).pos + n * w,
        old(r).pos + n * w > bit_len(old(r).data@) ==> res == Err::<(), FlacError>(
            FlacError::UnexpectedEnd,
        ),
{
    let ghost data = r.data@;
    let ghost start = r.pos as int;
    let ghost base = out@;
    proof {
        assert(n * w <= 0x10000 * 40) by (nonlinear_arith)
            requires
                n <= 0x10000,
                w <= 40,
        ;
    }
    if n * (w as usize) > r.data.len() * 8 - r.pos {
        return Err(FlacError::UnexpectedEnd);
    }
    let mut i: usize = 0;
    while i < n
        invariant
            r.wf(),
            r.data@ == data,
            w <= 40,
            i <= n <= 0x10000,
            start + n * w <= bit_len(data),
            r.pos == start + i * w,
            out@ =~= base + signed_fields(data, start, w as nat, i as nat),
        decreases n - i,
    {
        proof {
            assert(i * w + w == (i + 1) * w) by (nonlinear_arith);
            assert((i + 1) * w <= n * w) by (nonlinear_arith)
                requires
                    i + 1 <= n,
            ;
        }
        let v = r.read_signed(w)?;
        out.push(v);
        proof {
            assert(out@ =~= base + signed_fields(data, start, w as nat, (i + 1) as nat));
        }
        i = i + 1;
    }
    Ok(())
}

/// Reads one Rice-coded residual with parameter `param`.
pub fn read_rice(r: &mut BitReader, param: u32) -> (res: Result<i64, FlacError>)
    requires
        old(r).wf(),
        param <= 31,
    ensures
        final(r).wf(),
        final(r).data@ == old(r).data@,
        old(r).pos <= final(r).pos,
        match rice_spec(old(r).data@, old(r).pos as int, param as nat) {
            Ok((v, end)) => res == Ok::<i64, FlacError>(v) && final(r).pos == end,
            Err(e) => res == Err::<i64, FlacError>(e),
        },
{
    let ghost data = r.data@;
    let ghost pos = r.pos as int;
    let q = match r.read_unary() {
        Ok(q) => q,
        Err(e) => {
            proof {
                if exists|k: nat| unary_at(data, pos, k) {
                    let k = choose|k: nat| unary_at(data, pos, k);
                    assert(crate::bits::bit_at(data, pos + k) == 0);
                }
            }
            return Err(e);
        },
    };
    proof {
        lemma_unary_unique(data, pos, q as nat);
    }
    let rem = r.read_bits(param)?;
    proof {
        lemma_bits_value_bound(data, pos + q + 1, param as nat);
        assert(rem == bits_value(data, pos + q + 1, param as nat));
        assert(unary_len(data, pos) == Some(q as nat));
    }
    let res = rice_combine(q, rem, param);
    proof {
        assert(r.pos == pos + q + 1 + param);
    }
    res
}

fn rice_combine(q: usize, rem: u64, param: u32) -> (res: Result<i64, FlacError>)
    requires
        param <= 31,
        rem < pow2(param as nat),
    ensures
        res == rice_value(q as nat, rem as nat, param as nat),
{
    let limit = pow2_u64(33 - param);
    let pp = pow2_u64(param);
    proof {
        lemma_rice_limits(param as nat);
    }
    if q as u64 >= limit {
        proof {
            lemma_rice_overflow(q as nat, rem as nat, limit as nat, pp as nat);
        }
        return Err(FlacError::SampleOverflow);
    }
    proof {
        lemma_rice_fits(q as nat, rem as nat, limit as nat, pp as nat);
    }
    let u: u64 = q as u64 * pp + rem;
    if u % 2 == 0 {
        Ok((u / 2) as i64)
    } else {
        Ok(-((u / 2) as i64) - 1)
    }
}

proof fn lemma_rice_limits(param: nat)
    requires
        param <= 31,
    ensures
        pow2((33 - param) as nat) * pow2(param) == pow2(33),
        pow2(33) == 0x2_0000_0000,
        pow2(param) >= 1,
        pow2((33 - param) as nat) >= 1,
{
    lemma_pow2_add((33 - param) as nat, param);
    assert((33 - param) as nat + param == 33);
    lemma_pow2_positive((33 - param) as nat);
    lemma_pow2_positive(param);
    crate::bits::lemma_pow2_values();
}

proof fn lemma_rice_overflow(q: nat, rem: nat, limit: nat, pp: nat)
    requires
        q >= limit,
        limit * pp == 0x2_0000_0000,
        pp >= 1,
    ensures
        q * pp + rem >= 0x2_0000_0000,
{
    assert(q * pp >= limit * pp) by (nonlinear_arith)
        requires
            q >= limit,
            pp >= 1,
    ;
}

proof fn lemma_rice_fits(q: nat, rem: nat, limit: nat, pp: nat)
    requires
        q < limit,
        rem < pp,
        limit * pp == 0x2_0000_0000,
    ensures
        q * pp + rem < 0x2_0000_0000,
{
    assert(q * pp + rem < 0x2_0000_0000) by (nonlinear_arith)
        requires
            q < limit,
            rem < pp,
            limit * pp == 0x2_0000_0000,
    ;
}

proof fn lemma_rice_run_err(data: Seq<u8>, pos: int, param: nat, i: nat, n: nat)
    requires
        i <= n,
        rice_run_spec(data, pos, param, i) is Err,
    ensures
        rice_run_spec(data, pos, param, n) == rice_run_spec(data, pos, param, i),
    decreases n - i,
{
    if i < n {
        lemma_rice_run_err(data, pos, param, i, (n - 1) as nat);
    }
}

/// Reads `n` Rice-coded residuals with parameter `param`, appending them to `out`.
pub fn read_rice_run(r: &mut BitReader, param: u32, n: usize, out: &mut Vec<i64>) -> (res: Result<
    (),
    FlacError,
>)
    requires
        old(r).wf(),
        param <= 31,
    ensures
        final(r).wf(),
        final(r).data@ == old(r).data@,
        old(r).pos <= final(r).pos,
        match rice_run_spec(old(r).data@, old(r).pos as int, param as nat, n as nat) {
            Ok((s, end)) => res is Ok && final(out)@ == old(out)@ + s && final(r).pos == end,
            Err(e) => res == Err::<(), FlacError>(e),
        },
{
    let ghost data = r.data@;
    let ghost start = r.pos as int;
    let ghost base = out@;
    let mut i: usize = 0;
    assert(out@.subrange(base.len() as int, out@.len() as int) =~= Seq::<i64>::empty());
    assert(out@.subrange(0, base.len() as int) =~= base);
    while i < n
        invariant
            r.wf(),
            r.data@ == data,
            data == old(r).data@,
            start == old(r).pos,
            start <= r.pos,
            base == old(out)@,
            param <= 31,
            i <= n,
            rice_run_spec(data, start, param as nat, i as nat) == Ok::<(Seq<i64>, int), FlacError>(
                (out@.subrange(base.len() as int, out@.len() as int), r.pos as int),
            ),
            out@.subrange(0, base.len() as int) == base,
            base.len() <= out@.len(),
        decreases n - i,
    {
        let ghost before = out@;
        let v = match read_rice(r, param) {
            Ok(v) => v,
            Err(e) => {
                proof {
                    lemma_rice_run_err(data, start, param as nat, (i + 1) as nat, n as nat);
                }
                return Err(e);
            },
        };
        out.push(v);
        proof {
            assert(out@.subrange(base.len() as int, out@.len() as int) =~= before.subrange(
                base.len() as int,
                before.len() as int,
            ).push(v));
            assert(out@.subrange(0, base.len() as int) =~= base);
        }
        i = i + 1;
    }
    proof {
        assert(out@ =~= base + out@.subrange(base.len() as int, out@.len() as int));
    }
    Ok(())
}

/// Reads one partition of `n` residuals whose parameter is `pbits` wide, appending them to `out`.
pub fn read_partition(r: &mut BitReader, pbits: u32, n: usize, out: &mut Vec<i64>) -> (res: Result<
    (),
    FlacError,
>)
    requires
        old(r).wf(),
        pbits == 4 || pbits == 5,
        n <= 0x10000,
    ensures
        final(r).wf(),
        final(r).data@ == old(r).data@,
        old(r).pos <= final(r).pos,
        match partition_spec(old(r).data@, old(r).pos as int, pbits as nat, n as nat) {
            Ok((s, end)) => res is Ok && final(out)@ == old(out)@ + s && final(r).pos == end,
            Err(e) => res == Err::<(), FlacError>(e),
        },
{
    let ghost data = r.data@;
    let ghost pos = r.pos as int;
    let param = r.read_bits(pbits)?;
    proof {
        lemma_bits_value_bound(data, pos, pbits as nat);
        lemma_bits_value_bound(data, pos + pbits, 5);
        assert(pow2(4) == 16 && pow2(5) == 32) by {
            reveal_with_fuel(pow2, 6);
        }
    }
    let escape: u64 = if pbits == 4 {
        15
    } else {
        31
    };
    if param == escape {
        let w = r.read_bits(5)?;
        read_signed_run(r, w as u32, n, out)
    } else {
        read_rice_run(r, param as u32, n, out)
    }
}

proof fn lemma_partitions_err(
    data: Seq<u8>,
    pos: int,
    pbits: nat,
    bs: nat,
    order: nat,
    porder: nat,
    i: nat,
    n: nat,
)
    requires
        i <= n,
        partitions_spec(data, pos, pbits, bs, order, porder, i) is Err,
    ensures
        partitions_spec(data, pos, pbits, bs, order, porder, n) == partitions_spec(
            data,
            pos,
            pbits,
            bs,
            order,
            porder,
            i,
        ),
    decreases n - i,
{
    if i < n {
        lemma_partitions_err(data, pos, pbits, bs, order, porder, i, (n - 1) as nat);
        reveal(partitions_spec);
    }
}

#[verifier::rlimit(60)]
proof fn lemma_partitions_step(
    data: Seq<u8>,
    pos: int,
    pbits: nat,
    bs: nat,
    order: nat,
    porder: nat,
    j: nat,
)
    ensures
        partitions_spec(data, pos, pbits, bs, order, porder, j + 1) == match partitions_spec(
            data,
            pos,
            pbits,
            bs,
            order,
            porder,
            j,
        ) {
            Err(e) => Err(e),
            Ok((s, p)) => match partition_spec(
                data,
                p,
                pbits,
                partition_count(bs, order, porder, j),
            ) {
                Err(e) => Err(e),
                Ok((t, pos2)) => Ok::<(Seq<i64>, int), FlacError>((s + t, pos2)),
            },
        },
{
    reveal(partitions_spec);
}

/// Reads the residuals of a subframe of `bs` samples with `order` warm-up samples.
pub fn read_residual(r: &mut BitReader, bs: u32, order: u32) -> (res: Result<Vec<i64>, FlacError>)
    requires
        old(r).wf(),
        bs <= 0x10000,
    ensures
        final(r).wf(),
        final(r).data@ == old(r).data@,
        old(r).pos <= final(r).pos,
        match residual_spec(old(r).data@, old(r).pos as int, bs as nat, order as nat) {
            Ok((s, end)) => res is Ok && res->Ok_0@ == s && final(r).pos == end,
            Err(e) => res == Err::<Vec<i64>, FlacError>(e),
        },
{
    let ghost data = r.data@;
    let ghost pos = r.pos as int;
    if r.data.len() * 8 - r.pos < 6 {
        return Err(FlacError::UnexpectedEnd);
    }
    let method = r.read_bits(2)?;
    let porder = r.read_bits(4)?;
    proof {
        lemma_bits_value_bound(data, pos, 2);
        lemma_bits_value_bound(data, pos + 2, 4);
        assert(pow2(2) == 4 && pow2(4) == 16) by {
            reveal_with_fuel(pow2, 5);
        }
        lemma_pow2_monotonic(porder as nat, 15);
        assert(pow2(15) == 0x8000) by {
            reveal_with_fuel(pow2, 16);
        }
        lemma_pow2_positive(porder as nat);
    }
    if method >= 2 {
        return Err(FlacError::ReservedCodeUsed);
    }
    let parts = pow2_u64(porder as u32) as u32;
    if bs % parts != 0 || bs / parts < order {
        return Err(FlacError::InvalidPartitionOrder);
    }
    let pbits: u32 = if method == 0 {
        4
    } else {
        5
    };
    let per = bs / parts;
    proof {
        assert(partitions_spec(data, pos + 6, pbits as nat, bs as nat, order as nat, porder as nat, 0)
            == Ok::<(Seq<i64>, int), FlacError>((Seq::<i64>::empty(), pos + 6))) by {
            reveal(partitions_spec);
        }
        assert(per <= bs) by (nonlinear_arith)
            requires
                per == bs / parts,
                parts >= 1,
                bs >= 0,
        ;
    }
    let mut out: Vec<i64> = Vec::new();
    let mut j: u32 = 0;
    while j < parts
        invariant
            r.wf(),
            r.data@ == data,
            data == old(r).data@,
            pos == old(r).pos,
            pos <= r.pos,
            pbits == 4 || pbits == 5,
            j <= parts,
            parts == pow2(porder as nat),
            parts >= 1,
            per == bs / parts,
            bs <= 0x10000,
            per >= order,
            per <= bs,
            bs % parts == 0,
            pos + 6 <= bit_len(data),
            method == bits_value(data, pos, 2),
            porder == bits_value(data, pos + 2, 4),
            method < 2,
            pbits == if method == 0 {
                4u32
            } else {
                5u32
            },
            partitions_spec(
                data,
                pos + 6,
                pbits as nat,
                bs as nat,
                order as nat,
                porder as nat,
                j as nat,
            ) == Ok::<(Seq<i64>, int), FlacError>((out@, r.pos as int)),
        decreases parts - j,
    {
        let n: u32 = if j == 0 {
            per - order
        } else {
            per
        };
        let ghost before = out@;
        let ghost p_before = r.pos as int;
        let step = read_partition(r, pbits, n as usize, &mut out);
        proof {
            assert(partition_count(bs as nat, order as nat, porder as nat, j as nat) == n);
            lemma_partitions_step(
                data,
                pos + 6,
                pbits as nat,
                bs as nat,
                order as nat,
                porder as nat,
                j as nat,
            );
        }
        match step {
            Ok(()) => {},
            Err(e) => {
                proof {
                    lemma_partitions_err(
                        data,
                        pos + 6,
                        pbits as nat,
                        bs as nat,
                        order as nat,
                        porder as nat,
                        (j + 1) as nat,
                        parts as nat,
                    );
                    assert(residual_spec(data, pos, bs as nat, order as nat) == partitions_spec(
                        data,
                        pos + 6,
                        pbits as nat,
                        bs as nat,
                        order as nat,
                        porder as nat,
                        parts as nat,
                    ));
                    assert(partitions_spec(
                        data,
                        pos + 6,
                        pbits as nat,
                        bs as nat,
                        order as nat,
                        porder as nat,
                        (j + 1) as nat,
                    ) == Err::<(Seq<i64>, int), FlacError>(e));
                }
                return Err(e);
            },
        }
        j = j + 1;
    }
    Ok(out)
}

proof fn lemma_rice_run_len(data: Seq<u8>, pos: int, param: nat, n: nat)
    requires
        rice_run_spec(data, pos, param, n) is Ok,
    ensures
        rice_run_spec(data, pos, param, n)->Ok_0.0.len() == n,
    decreases n,
{
    if n > 0 {
        lemma_rice_run_len(data, pos, param, (n - 1) as nat);
    }
}

proof fn lemma_partition_len(data: Seq<u8>, pos: int, pbits: nat, n: nat)
    requires
        partition_spec(data, pos, pbits, n) is Ok,
    ensures
        partition_spec(data, pos, pbits, n)->Ok_0.0.len() == n,
{
    if bits_value(data, pos, pbits) != pow2(pbits) - 1 {
        lemma_rice_run_len(data, pos + pbits, bits_value(data, pos, pbits), n);
    }
}

proof fn lemma_partitions_len(
    data: Seq<u8>,
    pos: int,
    pbits: nat,
    bs: nat,
    order: nat,
    porder: nat,
    k: nat,
)
    requires
        partitions_spec(data, pos, pbits, bs, order, porder, k) is Ok,
        bs / pow2(porder) >= order,
        k >= 1,
    ensures
        partitions_spec(data, pos, pbits, bs, order, porder, k)->Ok_0.0.len() == k * (bs / pow2(
            porder,
        )) - order,
    decreases k,
{
    reveal(partitions_spec);
    let prev = partitions_spec(data, pos, pbits, bs, order, porder, (k - 1) as nat);
    let p = prev->Ok_0.1;
    lemma_partition_len(data, p, pbits, partition_count(bs, order, porder, (k - 1) as nat));
    let t = partition_spec(data, p, pbits, partition_count(bs, order, porder, (k - 1) as nat));
    assert(partitions_spec(data, pos, pbits, bs, order, porder, k)->Ok_0.0 == prev->Ok_0.0
        + t->Ok_0.0);
    if k == 1 {
        assert(prev->Ok_0.0.len() == 0);
    }
    if k > 1 {
        lemma_partitions_len(data, pos, pbits, bs, order, porder, (k - 1) as nat);
        let per = bs / pow2(porder);
        let km1 = (k - 1) as int;
        assert(km1 * per + per == (km1 + 1) * per) by (nonlinear_arith);
    }
}

/// Decoded residuals number the block size less the predictor order.
pub proof fn lemma_residual_len(data: Seq<u8>, pos: int, bs: nat, order: nat)
    requires
        residual_spec(data, pos, bs, order) is Ok,
    ensures
        residual_spec(data, pos, bs, order)->Ok_0.0.len() == bs - order,
        order <= bs,
{
    let method = bits_value(data, pos, 2);
    let porder = bits_value(data, pos + 2, 4);
    let parts = pow2(porder);
    lemma_pow2_positive(porder);
    lemma_partitions_len(
        data,
        pos + 6,
        if method == 0 {
            4
        } else {
            5
        },
        bs,
        order,
        porder,
        parts,
    );
    vstd::arithmetic::div_mod::lemma_fundamental_div_mod(bs as int, parts as int);
    assert(parts * (bs / parts) == (bs / parts) * parts) by (nonlinear_arith);
    assert(bs / parts <= bs) by (nonlinear_arith)
        requires
            parts >= 1,
    ;
}

/// The folded form of a residual: non-negative values to even numbers,
/// negative values to odd ones.
pub open spec fn fold_residual(v: int) -> nat {
    if v >= 0 {
        (2 * v) as nat
    } else {
        (-2 * v - 1) as nat
    }
}

/// Rice decoding inverts Rice encoding: where the input holds, at `pos`, the
/// unary quotient and the `param`-bit remainder of the folded value of `v`,
/// the decoder returns `v` and the position after the code.
pub proof fn lemma_rice_round_trip(data: Seq<u8>, pos: int, param: nat, v: int)
    requires
        param <= 30,
        in_range(v),
        unary_at(data, pos, fold_residual(v) / pow2(param)),
        bits_value(data, pos + fold_residual(v) / pow2(param) + 1, param) == fold_residual(v) % pow2(
            param,
        ),
        pos + fold_residual(v) / pow2(param) + 1 + param <= bit_len(data),
    ensures
        rice_spec(data, pos, param) == Ok::<(i64, int), FlacError>(
            (v as i64, pos + fold_residual(v) / pow2(param) + 1 + param),
        ),
{
    let u = fold_residual(v);
    let q = u / pow2(param);
    lemma_pow2_positive(param);
    lemma_unary_unique(data, pos, q);
    vstd::arithmetic::div_mod::lemma_fundamental_div_mod(u as int, pow2(param) as int);
    assert(q * pow2(param) + u % pow2(param) == u) by (nonlinear_arith)
        requires
            u == pow2(param) * (u / pow2(param)) + u % pow2(param),
            q == u / pow2(param),
    ;
    crate::bits::lemma_pow2_values();
    assert(unfold_residual(u) == v);
}

/// Raw residuals of an escaped partition read back as written: the `w`-bit
/// two's-complement form of `v` sign-extends to `v`.
pub proof fn lemma_raw_round_trip(data: Seq<u8>, pos: int, w: nat, v: int)
    requires
        1 <= w <= 32,
        -pow2((w - 1) as nat) <= v < pow2((w - 1) as nat),
        bits_value(data, pos, w) == if v >= 0 {
            v
        } else {
            v + pow2(w)
        },
    ensures
        sign_extend(bits_value(data, pos, w), w) == v,
{
    assert(pow2(w) == 2 * pow2((w - 1) as nat));
}

} // verus!
