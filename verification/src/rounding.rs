use vstd::prelude::*;

verus! {

/// Two to the power 24: a single-precision number carries 24 significant bits.
pub const SIGNIFICAND_LIMIT: u128 = 16777216;

/// The weight of the last significant bit that is kept when `n` is cut to 24
/// significant bits: the least power of two `u` with `n / u` below two to the 24.
pub open spec fn unit_of(n: nat) -> nat
    decreases n,
{
    if n < 16777216 {
        1
    } else {
        2 * unit_of(n / 2)
    }
}

/// `n` rounded to 24 significant bits, to the nearest such number, and to the one
/// with an even last bit where two are equally near.
pub open spec fn round_to_single(n: nat) -> nat {
    let u = unit_of(n);
    let q = n / u;
    let r = n % u;
    if 2 * r > u || (2 * r == u && q % 2 == 1) {
        (q + 1) * u
    } else {
        q * u
    }
}

/// One and a half times `len` as single-precision arithmetic gives it: `len`
/// rounded to single precision, the product rounded again, the fraction dropped
/// and the result capped at the largest `u64`.
pub open spec fn grown_size(len: nat) -> nat {
    let product = round_to_single(3 * round_to_single(len)) / 2;
    if product > u64::MAX {
        u64::MAX as nat
    } else {
        product
    }
}

/// `n` rounded to 24 significant bits.
pub fn round_single(n: u128) -> (r: u128)
    requires
        n < 0x1_0000_0000_0000_0000_0000,
    ensures
        r == round_to_single(n as nat),
        r <= 2 * n,
{
    let mut m: u128 = n;
    let mut unit: u128 = 1;
    while m >= SIGNIFICAND_LIMIT
        invariant
            unit >= 1,
            unit == 1 || m >= 1,
            unit * m <= n,
            unit * unit_of(m as nat) == unit_of(n as nat),
            n < 0x1_0000_0000_0000_0000_0000,
        decreases m,
    {
        proof {
            let half = m / 2;
            assert(unit_of(m as nat) == 2 * unit_of(half as nat));
            assert((unit * 2) * half <= unit * m) by (nonlinear_arith)
                requires
                    half * 2 <= m,
                    unit >= 1,
            ;
            assert((unit * 2) * unit_of(half as nat) == unit * (2 * unit_of(half as nat)))
                by (nonlinear_arith);
            assert(unit * 2 <= unit * m) by (nonlinear_arith)
                requires
                    m >= 2,
                    unit >= 1,
            ;
        }
        m = m / 2;
        unit = unit * 2;
    }
    proof {
        assert(unit_of(m as nat) == 1);
        assert(unit * 1 == unit);
        if m >= 1 {
            assert(unit <= n) by (nonlinear_arith)
                requires
                    unit * m <= n,
                    unit >= 1,
                    m >= 1,
            ;
        }
    }
    let q: u128 = n / unit;
    let r: u128 = n % unit;
    proof {
        assert(q * unit <= n) by (nonlinear_arith)
            requires
                q == n / unit,
                unit >= 1,
        ;
        assert((q + 1) * unit == q * unit + unit) by (nonlinear_arith);
    }
    if 2 * r > unit || (2 * r == unit && q % 2 == 1) {
        (q + 1) * unit
    } else {
        q * unit
    }
}

/// The size to which a device buffer grows when `len` bytes no longer fit.
pub fn grow(len: u64) -> (size: u64)
    ensures
        size == grown_size(len as nat),
{
    let single: u128 = round_single(len as u128);
    let product: u128 = round_single(3 * single) / 2;
    if product > u64::MAX as u128 {
        u64::MAX
    } else {
        product as u64
    }
}

} // verus!
