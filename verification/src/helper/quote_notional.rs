//! The quote-asset value of a base-asset quantity at a price.
use vstd::prelude::*;
use crate::commands::apply_command::ApplyError;

verus! {

/// Ten to the power `n`.
pub open spec fn pow10(n: nat) -> int
    decreases n,
{
    if n == 0 {
        1
    } else {
        10 * pow10((n - 1) as nat)
    }
}

pub proof fn lemma_pow10_positive(n: nat)
    ensures
        pow10(n) >= 1,
    decreases n,
{
    if n > 0 {
        lemma_pow10_positive((n - 1) as nat);
    }
}

pub proof fn lemma_pow10_monotonic(m: nat, n: nat)
    requires
        m <= n,
    ensures
        pow10(m) <= pow10(n),
    decreases n,
{
    if m < n {
        lemma_pow10_monotonic(m, (n - 1) as nat);
        lemma_pow10_positive((n - 1) as nat);
    }
}

/// Integer division rounding toward zero, as Rust's `/` does.
pub open spec fn div_toward_zero(a: int, b: int) -> int {
    if a >= 0 {
        a / b
    } else {
        -((-a) / b)
    }
}

/// The notional `price * quantity / 10^base_decimals`, rounded toward
/// zero and computed in 128-bit arithmetic. A negative scale means the base
/// asset is unusable; a scale or a result out of range is an overflow.
pub open spec fn spec_quote_notional(price: i64, quantity: i64, base_decimals: i32) -> Result<i64, ApplyError> {
    if base_decimals < 0 {
        Err(ApplyError::AssetNotFound)
    } else if pow10(base_decimals as nat) > i128::MAX {
        Err(ApplyError::Overflow)
    } else {
        let n = div_toward_zero(price * quantity, pow10(base_decimals as nat));
        if i64::MIN <= n <= i64::MAX {
            Ok(n as i64)
        } else {
            Err(ApplyError::Overflow)
        }
    }
}

/// `price * quantity / 10^base_decimals` in the quote asset's units.
pub fn quote_notional(price: i64, quantity: i64, base_decimals: i32) -> (r: Result<i64, ApplyError>)
    ensures
        r == spec_quote_notional(price, quantity, base_decimals),
{
    if base_decimals < 0 {
        return Err(ApplyError::AssetNotFound);
    }
    let d: u32 = base_decimals as u32;
    let mut scale: i128 = 1;
    let mut k: u32 = 0;
    while k < d
        invariant
            k <= d,
            d == base_decimals,
            scale == pow10(k as nat),
        decreases d - k,
    {
        proof {
            lemma_pow10_positive(k as nat);
        }
        if scale > i128::MAX / 10 {
            proof {
                lemma_pow10_monotonic((k + 1) as nat, d as nat);
            }
            return Err(ApplyError::Overflow);
        }
        scale = scale * 10;
        k += 1;
    }
    proof {
        lemma_pow10_positive(d as nat);
    }
    let p: i128 = price as i128;
    let q: i128 = quantity as i128;
    assert(-0x4000_0000_0000_0000_0000_0000_0000_0000 <= p * q <= 0x4000_0000_0000_0000_0000_0000_0000_0000) by (nonlinear_arith)
        requires
            -0x8000_0000_0000_0000 <= p <= 0x7fff_ffff_ffff_ffff,
            -0x8000_0000_0000_0000 <= q <= 0x7fff_ffff_ffff_ffff,
    ;
    let product: i128 = p * q;
    let n: i128 = if product >= 0 {
        product / scale
    } else {
        let neg: i128 = -product;
        let quot: i128 = neg / scale;
        -quot
    };
    assert(n == div_toward_zero(price * quantity, pow10(base_decimals as nat)));
    if n < i64::MIN as i128 || n > i64::MAX as i128 {
        return Err(ApplyError::Overflow);
    }
    Ok(n as i64)
}

} // verus!
