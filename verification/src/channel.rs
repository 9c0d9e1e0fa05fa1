//! Exact conversion of decimal color-channel literals to channel bytes.
//!
//! A structured color declaration gives each channel as a decimal number in
//! the unit interval. The channel is hex-encodable only when the conversion
//! to a byte loses nothing, that is when 255 times the declared value is a
//! whole number. Over terminating decimals that holds exactly for 0, 1, and
//! the even tenths, which is what the normalized-digit rules below encode.

use vstd::prelude::*;
use crate::CH_ZERO;
use crate::num::{CafNumberValue, digits_end, is_digit, CH_MINUS};

verus! {

/// Drops leading `0` digits.
pub open spec fn trim_leading_zeros(b: Seq<u8>) -> Seq<u8>
    decreases b.len(),
{
    if b.len() > 0 && b[0] == CH_ZERO {
        trim_leading_zeros(b.skip(1))
    } else {
        b
    }
}

/// Drops trailing `0` digits.
pub open spec fn trim_trailing_zeros(b: Seq<u8>) -> Seq<u8>
    decreases b.len(),
{
    if b.len() > 0 && b.last() == CH_ZERO {
        trim_trailing_zeros(b.drop_last())
    } else {
        b
    }
}

/// When the first `k` bytes are zeros and the next one is not, trimming
/// leading zeros drops exactly those `k` bytes.
pub proof fn lemma_trim_leading(b: Seq<u8>, k: int)
    requires
        0 <= k <= b.len(),
        forall|i: int| 0 <= i < k ==> b[i] == CH_ZERO,
        k == b.len() || b[k] != CH_ZERO,
    ensures
        trim_leading_zeros(b) == b.skip(k),
    decreases k,
{
    if k == 0 {
        assert(b.skip(0) =~= b);
    } else {
        lemma_trim_leading(b.skip(1), k - 1);
        assert(b.skip(1).skip(k - 1) =~= b.skip(k));
    }
}

/// When the bytes from `k` on are zeros and the one before is not, trimming
/// trailing zeros keeps exactly the first `k` bytes.
pub proof fn lemma_trim_trailing(b: Seq<u8>, k: int)
    requires
        0 <= k <= b.len(),
        forall|i: int| k <= i < b.len() ==> b[i] == CH_ZERO,
        k == 0 || b[k - 1] != CH_ZERO,
    ensures
        trim_trailing_zeros(b) == b.subrange(0, k),
    decreases b.len() - k,
{
    if k == b.len() {
        assert(b.subrange(0, k) =~= b);
    } else {
        assert(b.drop_last() =~= b.subrange(0, b.len() - 1));
        lemma_trim_trailing(b.subrange(0, b.len() - 1), k);
        assert(b.subrange(0, b.len() - 1).subrange(0, k) =~= b.subrange(0, k));
    }
}

/// True when the literal carries a minus sign.
pub open spec fn lit_neg(b: Seq<u8>) -> bool {
    b.len() > 0 && b[0] == CH_MINUS
}

/// Index of the first integer digit.
pub open spec fn lit_d0(b: Seq<u8>) -> int {
    if lit_neg(b) {
        1
    } else {
        0
    }
}

/// The integer digits of the literal.
pub open spec fn lit_int(b: Seq<u8>) -> Seq<u8> {
    b.subrange(lit_d0(b), digits_end(b, lit_d0(b)))
}

/// The fractional digits of the literal; empty when it has no dot.
pub open spec fn lit_frac(b: Seq<u8>) -> Seq<u8> {
    let ie = digits_end(b, lit_d0(b));
    if ie < b.len() {
        b.subrange(ie + 1, b.len() as int)
    } else {
        Seq::<u8>::empty()
    }
}

/// The channel byte a decimal literal encodes, when the encoding is exact.
///
/// With the integer digits stripped of leading zeros and the fractional
/// digits stripped of trailing zeros, the exact values are: zero (also with
/// a minus sign), one (channel byte 255), and a single even tenths digit
/// `2d` (channel byte `51 * d`). Everything else loses precision when forced
/// into a byte and is refused.
pub open spec fn spec_exact_channel(b: Seq<u8>) -> Option<u8> {
    let ti = trim_leading_zeros(lit_int(b));
    let tf = trim_trailing_zeros(lit_frac(b));
    if lit_neg(b) {
        if ti.len() == 0 && tf.len() == 0 {
            Some(0u8)
        } else {
            None
        }
    } else if ti.len() == 0 {
        if tf.len() == 0 {
            Some(0u8)
        } else if tf.len() == 1 && is_digit(tf[0]) && (tf[0] - CH_ZERO) % 2 == 0 {
            Some((51 * ((tf[0] - CH_ZERO) / 2)) as u8)
        } else {
            None
        }
    } else if ti.len() == 1 && ti[0] == 49 && tf.len() == 0 {
        Some(255u8)
    } else {
        None
    }
}

/// Computes the exact channel byte of a literal, refusing lossy values.
pub fn exact_channel(num: &CafNumberValue) -> (r: Option<u8>)
    requires
        num.wf(),
    ensures
        r == spec_exact_channel(num.bytes@),
{
    let ghost b = num.bytes@;
    let n = num.bytes.len();
    let neg = num.bytes[0] == CH_MINUS;
    let d0: usize = if neg {
        1
    } else {
        0
    };
    proof {
        crate::num::lemma_digits_end_bounds(b, d0 as int);
    }
    let ie = CafNumberValue::scan_digits(&num.bytes, d0);
    // First significant integer digit.
    let mut fnz: usize = d0;
    while fnz < ie && num.bytes[fnz] == CH_ZERO
        invariant
            d0 <= fnz <= ie <= n,
            num.bytes@ == b,
            n == b.len(),
            ie == digits_end(b, d0 as int),
            forall|i: int| d0 <= i < fnz ==> b[i] == CH_ZERO,
        decreases ie - fnz,
    {
        fnz = fnz + 1;
    }
    let ghost ti = trim_leading_zeros(lit_int(b));
    proof {
        lemma_trim_leading(lit_int(b), fnz - d0);
        assert(lit_int(b).skip(fnz - d0) =~= b.subrange(fnz as int, ie as int));
        assert(ti == b.subrange(fnz as int, ie as int));
    }
    // Last significant fractional digit.
    let fs: usize = if ie < n {
        ie + 1
    } else {
        n
    };
    let mut lnz: usize = n;
    while lnz > fs && num.bytes[lnz - 1] == CH_ZERO
        invariant
            fs <= lnz <= n,
            num.bytes@ == b,
            n == b.len(),
            forall|i: int| lnz <= i < n ==> b[i] == CH_ZERO,
        decreases lnz,
    {
        lnz = lnz - 1;
    }
    let ghost tf = trim_trailing_zeros(lit_frac(b));
    proof {
        if ie < n {
            lemma_trim_trailing(lit_frac(b), lnz - fs);
            assert(lit_frac(b).subrange(0, lnz - fs) =~= b.subrange(fs as int, lnz as int));
        } else {
            assert(lit_frac(b) =~= Seq::<u8>::empty());
        }
        assert(tf == b.subrange(fs as int, lnz as int));
    }
    let int_sig = ie - fnz;
    let frac_sig = lnz - fs;
    if neg {
        if int_sig == 0 && frac_sig == 0 {
            Some(0)
        } else {
            None
        }
    } else if int_sig == 0 {
        if frac_sig == 0 {
            Some(0)
        } else if frac_sig == 1 {
            proof {
                assert(tf[0] == b[fs as int]);
            }
            let d = num.bytes[fs];
            if CH_ZERO <= d && d <= 57 && (d - CH_ZERO) % 2 == 0 {
                Some(51 * ((d - CH_ZERO) / 2))
            } else {
                None
            }
        } else {
            None
        }
    } else if int_sig == 1 && num.bytes[fnz] == 49 && frac_sig == 0 {
        proof {
            assert(ti[0] == b[fnz as int]);
        }
        Some(255)
    } else {
        proof {
            if int_sig == 1 {
                assert(ti[0] == b[fnz as int]);
            }
        }
        None
    }
}

} // verus!

