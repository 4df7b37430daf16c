//! Weights as exact fractions, and the scalar quantizer that maps a weight
//! in [0, 1] to an integer bucket in [0, Q).

use vstd::prelude::*;

verus! {

/// A weight `num / den`. The quantizer clamps it into [0, 1], so `num` may
/// lie outside [0, den]; `den` is positive and small enough that the
/// quantizer's products stay in range.
pub struct Weight {
    pub num: i64,
    pub den: i64,
}

impl Weight {
    pub open spec fn wf(&self) -> bool {
        1 <= self.den <= 0x1_0000_0000
    }
}

/// `floor(value * (Q - 1))`, clamped into [0, Q): 0 maps to 0, 1 maps to Q - 1,
/// values outside [0, 1] are clamped.
pub open spec fn spec_quantize(num: int, den: int, quantization: int) -> int {
    if num <= 0 {
        0
    } else if num >= den {
        quantization - 1
    } else {
        (num * (quantization - 1)) / den
    }
}

/// The quantizer lands in [0, Q) whenever the weight's denominator is positive.
pub proof fn lemma_quantize_bounds(num: int, den: int, quantization: int)
    requires
        den >= 1,
        quantization >= 2,
    ensures
        0 <= spec_quantize(num, den, quantization) < quantization,
{
    if 0 < num < den {
        let x = num * (quantization - 1);
        assert(num * (quantization - 1) >= 0) by (nonlinear_arith)
            requires
                num > 0,
                quantization >= 2,
        ;
        assert(x / den >= 0) by (nonlinear_arith)
            requires
                x >= 0,
                den >= 1,
        ;
        assert(num * (quantization - 1) < den * (quantization - 1)) by (nonlinear_arith)
            requires
                0 < num < den,
                quantization >= 2,
        ;
        lemma_div_below(x, den, quantization - 1);
    }
}

/// If `x < den * c` with positive divisor, then `x / den < c`.
pub proof fn lemma_div_below(x: int, den: int, c: int)
    requires
        den >= 1,
        x >= 0,
        x < den * c,
    ensures
        x / den < c,
{
    vstd::arithmetic::div_mod::lemma_fundamental_div_mod(x, den);
    let q = x / den;
    let r = x % den;
    vstd::arithmetic::div_mod::lemma_mod_bound(x, den);
    if q >= c {
        assert(den * q >= den * c) by (nonlinear_arith)
            requires
                q >= c,
                den >= 1,
        ;
        assert(false);
    }
}

/// A sparse vector: an externally assigned id and its nonzero coordinates,
/// each a dimension index with a weight.
pub struct SparseVector {
    pub vector_id: u32,
    pub entries: Vec<(u32, Weight)>,
}

impl SparseVector {
    pub open spec fn wf(&self) -> bool {
        forall|j: int| 0 <= j < self.entries@.len() ==> (#[trigger] self.entries@[j]).1.wf()
    }
}

} // verus!
