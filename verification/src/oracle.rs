//! A cross-check of the strategies against each other.

use vstd::prelude::*;
use crate::buffer::{PixelBuffer, PixelBufferView, lemma_offset_in_row};
use crate::error::TransformError;
use crate::laws::lemma_own_output_on_pixels;
use crate::lut::{TransformParams, table_of};
use crate::registry::StrategyRegistry;
use crate::strategy::Strategy;

verus! {

/// Two buffers have the same shape and the same pixel bytes. Row padding is
/// not compared.
pub open spec fn agree_on_pixels(a: PixelBufferView, b: PixelBufferView) -> bool {
    a.same_shape(b) && forall|i: int| a.is_active(i) ==> a.data[i] == b.data[i]
}

/// Runs strategies side by side and compares what they produce.
pub struct EquivalenceOracle;

impl EquivalenceOracle {
    /// Tells whether two buffers have the same shape and the same pixel
    /// bytes, whatever their row padding holds.
    pub fn same_pixels(a: &PixelBuffer, b: &PixelBuffer) -> (same: bool)
        requires
            a.wf(),
            b.wf(),
        ensures
            same == agree_on_pixels(a@, b@),
    {
        if !a.same_shape(b) {
            return false;
        }
        let height: u32 = a.rows();
        let stride: usize = a.row_stride();
        let active: usize = a.active_len();
        let left = a.data();
        let right = b.data();
        let total: usize = left.len();
        assert(stride * height == height * stride) by (nonlinear_arith);
        let mut r: u32 = 0;
        let mut start: usize = 0;
        while r < height
            invariant
                r <= height,
                start == r * stride,
                start <= total,
                active <= stride,
                active == a@.active_len(),
                stride == a@.row_stride,
                left@ == a@.data,
                right@ == b@.data,
                left@.len() == total,
                right@.len() == total,
                total == height * stride,
                forall|i: int| 0 <= i < start && a@.is_active(i) ==> left@[i] == right@[i],
            decreases height - r,
        {
            assert((r + 1) * stride <= height * stride) by (nonlinear_arith)
                requires
                    r + 1 <= height,
                    stride >= 0,
            ;
            assert((r + 1) * stride == r * stride + stride) by (nonlinear_arith);
            let mut k: usize = 0;
            while k < active
                invariant
                    k <= active,
                    active <= stride,
                    r < height,
                    start == r * stride,
                    start + stride <= total,
                    active == a@.active_len(),
                    stride == a@.row_stride,
                    left@ == a@.data,
                    right@ == b@.data,
                    left@.len() == total,
                    right@.len() == total,
                    forall|i: int| 0 <= i < start + k && a@.is_active(i) ==> left@[i] == right@[i],
                decreases active - k,
            {
                if left[start + k] != right[start + k] {
                    proof {
                        lemma_offset_in_row(r as int, stride as int, k as int);
                        assert(a@.is_active(start + k));
                    }
                    return false;
                }
                k += 1;
            }
            proof {
                assert forall|i: int| start + active <= i < start + stride implies !a@.is_active(
                    i,
                ) by {
                    lemma_offset_in_row(r as int, stride as int, i - start);
                }
            }
            start += stride;
            r += 1;
        }
        true
    }

    /// Runs every registered own strategy on `src`, each into a zeroed
    /// buffer of its own, and tells whether all of them produced the same
    /// pixel bytes. The baseline is left out.
    ///
    /// Fails with `InvalidParameter` exactly when the scale or the offset is
    /// not finite; otherwise the answer is `true`, whatever is registered.
    pub fn check(
        registry: &StrategyRegistry,
        src: &PixelBuffer,
        params: &TransformParams,
    ) -> (verdict: Result<bool, TransformError>)
        requires
            src.wf(),
        ensures
            params.finite() ==> verdict == Ok::<bool, TransformError>(true),
            !params.finite() ==> verdict == Err::<bool, TransformError>(
                TransformError::InvalidParameter,
            ),
    {
        if !params.is_finite() {
            return Err(TransformError::InvalidParameter);
        }
        let strategies = registry.strategies();
        let ghost table = table_of(*params);
        let mut reference: Option<PixelBuffer> = None;
        let mut n: usize = 0;
        while n < strategies.len()
            invariant
                n <= strategies@.len(),
                src.wf(),
                params.finite(),
                table == table_of(*params),
                reference.is_some() ==> {
                    let first = reference.unwrap();
                    &&& first.wf()
                    &&& first@.same_shape(src@)
                    &&& forall|i: int|
                        src@.is_active(i) ==> first@.data[i] == table[src@.data[i] as int]
                },
            decreases strategies@.len() - n,
        {
            let strategy: Strategy = strategies[n];
            if strategy.is_own() {
                let mut out = src.zeroed_like();
                let ghost blank = out@.data;
                match strategy.apply(src, &mut out, params) {
                    Ok(_) => {},
                    Err(e) => {
                        return Err(e);
                    },
                }
                proof {
                    lemma_own_output_on_pixels(strategy, table, src@, blank);
                }
                match &reference {
                    None => {
                        reference = Some(out);
                    },
                    Some(first) => {
                        proof {
                            assert(first@.data.len() == src@.data.len());
                            assert(out@.data.len() == src@.data.len());
                            assert forall|i: int| first@.is_active(i) implies first@.data[i]
                                == out@.data[i] by {
                                assert(src@.is_active(i));
                            }
                        }
                        if !Self::same_pixels(first, &out) {
                            return Ok(false);
                        }
                    },
                }
            }
            n += 1;
        }
        Ok(true)
    }
}

} // verus!
