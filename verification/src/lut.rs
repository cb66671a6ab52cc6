//! Transform parameters and the lookup table built from them.

use vstd::prelude::*;
use crate::error::TransformError;
use crate::affine::{adjust_value, affine_byte};
use crate::binary64::{is_finite, is_finite_bits};

verus! {

/// The scale (contrast factor) and the offset (brightness offset) of an
/// affine transform, each as a binary64 bit pattern.
#[derive(Clone, Copy, Debug, PartialEq, Eq, Structural)]
pub struct TransformParams {
    pub scale_bits: u64,
    pub offset_bits: u64,
}

impl TransformParams {
    /// Whether both parameters are finite numbers.
    pub open spec fn finite(&self) -> bool {
        is_finite_bits(self.scale_bits) && is_finite_bits(self.offset_bits)
    }

    /// Packs the two bit patterns.
    pub fn new(scale_bits: u64, offset_bits: u64) -> (params: TransformParams)
        ensures
            params.scale_bits == scale_bits,
            params.offset_bits == offset_bits,
    {
        TransformParams { scale_bits, offset_bits }
    }

    /// Tells whether both parameters are finite numbers.
    pub fn is_finite(&self) -> (finite: bool)
        ensures
            finite == self.finite(),
    {
        is_finite(self.scale_bits) && is_finite(self.offset_bits)
    }
}

/// The table of a transform: entry `v` is `v * scale + offset`, evaluated in
/// binary64 arithmetic, rounded to the nearest integer, ties away from zero,
/// and saturated to a byte.
pub open spec fn table_of(params: TransformParams) -> Seq<u8> {
    Seq::new(256, |v: int| affine_byte(v, params.scale_bits, params.offset_bits) as u8)
}

/// A mapping from every input byte value to its output byte value.
#[derive(Clone, Copy, Debug)]
pub struct LookupTable {
    pub entries: [u8; 256],
}

impl View for LookupTable {
    type V = Seq<u8>;

    open spec fn view(&self) -> Seq<u8> {
        self.entries@
    }
}

impl LookupTable {
    /// The output byte for one input byte.
    pub fn apply(&self, value: u8) -> (out: u8)
        ensures
            out == self@[value as int],
    {
        self.entries[value as usize]
    }

    /// Writes the output byte for `source` into `target`.
    pub fn apply_into(&self, source: &u8, target: &mut u8)
        ensures
            *final(target) == self@[*source as int],
    {
        *target = self.entries[*source as usize];
    }
}

/// Builds lookup tables from transform parameters.
pub struct LookupTableBuilder;

impl LookupTableBuilder {
    /// What `build` answers: `InvalidParameter` exactly when the scale or
    /// the offset is not finite, and otherwise the table of the transform.
    pub open spec fn built(
        params: TransformParams,
        result: Result<LookupTable, TransformError>,
    ) -> bool {
        if params.finite() {
            result.is_ok() && result.unwrap()@ == table_of(params)
        } else {
            result == Err::<LookupTable, TransformError>(TransformError::InvalidParameter)
        }
    }

    /// Builds the table of a transform.
    ///
    /// Fails with `InvalidParameter` exactly when the scale or the offset is
    /// not finite. Otherwise entry `v` is `v * scale + offset`, rounded to
    /// nearest, ties away from zero, and saturated.
    pub fn build(params: &TransformParams) -> (result: Result<LookupTable, TransformError>)
        ensures
            Self::built(*params, result),
    {
        if !params.is_finite() {
            return Err(TransformError::InvalidParameter);
        }
        let mut entries: [u8; 256] = [0u8; 256];
        let mut v: usize = 0;
        while v < 256
            invariant
                v <= 256,
                params.finite(),
                forall|i: int|
                    0 <= i < v ==> #[trigger] entries@[i] as int == affine_byte(
                        i,
                        params.scale_bits,
                        params.offset_bits,
                    ),
            decreases 256 - v,
        {
            match adjust_value(v as u8, params.scale_bits, params.offset_bits) {
                Ok(byte) => {
                    entries[v] = byte;
                },
                Err(e) => {
                    return Err(e);
                },
            }
            v += 1;
        }
        let table = LookupTable { entries };
        assert(table@ =~= table_of(*params));
        Ok(table)
    }
}

} // verus!
