//! The strategies that apply a lookup table to a pixel buffer.
//!
//! The sequential and the row-chunked strategy rewrite the pixel bytes of
//! every row and leave row padding as it was. The flat strategy rewrites the
//! whole storage, padding included. On pixel bytes all three agree.

use vstd::prelude::*;
use vstd::arithmetic::div_mod::*;
use rayon::iter::{IndexedParallelIterator, IntoParallelRefIterator, IntoParallelRefMutIterator, ParallelIterator};
use rayon::slice::{ParallelSlice, ParallelSliceMut};
use crate::buffer::{PixelBuffer, PixelBufferView, lemma_offset_in_row};
use crate::error::TransformError;
use crate::lut::{LookupTable, LookupTableBuilder, TransformParams, table_of};

verus! {

/// Every byte of `src` sent through the table.
pub open spec fn map_all(table: Seq<u8>, src: Seq<u8>) -> Seq<u8> {
    Seq::new(src.len(), |i: int| table[src[i] as int])
}

/// The storage `dst` after the pixel bytes of `src` went through the table:
/// a pixel byte is the table's entry for the source byte at the same offset,
/// a padding byte is what `dst` held before.
pub open spec fn map_active(table: Seq<u8>, src: PixelBufferView, dst: Seq<u8>) -> Seq<u8> {
    Seq::new(
        dst.len(),
        |i: int|
            if src.is_active(i) {
                table[src.data[i] as int]
            } else {
                dst[i]
            },
    )
}

/// One row after its first `active` bytes went through the table.
pub open spec fn map_row(table: Seq<u8>, src_row: Seq<u8>, dst_row: Seq<u8>, active: int) -> Seq<
    u8,
> {
    Seq::new(
        dst_row.len(),
        |k: int|
            if k < active && k < src_row.len() {
                table[src_row[k] as int]
            } else {
                dst_row[k]
            },
    )
}

/// The `j`-th piece of `s` when it is cut into consecutive pieces of `size`
/// elements; the last piece may be shorter.
pub open spec fn chunk(s: Seq<u8>, size: int, j: int) -> Seq<u8> {
    s.subrange(
        j * size,
        if (j + 1) * size <= s.len() {
            (j + 1) * size
        } else {
            s.len() as int
        },
    )
}

/// What a transform call answers: the parameters are looked at first, the
/// shapes second.
pub open spec fn transform_outcome(
    params: TransformParams,
    src: PixelBufferView,
    dst: PixelBufferView,
) -> Result<(), TransformError> {
    if !params.finite() {
        Err(TransformError::InvalidParameter)
    } else if !src.same_shape(dst) {
        Err(TransformError::ShapeMismatch)
    } else {
        Ok(())
    }
}

/// Sends the first `active` bytes of a source row through the table into the
/// destination row, and leaves the rest of the destination row alone.
pub fn apply_row(table: &LookupTable, src_row: &[u8], dst_row: &mut [u8], active: usize)
    ensures
        final(dst_row)@ == map_row(table@, src_row@, old(dst_row)@, active as int),
{
    let mut limit: usize = active;
    if src_row.len() < limit {
        limit = src_row.len();
    }
    if dst_row.len() < limit {
        limit = dst_row.len();
    }
    let mut k: usize = 0;
    while k < limit
        invariant
            k <= limit,
            limit <= active,
            limit <= src_row@.len(),
            limit <= dst_row@.len(),
            limit == active || limit == src_row@.len() || limit == dst_row@.len(),
            dst_row@.len() == old(dst_row)@.len(),
            forall|i: int| 0 <= i < k ==> dst_row@[i] == table@[src_row@[i] as int],
            forall|i: int| k <= i < dst_row@.len() ==> dst_row@[i] == old(dst_row)@[i],
        decreases limit - k,
    {
        dst_row[k] = table.apply(src_row[k]);
        k += 1;
    }
    assert(dst_row@ =~= map_row(table@, src_row@, old(dst_row)@, active as int));
}

/// Runs rayon's `for_each` over `par_iter().zip(par_iter_mut())`, which hands
/// every pair of a source byte and the destination byte at the same offset to
/// `LookupTable::apply_into`, once: afterwards each destination byte is the
/// table's entry for its source byte.
#[verifier::external_body]
fn par_apply_all(table: &LookupTable, src: &[u8], dst: &mut Vec<u8>)
    requires
        src@.len() == old(dst)@.len(),
    ensures
        final(dst)@.len() == old(dst)@.len(),
        forall|i: int| 0 <= i < src@.len() ==> final(dst)@[i] == table@[#[trigger] src@[i] as int],
{
    src.par_iter().zip(dst.par_iter_mut()).for_each(|(s, d)| table.apply_into(s, d));
}

/// Runs rayon's `for_each` over `par_chunks(size).zip(par_chunks_mut(size))`,
/// which cuts both storages into consecutive pieces of `size` bytes (the last
/// may be shorter) and hands every pair of pieces at the same position to
/// `apply_row`, once: afterwards each piece of the destination is what
/// `apply_row` makes of it. rayon refuses a piece size of zero.
#[verifier::external_body]
fn par_apply_rows(table: &LookupTable, src: &[u8], dst: &mut Vec<u8>, size: usize, active: usize)
    requires
        size > 0,
        src@.len() == old(dst)@.len(),
    ensures
        final(dst)@.len() == old(dst)@.len(),
        forall|j: int|
            0 <= j && j * size < src@.len() ==> #[trigger] chunk(final(dst)@, size as int, j)
                == map_row(
                table@,
                chunk(src@, size as int, j),
                chunk(old(dst)@, size as int, j),
                active as int,
            ),
{
    src.par_chunks(size).zip(dst.par_chunks_mut(size)).for_each(
        |(s, d)| apply_row(table, s, d, active),
    );
}

/// The sequential strategy: builds the table once, then rewrites the pixel
/// bytes of every row, one after the other, on the calling thread. Row
/// padding in `dst` stays as it was.
///
/// Fails with `InvalidParameter` exactly when the scale or the offset is not
/// finite, and otherwise with `ShapeMismatch` exactly when the two buffers
/// differ in width, height or row stride. A failed call leaves `dst` alone.
pub fn adjust_brightness_contrast_own(
    src: &PixelBuffer,
    dst: &mut PixelBuffer,
    params: &TransformParams,
) -> (result: Result<(), TransformError>)
    requires
        src.wf(),
        old(dst).wf(),
    ensures
        final(dst).wf(),
        final(dst)@.same_shape(old(dst)@),
        result.is_ok() ==> final(dst)@.same_shape(src@),
        result == transform_outcome(*params, src@, old(dst)@),
        result.is_ok() ==> final(dst)@ == old(dst)@.with_data(
            map_active(table_of(*params), src@, old(dst)@.data),
        ),
        result.is_err() ==> final(dst)@ == old(dst)@,
{
    let table = match LookupTableBuilder::build(params) {
        Ok(table) => table,
        Err(e) => {
            return Err(e);
        },
    };
    if !src.same_shape(dst) {
        return Err(TransformError::ShapeMismatch);
    }
    let height: u32 = src.rows();
    let stride: usize = src.row_stride();
    let active: usize = src.active_len();
    let source = src.data();
    let bytes = dst.data_mut();
    let ghost before = bytes@;
    let ghost goal = map_active(table@, src@, before);
    assert(stride * height == height * stride) by (nonlinear_arith);
    let total: usize = source.len();
    let mut r: u32 = 0;
    let mut start: usize = 0;
    while r < height
        invariant
            r <= height,
            start == r * stride,
            active <= stride,
            active == src@.active_len(),
            stride == src@.row_stride,
            source@ == src@.data,
            source@.len() == height * stride,
            source@.len() == total,
            start <= total,
            bytes@.len() == before.len(),
            before.len() == source@.len(),
            goal == map_active(table@, src@, before),
            forall|i: int| 0 <= i < start ==> bytes@[i] == goal[i],
            forall|i: int| start <= i < bytes@.len() ==> bytes@[i] == before[i],
        decreases height - r,
    {
        assert((r + 1) * stride <= height * stride) by (nonlinear_arith)
            requires
                r + 1 <= height,
                stride >= 0,
        ;
        assert((r + 1) * stride == r * stride + stride) by (nonlinear_arith);
        let mut k: usize = 0;
        while k < active
            invariant
                k <= active,
                active <= stride,
                r < height,
                start == r * stride,
                start + stride <= total,
                source@.len() == total,
                active == src@.active_len(),
                stride == src@.row_stride,
                source@ == src@.data,
                bytes@.len() == before.len(),
                before.len() == source@.len(),
                goal == map_active(table@, src@, before),
                forall|i: int| 0 <= i < start + k ==> bytes@[i] == goal[i],
                forall|i: int| start + k <= i < bytes@.len() ==> bytes@[i] == before[i],
            decreases active - k,
        {
            proof {
                lemma_offset_in_row(r as int, stride as int, k as int);
            }
            bytes[start + k] = table.apply(source[start + k]);
            k += 1;
        }
        proof {
            assert forall|i: int| start + active <= i < start + stride implies bytes@[i]
                == goal[i] by {
                lemma_offset_in_row(r as int, stride as int, i - start);
            }
        }
        start += stride;
        r += 1;
    }
    assert(bytes@ =~= goal);
    Ok(())
}

/// The flat data-parallel strategy: builds the table once, then sends every
/// byte of the storage through it, in parallel. Row padding is rewritten like
/// any other byte.
///
/// Fails with `InvalidParameter` exactly when the scale or the offset is not
/// finite, and otherwise with `ShapeMismatch` exactly when the two buffers
/// differ in width, height or row stride. A failed call leaves `dst` alone.
pub fn adjust_brightness_contrast_own_parallel(
    src: &PixelBuffer,
    dst: &mut PixelBuffer,
    params: &TransformParams,
) -> (result: Result<(), TransformError>)
    requires
        src.wf(),
        old(dst).wf(),
    ensures
        final(dst).wf(),
        final(dst)@.same_shape(old(dst)@),
        result.is_ok() ==> final(dst)@.same_shape(src@),
        result == transform_outcome(*params, src@, old(dst)@),
        result.is_ok() ==> final(dst)@ == old(dst)@.with_data(
            map_all(table_of(*params), src@.data),
        ),
        result.is_err() ==> final(dst)@ == old(dst)@,
{
    let table = match LookupTableBuilder::build(params) {
        Ok(table) => table,
        Err(e) => {
            return Err(e);
        },
    };
    if !src.same_shape(dst) {
        return Err(TransformError::ShapeMismatch);
    }
    let bytes = dst.data_mut();
    par_apply_all(&table, src.data(), bytes);
    assert(bytes@ =~= map_all(table@, src@.data));
    Ok(())
}

/// The row-chunked data-parallel strategy: builds the table once, then hands
/// whole rows to parallel workers, each of which rewrites the pixel bytes of
/// its rows. Row padding in `dst` stays as it was.
///
/// Fails with `InvalidParameter` exactly when the scale or the offset is not
/// finite, and otherwise with `ShapeMismatch` exactly when the two buffers
/// differ in width, height or row stride. A failed call leaves `dst` alone.
pub fn adjust_brightness_contrast_own_parallel_rows(
    src: &PixelBuffer,
    dst: &mut PixelBuffer,
    params: &TransformParams,
) -> (result: Result<(), TransformError>)
    requires
        src.wf(),
        old(dst).wf(),
    ensures
        final(dst).wf(),
        final(dst)@.same_shape(old(dst)@),
        result.is_ok() ==> final(dst)@.same_shape(src@),
        result == transform_outcome(*params, src@, old(dst)@),
        result.is_ok() ==> final(dst)@ == old(dst)@.with_data(
            map_active(table_of(*params), src@, old(dst)@.data),
        ),
        result.is_err() ==> final(dst)@ == old(dst)@,
{
    let table = match LookupTableBuilder::build(params) {
        Ok(table) => table,
        Err(e) => {
            return Err(e);
        },
    };
    if !src.same_shape(dst) {
        return Err(TransformError::ShapeMismatch);
    }
    let stride: usize = src.row_stride();
    let active: usize = src.active_len();
    if stride == 0 {
        assert(dst@.data =~= map_active(table@, src@, dst@.data));
        return Ok(());
    }
    let source = src.data();
    let bytes = dst.data_mut();
    let ghost before = bytes@;
    let ghost goal = map_active(table@, src@, before);
    par_apply_rows(&table, source, bytes, stride, active);
    proof {
        let size = stride as int;
        let height = src@.height as int;
        assert forall|i: int| 0 <= i < bytes@.len() implies bytes@[i] == goal[i] by {
            let j = i / size;
            let k = i % size;
            lemma_fundamental_div_mod(i, size);
            lemma_div_pos_is_pos(i, size);
            lemma_mod_bound(i, size);
            assert(i == size * j + k);
            assert(j * size == size * j) by (nonlinear_arith);
            assert(j < height) by (nonlinear_arith)
                requires
                    size * j + k < size * height,
                    k >= 0,
                    size > 0,
            ;
            assert((j + 1) * size <= height * size) by (nonlinear_arith)
                requires
                    j + 1 <= height,
                    size > 0,
            ;
            assert((j + 1) * size == j * size + size) by (nonlinear_arith);
            let after_piece = chunk(bytes@, size, j);
            let source_piece = chunk(source@, size, j);
            let before_piece = chunk(before, size, j);
            assert(after_piece == map_row(table@, source_piece, before_piece, active as int));
            assert(after_piece[k] == bytes@[i]);
            assert(source_piece[k] == source@[i]);
            assert(before_piece[k] == before[i]);
        }
        assert(bytes@ =~= goal);
    }
    Ok(())
}

/// The ways in which a transform can be carried out.
#[derive(Clone, Copy, Debug, PartialEq, Eq, Structural)]
pub enum Strategy {
    /// An image-processing primitive outside this library. The library does
    /// not run it; `Strategy::apply` hands the call back to the caller.
    Baseline,
    /// `adjust_brightness_contrast_own`.
    Sequential,
    /// `adjust_brightness_contrast_own_parallel`.
    FlatParallel,
    /// `adjust_brightness_contrast_own_parallel_rows`.
    RowChunkedParallel,
}

/// What `Strategy::apply` did on success.
#[derive(Clone, Copy, Debug, PartialEq, Eq, Structural)]
pub enum Outcome {
    /// The destination holds the transformed image.
    Done,
    /// The strategy is the baseline: the destination is untouched, and the
    /// caller is to run the outside primitive.
    Delegated,
}

impl Strategy {
    /// Whether the strategy is one that this library runs itself.
    pub open spec fn own(self) -> bool {
        self != Strategy::Baseline
    }

    /// The storage that a successful run of the strategy leaves in `dst`.
    pub open spec fn output(
        self,
        table: Seq<u8>,
        src: PixelBufferView,
        dst: Seq<u8>,
    ) -> Seq<u8> {
        match self {
            Strategy::Baseline => dst,
            Strategy::Sequential => map_active(table, src, dst),
            Strategy::FlatParallel => map_all(table, src.data),
            Strategy::RowChunkedParallel => map_active(table, src, dst),
        }
    }

    /// What a call of `apply` answers.
    pub open spec fn answer(
        self,
        params: TransformParams,
        src: PixelBufferView,
        dst: PixelBufferView,
    ) -> Result<Outcome, TransformError> {
        if !self.own() {
            Ok(Outcome::Delegated)
        } else {
            match transform_outcome(params, src, dst) {
                Ok(_) => Ok(Outcome::Done),
                Err(e) => Err(e),
            }
        }
    }

    /// The name under which the strategy is offered for selection.
    pub open spec fn name_spec(self) -> Seq<char> {
        match self {
            Strategy::Baseline => "OpenCV::convertTo"@,
            Strategy::Sequential => "Own (Sequential)"@,
            Strategy::FlatParallel => "Own (Parallel)"@,
            Strategy::RowChunkedParallel => "Own (Parallel Rows)"@,
        }
    }

    /// The name under which the strategy is offered for selection.
    pub fn name(&self) -> (name: &'static str)
        ensures
            name@ == self.name_spec(),
    {
        match self {
            Strategy::Baseline => "OpenCV::convertTo",
            Strategy::Sequential => "Own (Sequential)",
            Strategy::FlatParallel => "Own (Parallel)",
            Strategy::RowChunkedParallel => "Own (Parallel Rows)",
        }
    }

    /// Tells whether the strategy is one that this library runs itself.
    pub fn is_own(&self) -> (own: bool)
        ensures
            own == self.own(),
    {
        match self {
            Strategy::Baseline => false,
            _ => true,
        }
    }

    /// Runs the strategy. An own strategy behaves as the function it stands
    /// for; the baseline leaves `dst` alone and answers `Delegated`.
    pub fn apply(
        &self,
        src: &PixelBuffer,
        dst: &mut PixelBuffer,
        params: &TransformParams,
    ) -> (result: Result<Outcome, TransformError>)
        requires
            src.wf(),
            old(dst).wf(),
        ensures
            final(dst).wf(),
            final(dst)@.same_shape(old(dst)@),
            result == Ok::<Outcome, TransformError>(Outcome::Done) ==> final(dst)@.same_shape(src@),
            result == self.answer(*params, src@, old(dst)@),
            result == Ok::<Outcome, TransformError>(Outcome::Done) ==> final(dst)@ == old(
                dst,
            )@.with_data(self.output(table_of(*params), src@, old(dst)@.data)),
            result != Ok::<Outcome, TransformError>(Outcome::Done) ==> final(dst)@ == old(dst)@,
    {
        let ran = match self {
            Strategy::Baseline => {
                return Ok(Outcome::Delegated);
            },
            Strategy::Sequential => adjust_brightness_contrast_own(src, dst, params),
            Strategy::FlatParallel => adjust_brightness_contrast_own_parallel(src, dst, params),
            Strategy::RowChunkedParallel => adjust_brightness_contrast_own_parallel_rows(
                src,
                dst,
                params,
            ),
        };
        match ran {
            Ok(_) => Ok(Outcome::Done),
            Err(e) => Err(e),
        }
    }
}

} // verus!
