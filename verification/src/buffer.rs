//! A rectangular image held as raw bytes, row after row.

use vstd::prelude::*;
use vstd::arithmetic::div_mod::lemma_fundamental_div_mod_converse;
use crate::error::TransformError;

verus! {

/// Bytes per pixel: blue, green and red intensity.
pub const CHANNELS: u8 = 3;

/// What a pixel buffer is, as plain mathematical values.
pub struct PixelBufferView {
    pub width: u32,
    pub height: u32,
    pub row_stride: usize,
    pub data: Seq<u8>,
}

impl PixelBufferView {
    /// Number of bytes of a row that carry pixel data.
    pub open spec fn active_len(&self) -> int {
        self.width * 3
    }

    /// A row is at least as long as its pixels, and the storage holds exactly
    /// `height` rows.
    pub open spec fn wf(&self) -> bool {
        &&& self.row_stride >= self.active_len()
        &&& self.data.len() == self.row_stride * self.height
    }

    /// Whether the byte at offset `i` of the storage carries pixel data, as
    /// opposed to row padding.
    pub open spec fn is_active(&self, i: int) -> bool {
        &&& 0 <= i < self.data.len()
        &&& self.row_stride > 0
        &&& i % (self.row_stride as int) < self.active_len()
    }

    /// Whether two buffers have the same width, height and row stride.
    pub open spec fn same_shape(&self, other: PixelBufferView) -> bool {
        &&& self.width == other.width
        &&& self.height == other.height
        &&& self.row_stride == other.row_stride
    }

    /// The pixel bytes of row `r`, without its padding.
    pub open spec fn row(&self, r: int) -> Seq<u8> {
        self.data.subrange(r * self.row_stride, r * self.row_stride + self.active_len())
    }

    /// This buffer with other storage contents.
    pub open spec fn with_data(&self, data: Seq<u8>) -> PixelBufferView {
        PixelBufferView { width: self.width, height: self.height, row_stride: self.row_stride, data }
    }
}

/// An image of `height` rows of `width` three-byte pixels. Consecutive rows
/// start `row_stride` bytes apart; the bytes of a row past its pixels are
/// padding.
#[derive(Debug)]
pub struct PixelBuffer {
    width: u32,
    height: u32,
    row_stride: usize,
    data: Vec<u8>,
}

impl View for PixelBuffer {
    type V = PixelBufferView;

    closed spec fn view(&self) -> PixelBufferView {
        PixelBufferView {
            width: self.width,
            height: self.height,
            row_stride: self.row_stride,
            data: self.data@,
        }
    }
}

impl PixelBuffer {
    /// Whether the buffer's storage fits its shape. Every buffer that `new`
    /// returns is well formed, and every method keeps it so.
    pub open spec fn wf(&self) -> bool {
        self@.wf()
    }

    /// Whether a shape and a storage length fit together.
    pub open spec fn shape_fits(width: u32, height: u32, row_stride: usize, len: nat) -> bool {
        row_stride >= width * 3 && len == row_stride * height
    }

    /// Wraps `data` as an image of the given shape.
    ///
    /// Fails with `ShapeMismatch` exactly when a row would be shorter than
    /// its pixels or `data` does not hold exactly `height` rows.
    pub fn new(width: u32, height: u32, row_stride: usize, data: Vec<u8>) -> (result: Result<
        PixelBuffer,
        TransformError,
    >)
        ensures
            Self::shape_fits(width, height, row_stride, data@.len()) ==> result.is_ok()
                && result.unwrap().wf() && result.unwrap()@ == (PixelBufferView {
                width,
                height,
                row_stride,
                data: data@,
            }),
            !Self::shape_fits(width, height, row_stride, data@.len()) ==> result == Err::<
                PixelBuffer,
                TransformError,
            >(TransformError::ShapeMismatch),
    {
        let active: u64 = width as u64 * 3;
        if (row_stride as u64) < active {
            return Err(TransformError::ShapeMismatch);
        }
        assert(row_stride * height <= 0xffff_ffff_ffff_ffff * 0xffff_ffff) by (nonlinear_arith)
            requires
                row_stride <= 0xffff_ffff_ffff_ffff,
                height <= 0xffff_ffff,
        ;
        let total: u128 = row_stride as u128 * height as u128;
        if data.len() as u128 != total {
            return Err(TransformError::ShapeMismatch);
        }
        Ok(PixelBuffer { width, height, row_stride, data })
    }

    /// Number of rows.
    pub fn rows(&self) -> (rows: u32)
        ensures
            rows == self@.height,
    {
        self.height
    }

    /// Number of pixels per row.
    pub fn cols(&self) -> (cols: u32)
        ensures
            cols == self@.width,
    {
        self.width
    }

    /// Number of bytes per pixel.
    pub fn channels(&self) -> (channels: u8)
        ensures
            channels == 3,
    {
        CHANNELS
    }

    /// Number of bytes from the start of one row to the start of the next.
    pub fn row_stride(&self) -> (stride: usize)
        ensures
            stride == self@.row_stride,
    {
        self.row_stride
    }

    /// Number of bytes of a row that carry pixel data.
    pub fn active_len(&self) -> (len: usize)
        requires
            self.wf(),
        ensures
            len == self@.active_len(),
    {
        self.width as usize * 3
    }

    /// Tells whether two buffers have the same width, height and row stride.
    pub fn same_shape(&self, other: &PixelBuffer) -> (same: bool)
        ensures
            same == self@.same_shape(other@),
    {
        self.width == other.width && self.height == other.height && self.row_stride
            == other.row_stride
    }

    /// The whole storage, padding included.
    pub fn data(&self) -> (bytes: &[u8])
        ensures
            bytes@ == self@.data,
    {
        self.data.as_slice()
    }

    /// The pixel bytes of row `r`, without its padding; `None` exactly when
    /// there is no such row.
    pub fn row(&self, r: u32) -> (bytes: Option<&[u8]>)
        requires
            self.wf(),
        ensures
            r >= self@.height ==> bytes.is_none(),
            r < self@.height ==> bytes.is_some() && bytes.unwrap()@ == self@.row(r as int),
    {
        if r >= self.height {
            return None;
        }
        assert((r + 1) * self.row_stride <= self.height * self.row_stride) by (nonlinear_arith)
            requires
                r + 1 <= self.height,
                self.row_stride >= 0,
        ;
        assert((r + 1) * self.row_stride == r * self.row_stride + self.row_stride)
            by (nonlinear_arith);
        assert(self.row_stride * self.height == self.height * self.row_stride)
            by (nonlinear_arith);
        let total: usize = self.data.len();
        assert(r * self.row_stride + self.row_stride <= total);
        let start: usize = r as usize * self.row_stride;
        let end: usize = start + self.width as usize * 3;
        Some(vstd::slice::slice_subrange(self.data.as_slice(), start, end))
    }

    /// The byte of channel `channel` of the pixel in row `row` and column
    /// `col`; `None` exactly when one of the three is out of range.
    pub fn get(&self, row: u32, col: u32, channel: u8) -> (byte: Option<u8>)
        requires
            self.wf(),
        ensures
            byte.is_some() <==> row < self@.height && col < self@.width && channel < 3,
            byte.is_some() ==> byte.unwrap() == self@.data[row * self@.row_stride + col * 3
                + channel],
    {
        if row >= self.height || col >= self.width || channel >= CHANNELS {
            return None;
        }
        assert((row + 1) * self.row_stride <= self.height * self.row_stride) by (nonlinear_arith)
            requires
                row + 1 <= self.height,
                self.row_stride >= 0,
        ;
        assert((row + 1) * self.row_stride == row * self.row_stride + self.row_stride)
            by (nonlinear_arith);
        assert(self.row_stride * self.height == self.height * self.row_stride)
            by (nonlinear_arith);
        let total: usize = self.data.len();
        assert(row * self.row_stride + self.row_stride <= total);
        let index: usize = row as usize * self.row_stride + col as usize * 3 + channel as usize;
        Some(self.data[index])
    }

    /// Overwrites the byte of channel `channel` of the pixel in row `row` and
    /// column `col`. Answers `false`, and changes nothing, exactly when one
    /// of the three is out of range.
    pub fn set(&mut self, row: u32, col: u32, channel: u8, value: u8) -> (done: bool)
        requires
            old(self).wf(),
        ensures
            final(self).wf(),
            done <==> row < old(self)@.height && col < old(self)@.width && channel < 3,
            done ==> final(self)@ == old(self)@.with_data(
                old(self)@.data.update(
                    row * old(self)@.row_stride + col * 3 + channel,
                    value,
                ),
            ),
            !done ==> final(self)@ == old(self)@,
    {
        if row >= self.height || col >= self.width || channel >= CHANNELS {
            return false;
        }
        assert((row + 1) * self.row_stride <= self.height * self.row_stride) by (nonlinear_arith)
            requires
                row + 1 <= self.height,
                self.row_stride >= 0,
        ;
        assert((row + 1) * self.row_stride == row * self.row_stride + self.row_stride)
            by (nonlinear_arith);
        assert(self.row_stride * self.height == self.height * self.row_stride)
            by (nonlinear_arith);
        let total: usize = self.data.len();
        assert(row * self.row_stride + self.row_stride <= total);
        let index: usize = row as usize * self.row_stride + col as usize * 3 + channel as usize;
        self.data[index] = value;
        true
    }

    /// A buffer of the same shape whose storage is all zero.
    pub fn zeroed_like(&self) -> (blank: PixelBuffer)
        requires
            self.wf(),
        ensures
            blank.wf(),
            blank@ == self@.with_data(Seq::new(self@.data.len(), |i: int| 0u8)),
    {
        let mut data: Vec<u8> = Vec::new();
        let total: usize = self.data.len();
        let mut n: usize = 0;
        while n < total
            invariant
                n <= total,
                data@.len() == n,
                forall|i: int| 0 <= i < n ==> data@[i] == 0u8,
            decreases total - n,
        {
            data.push(0u8);
            n += 1;
        }
        assert(data@ =~= Seq::new(self@.data.len(), |i: int| 0u8));
        PixelBuffer { width: self.width, height: self.height, row_stride: self.row_stride, data }
    }

    /// Gives up the buffer for its storage.
    pub fn into_data(self) -> (bytes: Vec<u8>)
        ensures
            bytes@ == self@.data,
    {
        self.data
    }

    /// The storage, for writing. The shape stays as it is; whoever writes
    /// keeps the length.
    pub(crate) fn data_mut(&mut self) -> (bytes: &mut Vec<u8>)
        ensures
            bytes@ == old(self)@.data,
            final(self)@ == old(self)@.with_data(final(bytes)@),
    {
        &mut self.data
    }
}

/// The byte `k` places into row `r` lies at offset `r * stride + k`: that
/// offset divided by the stride gives the row, and the remainder the place.
pub proof fn lemma_offset_in_row(r: int, stride: int, k: int)
    requires
        0 <= r,
        0 <= k < stride,
    ensures
        (r * stride + k) % stride == k,
        (r * stride + k) / stride == r,
{
    lemma_fundamental_div_mod_converse(r * stride + k, stride, r, k);
}

} // verus!
