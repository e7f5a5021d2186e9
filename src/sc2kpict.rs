use crate::bytes::{be_u16, u16_at};
use crate::error::SC2KError;
use crate::sc2kfile::SC2KFileChunk;
use vstd::prelude::*;

verus! {

/// Bytes that the picture header and its two sizes take.
pub const PICT_HEADER_LEN: usize = 9;

/// One row of picture pixels.
#[derive(Debug)]
pub struct SC2KPictRow {
    pub data: Vec<u8>,
}

/// SimCity 2000 scenario picture: the header and the declared size. Pixel
/// rows are not decoded and stay empty.
#[derive(Debug)]
pub struct SC2KPict {
    pub header: Vec<u8>,
    pub x_size: u16,
    pub y_size: u16,
    pub rows: Vec<SC2KPictRow>,
}

/// The picture as values: header bytes, sizes, and pixel rows.
pub struct PictView {
    pub header: Seq<u8>,
    pub x_size: u16,
    pub y_size: u16,
    pub rows: Seq<Seq<u8>>,
}

impl View for SC2KPict {
    type V = PictView;

    open spec fn view(&self) -> PictView {
        PictView {
            header: self.header@,
            x_size: self.x_size,
            y_size: self.y_size,
            rows: self.rows@.map_values(|r: SC2KPictRow| r.data@),
        }
    }
}

/// The picture before any PICT chunk: no header, zero sizes, no rows.
pub open spec fn empty_pict() -> PictView {
    PictView { header: Seq::empty(), x_size: 0, y_size: 0, rows: Seq::empty() }
}

/// What a PICT payload gives: its first four bytes as the header, the
/// big-endian words at bytes 5 and 7 as width and height, and no rows; or
/// `ShortRecord` where the payload ends before them.
pub open spec fn pict_result(d: Seq<u8>) -> Result<PictView, SC2KError> {
    if d.len() < PICT_HEADER_LEN {
        Err(SC2KError::ShortRecord)
    } else {
        Ok(
            PictView {
                header: d.subrange(0, 4),
                x_size: be_u16(d, 5),
                y_size: be_u16(d, 7),
                rows: Seq::empty(),
            },
        )
    }
}

impl Default for SC2KPict {
    fn default() -> (r: SC2KPict)
        ensures
            r@ == empty_pict(),
    {
        let r = SC2KPict { header: Vec::new(), x_size: 0, y_size: 0, rows: Vec::new() };
        assert(r@.rows =~= Seq::<Seq<u8>>::empty());
        r
    }
}

impl SC2KPict {
    /// Extracts the picture header and size from a PICT chunk.
    ///
    /// # Errors
    ///
    /// * `ShortRecord` when the payload ends before the two sizes; the
    ///   picture is then left as it was.
    pub fn extract_data(&mut self, chunk: &SC2KFileChunk) -> (r: Result<(), SC2KError>)
        ensures
            match pict_result(chunk.data@) {
                Ok(p) => r is Ok && final(self)@ == p,
                Err(e) => r == Err::<(), SC2KError>(e) && final(self)@ == old(self)@,
            },
    {
        let data = chunk.data.as_slice();
        if data.len() < PICT_HEADER_LEN {
            return Err(SC2KError::ShortRecord);
        }
        self.header = vstd::slice::slice_to_vec(vstd::slice::slice_subrange(data, 0, 4));
        self.x_size = u16_at(data, 5);
        self.y_size = u16_at(data, 7);
        self.rows = Vec::new();
        assert(self@.rows =~= Seq::<Seq<u8>>::empty());
        Ok(())
    }
}

} // verus!
