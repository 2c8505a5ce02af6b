//! Flats: 64 × 64 tiles of palette indices, stored column by column.
use crate::error::GfxError;
use crate::raster::rows_view;
use vstd::prelude::*;

verus! {

/// The side of a flat.
pub const FLAT_SIZE: usize = 64;

/// The pixel at `(row, col)` of a flat: byte `col * 64 + row`.
pub open spec fn flat_pixel(d: Seq<u8>, row: int, col: int) -> u8 {
    d[col * 64 + row]
}

/// The rows of a flat.
pub open spec fn flat_rows(d: Seq<u8>) -> Seq<Seq<u8>> {
    Seq::new(64, |row: int| Seq::new(64, |col: int| flat_pixel(d, row, col)))
}

/// A flat viewed in a borrowed buffer of exactly 4096 bytes.
pub struct Flat<'a> {
    pixels: &'a [u8],
}

impl<'a> Flat<'a> {
    /// The bytes of the flat.
    pub closed spec fn bytes(&self) -> Seq<u8> {
        self.pixels@
    }

    #[verifier::type_invariant]
    closed spec fn inv(&self) -> bool {
        self.pixels@.len() == 4096
    }

    /// Views `pixels` as a flat; fails unless it holds exactly 4096 bytes.
    pub fn new(pixels: &'a [u8]) -> (r: Result<Flat<'a>, GfxError>)
        ensures
            match r {
                Ok(f) => pixels@.len() == 4096 && f.bytes() == pixels@,
                Err(e) => pixels@.len() != 4096 && e == GfxError::MalformedAsset,
            },
    {
        if pixels.len() != FLAT_SIZE * FLAT_SIZE {
            return Err(GfxError::MalformedAsset);
        }
        Ok(Flat { pixels })
    }

    /// The pixel at `(row, col)`.
    pub fn pixel(&self, row: usize, col: usize) -> (r: u8)
        requires
            row < 64,
            col < 64,
        ensures
            r == flat_pixel(self.bytes(), row as int, col as int),
    {
        proof {
            use_type_invariant(self);
        }
        self.pixels[col * FLAT_SIZE + row]
    }

    /// The whole flat as 64 rows of 64 pixels.
    pub fn view(&self) -> (r: Vec<Vec<u8>>)
        ensures
            rows_view(r@) == flat_rows(self.bytes()),
    {
        proof {
            use_type_invariant(self);
        }
        let ghost target = flat_rows(self.bytes());
        let mut rows: Vec<Vec<u8>> = Vec::new();
        let mut row: usize = 0;
        while row < FLAT_SIZE
            invariant
                self.bytes().len() == 4096,
                target == flat_rows(self.bytes()),
                row <= 64,
                rows@.len() == row,
                rows_view(rows@) == target.subrange(0, row as int),
            decreases 64 - row,
        {
            let mut line: Vec<u8> = Vec::new();
            let mut col: usize = 0;
            while col < FLAT_SIZE
                invariant
                    self.bytes().len() == 4096,
                    target == flat_rows(self.bytes()),
                    row < 64,
                    col <= 64,
                    line@ == target[row as int].subrange(0, col as int),
                decreases 64 - col,
            {
                line.push(self.pixel(row, col));
                assert(line@ =~= target[row as int].subrange(0, col as int + 1));
                col += 1;
            }
            assert(line@ =~= target[row as int]);
            let ghost before = rows@;
            rows.push(line);
            proof {
                assert forall|i: int| 0 <= i <= row implies #[trigger] rows_view(rows@)[i]
                    == target[i] by {
                    if i < row {
                        assert(rows@[i] == before[i]);
                        assert(rows_view(before)[i] == target.subrange(0, row as int)[i]);
                    }
                }
                assert(rows_view(rows@) =~= target.subrange(0, row as int + 1));
            }
            row += 1;
        }
        assert(rows_view(rows@) =~= target);
        rows
    }
}

} // verus!
