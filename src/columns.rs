//! Drawing flats and sprites one output column at a time, stretched
//! vertically by an exact fraction.
use crate::error::GfxError;
use crate::flat::{flat_pixel, Flat};
use crate::raster::{ratio_div_trunc, ratio_mul_ceil, Fraction};
use crate::sprite::{
    column_offset, column_posts, lemma_posts_bounded, posts_from, span_models, sprite_width, Span,
    Sprite,
};
use crate::sprite_canvas::posts_pixel;
use vstd::prelude::*;

verus! {

/// A graphic that can be drawn column by column.
pub enum Graphic<'a> {
    Tile(Flat<'a>),
    Sprite(Sprite<'a>),
}

/// The source row that output row `y` shows at vertical scale
/// `numer / denom`.
pub open spec fn source_row(y: int, numer: int, denom: int) -> int {
    (y * denom) / numer
}

impl<'a> Graphic<'a> {
    /// The number of columns.
    pub open spec fn columns(&self) -> int {
        match self {
            Graphic::Tile(_) => 64,
            Graphic::Sprite(s) => sprite_width(s@),
        }
    }

    /// Column `col` exists and can be read inside its buffer.
    pub open spec fn column_readable(&self, col: int) -> bool {
        &&& 0 <= col < self.columns()
        &&& match self {
            Graphic::Tile(_) => true,
            Graphic::Sprite(s) => column_posts(s@, col) is Some,
        }
    }

    /// The pixel of column `col` at source row `row`, where there is one.
    pub open spec fn source_pixel(&self, col: int, row: int) -> Option<u8> {
        match self {
            Graphic::Tile(f) => if 0 <= row < 64 {
                Some(flat_pixel(f.bytes(), row, col))
            } else {
                None
            },
            Graphic::Sprite(s) => posts_pixel(column_posts(s@, col).unwrap(), row),
        }
    }

    /// How much taller than wide a source pixel is meant to be shown: square
    /// for flats; for sprites, the 320 × 200 design resolution shown at 4:3,
    /// which is 6/5.
    pub fn pixel_aspect_ratio(&self) -> (r: Fraction)
        ensures
            r == (match self {
                Graphic::Tile(_) => Fraction { numer: 1, denom: 1 },
                Graphic::Sprite(_) => Fraction { numer: 6, denom: 5 },
            }),
    {
        match self {
            Graphic::Tile(_) => Fraction::new(1, 1),
            Graphic::Sprite(_) => Fraction::new(6, 5),
        }
    }

    /// Draws column `index` into `out`, one entry per output row, stretched by
    /// `vertical_scale`: output row `y` shows source row
    /// `floor(y / vertical_scale)`. Rows with no source pixel (below a flat,
    /// or between a sprite's posts) keep their value. Fails, leaving `out`
    /// unchanged, exactly when the column does not exist or cannot be read.
    pub fn draw_column(&self, index: usize, out: &mut Vec<u8>, vertical_scale: Fraction) -> (r:
        Result<(), GfxError>)
        requires
            vertical_scale.numer > 0,
            vertical_scale.denom > 0,
            old(out)@.len() * vertical_scale.denom <= i32::MAX,
            510 * vertical_scale.numer + vertical_scale.denom <= i32::MAX,
        ensures
            final(out)@.len() == old(out)@.len(),
            r is Ok <==> self.column_readable(index as int),
            r is Err ==> r->Err_0 == GfxError::MalformedAsset && final(out)@ == old(out)@,
            r is Ok ==> forall|y: int|
                0 <= y < old(out)@.len() ==> #[trigger] final(out)@[y] == match self.source_pixel(
                    index as int,
                    source_row(y, vertical_scale.numer as int, vertical_scale.denom as int),
                ) {
                    Some(v) => v,
                    None => old(out)@[y],
                },
    {
        let num = vertical_scale.numer;
        let den = vertical_scale.denom;
        let ghost o = out@;
        match self {
            Graphic::Tile(flat) => {
                if index >= 64 {
                    return Err(GfxError::MalformedAsset);
                }
                let n = out.len();
                let mut y: usize = 0;
                while y < n
                    invariant
                        n == out@.len() == o.len(),
                        n * den <= i32::MAX,
                        num > 0,
                        den > 0,
                        index < 64,
                        *self == Graphic::Tile(*flat),
                        y <= n,
                        forall|j: int|
                            0 <= j < n ==> #[trigger] out@[j] == if j < y {
                                match self.source_pixel(index as int, source_row(j, num as int, den as int)) {
                                    Some(v) => v,
                                    None => o[j],
                                }
                            } else {
                                o[j]
                            },
                    decreases n - y,
                {
                    assert(y <= y * den <= n * den) by (nonlinear_arith)
                        requires
                            y <= n,
                            den > 0,
                    ;
                    let row = ratio_div_trunc(y as i32, num, den);
                    assert(row >= 0) by (nonlinear_arith)
                        requires
                            row == (y * den) / (num as int),
                            y >= 0,
                            den > 0,
                            num > 0,
                    ;
                    if row < 64 {
                        let v = flat.pixel(row as usize, index);
                        out.set(y, v);
                    }
                    y += 1;
                }
            },
            Graphic::Sprite(sprite) => {
                if index > u32::MAX as usize {
                    return Err(GfxError::MalformedAsset);
                }
                let spans = match sprite.spans(index as u32) {
                    Ok(v) => v,
                    Err(e) => {
                        return Err(e);
                    },
                };
                let ghost ps = span_models(spans@);
                proof {
                    lemma_posts_bounded(sprite@, column_offset(sprite@, index as int));
                    assert(ps == posts_from(sprite@, column_offset(sprite@, index as int)).unwrap());
                    assert forall|j: int| 0 <= j < spans.len() implies (#[trigger] spans@[j]).top < 255
                        && spans@[j].pixels@.len() <= 255 by {
                        assert(ps[j] == spans@[j].model());
                    }
                }
                let n = out.len();
                let mut k: usize = 0;
                while k < spans.len()
                    invariant
                        n == out@.len() == o.len(),
                        n * den <= i32::MAX,
                        510 * num + den <= i32::MAX,
                        num > 0,
                        den > 0,
                        *self == Graphic::Sprite(*sprite),
                        column_posts(sprite@, index as int) == Some(ps),
                        ps == span_models(spans@),
                        forall|j: int|
                            0 <= j < spans.len() ==> (#[trigger] spans@[j]).top < 255
                                && spans@[j].pixels@.len() <= 255,
                        k <= spans.len(),
                        forall|j: int|
                            0 <= j < n ==> #[trigger] out@[j] == match posts_pixel(
                                ps.subrange(0, k as int),
                                source_row(j, num as int, den as int),
                            ) {
                                Some(v) => v,
                                None => o[j],
                            },
                    decreases spans.len() - k,
                {
                    let span: &Span = &spans[k];
                    assert(ps[k as int] == span.model());
                    let top = span.top as i32;
                    let len = span.pixels.len() as i32;
                    assert(top * num + den <= 510 * num + den) by (nonlinear_arith)
                        requires
                            0 <= top < 255,
                            num > 0,
                    ;
                    assert((top + len) * num + den <= 510 * num + den) by (nonlinear_arith)
                        requires
                            0 <= top < 255,
                            0 <= len <= 255,
                            num > 0,
                    ;
                    let lo = ratio_mul_ceil(top, num, den);
                    let hi = ratio_mul_ceil(top + len, num, den);
                    let ghost before = out@;
                    let mut y: i32 = lo;
                    assert(lo >= 0) by (nonlinear_arith)
                        requires
                            lo == (top * num + den - 1) / (den as int),
                            top >= 0,
                            num > 0,
                            den > 0,
                    ;
                    while y < hi && (y as usize) < n
                        invariant
                            n == out@.len(),
                            n * den <= i32::MAX,
                            num > 0,
                            den > 0,
                            0 <= lo <= y,
                            y <= hi || y == lo,
                            lo == (top * num + den - 1) / (den as int),
                            hi == ((top + len) * num + den - 1) / (den as int),
                            span.top == top,
                            span.pixels@.len() == len,
                            0 <= top < 255,
                            0 <= len <= 255,
                            forall|j: int|
                                0 <= j < n ==> #[trigger] out@[j] == if lo <= j < y {
                                    span.pixels@[source_row(j, num as int, den as int) - top]
                                } else {
                                    before[j]
                                },
                        decreases hi - y,
                    {
                        assert(y * den <= n * den) by (nonlinear_arith)
                            requires
                                0 <= y < n,
                                den > 0,
                        ;
                        let row = ratio_div_trunc(y, num, den);
                        proof {
                            lemma_row_in_post(y as int, top as int, len as int, num as int, den as int);
                        }
                        let v = span.pixels[(row - top) as usize];
                        out.set(y as usize, v);
                        y += 1;
                    }
                    proof {
                        let pre = ps.subrange(0, k as int);
                        let cur = ps.subrange(0, k as int + 1);
                        assert(cur.drop_last() =~= pre);
                        assert(cur.last() == span.model());
                        assert forall|j: int| 0 <= j < n implies #[trigger] posts_pixel(
                            cur,
                            source_row(j, num as int, den as int),
                        ) == if lo <= j < hi {
                            Some(span.pixels@[source_row(j, num as int, den as int) - top])
                        } else {
                            posts_pixel(pre, source_row(j, num as int, den as int))
                        } by {
                            lemma_post_rows(j, top as int, len as int, num as int, den as int);
                        }
                    }
                    k += 1;
                }
                proof {
                    assert(ps.subrange(0, spans@.len() as int) =~= ps);
                }
            },
        }
        Ok(())
    }
}

/// Output rows from `ceil(top * s)` up to `ceil((top + len) * s)` are exactly
/// those that map back into the post, for a scale `s = num / den`.
proof fn lemma_post_rows(y: int, top: int, len: int, num: int, den: int)
    requires
        0 <= y,
        0 <= top,
        0 <= len,
        num > 0,
        den > 0,
    ensures
        ((top * num + den - 1) / den <= y < ((top + len) * num + den - 1) / den) <==> (top <= (y
            * den) / num < top + len),
{
    assert((top * num + den - 1) / den <= y <==> top * num <= y * den) by (nonlinear_arith)
        requires
            top >= 0,
            num > 0,
            den > 0,
            y >= 0,
    ;
    assert(y < ((top + len) * num + den - 1) / den <==> y * den < (top + len) * num) by (nonlinear_arith)
        requires
            top + len >= 0,
            num > 0,
            den > 0,
            y >= 0,
    ;
    assert(top * num <= y * den <==> top <= (y * den) / num) by (nonlinear_arith)
        requires
            num > 0,
            y * den >= 0,
            top >= 0,
    ;
    assert(y * den < (top + len) * num <==> (y * den) / num < top + len) by (nonlinear_arith)
        requires
            num > 0,
            y * den >= 0,
            top + len >= 0,
    ;
}

proof fn lemma_row_in_post(y: int, top: int, len: int, num: int, den: int)
    requires
        0 <= y,
        0 <= top,
        0 <= len,
        num > 0,
        den > 0,
        (top * num + den - 1) / den <= y < ((top + len) * num + den - 1) / den,
    ensures
        top <= (y * den) / num < top + len,
{
    lemma_post_rows(y, top, len, num, den);
}

} // verus!
