//! A pixel and mask canvas onto which sprites are stamped, and which can be
//! encoded back into a sprite.
use crate::planes::{columns_of_len, filled, mask_cells, pixel_cells, MaskPlane, PixelPlane};
use crate::sprite::{
    column_offset, column_posts, lemma_posts_bounded, posts_from, span_models, sprite_left, sprite_ok, sprite_top, sprite_width, Span, Sprite,
};
use crate::bytes::{push_u16, push_u32, u16_bytes, u32_bytes};
use crate::error::GfxError;
use std::ops::Range;
use vstd::prelude::*;

verus! {

/// What a canvas holds: its size, and its pixel and mask planes, one
/// sequence per column `x`, indexed by `y`.
pub struct CanvasView {
    pub width: int,
    pub height: int,
    pub pixels: Seq<Seq<u8>>,
    pub mask: Seq<Seq<bool>>,
}

/// The planes have the canvas's size, and a pixel is zero wherever the mask
/// is clear.
pub open spec fn canvas_ok(c: CanvasView) -> bool {
    &&& 0 <= c.width <= u16::MAX
    &&& 0 <= c.height <= u16::MAX
    &&& c.pixels.len() == c.width
    &&& c.mask.len() == c.width
    &&& columns_of_len(c.pixels, c.height)
    &&& columns_of_len(c.mask, c.height)
    &&& forall|x: int, y: int|
        0 <= x < c.width && 0 <= y < c.height && !#[trigger] c.mask[x][y] ==> c.pixels[x][y] == 0
}

/// A fresh canvas: every pixel zero and every mask bit clear.
pub open spec fn blank(width: int, height: int) -> CanvasView {
    CanvasView {
        width,
        height,
        pixels: filled(width, height, 0u8),
        mask: filled(width, height, false),
    }
}

/// The pixel that the last of `posts` covering row `y` holds there, if any.
pub open spec fn posts_pixel(posts: Seq<(int, Seq<u8>)>, y: int) -> Option<u8>
    decreases posts.len(),
{
    if posts.len() == 0 {
        None
    } else {
        let p = posts.last();
        if p.0 <= y < p.0 + p.1.len() {
            Some(p.1[y - p.0])
        } else {
            posts_pixel(posts.drop_last(), y)
        }
    }
}

/// The pixel that sprite `d`, with its hotspot placed at `(px, py)`, puts at
/// canvas position `(x, y)`, if any.
pub open spec fn stamp_at(d: Seq<u8>, px: int, py: int, x: int, y: int) -> Option<u8> {
    let sx = x - (px - sprite_left(d));
    let sy = y - (py - sprite_top(d));
    if 0 <= sx < sprite_width(d) {
        posts_pixel(column_posts(d, sx).unwrap(), sy)
    } else {
        None
    }
}

/// `c` after stamping sprite `d` with its hotspot at `(px, py)`: each covered
/// position takes the sprite's pixel and has its mask bit set; every other
/// position is unchanged.
pub open spec fn drawn(c: CanvasView, d: Seq<u8>, px: int, py: int) -> CanvasView {
    CanvasView {
        width: c.width,
        height: c.height,
        pixels: Seq::new(
            c.width as nat,
            |x: int|
                Seq::new(
                    c.height as nat,
                    |y: int|
                        match stamp_at(d, px, py, x, y) {
                            Some(v) => v,
                            None => c.pixels[x][y],
                        },
                ),
        ),
        mask: Seq::new(
            c.width as nat,
            |x: int| Seq::new(c.height as nat, |y: int| stamp_at(d, px, py, x, y) is Some || c.mask[x][y]),
        ),
    }
}

/// No post of `posts` covers a row outside `0 .. 510` when every post starts
/// above row 255 and holds at most 255 pixels.
proof fn lemma_posts_pixel_far(posts: Seq<(int, Seq<u8>)>, y: int)
    requires
        forall|k: int|
            0 <= k < posts.len() ==> 0 <= (#[trigger] posts[k]).0 < 255 && posts[k].1.len() <= 255,
        y < 0 || y >= 510,
    ensures
        posts_pixel(posts, y) is None,
    decreases posts.len(),
{
    if posts.len() > 0 {
        let rest = posts.drop_last();
        assert forall|k: int| 0 <= k < rest.len() implies 0 <= (#[trigger] rest[k]).0 < 255
            && rest[k].1.len() <= 255 by {
            assert(rest[k] == posts[k]);
        }
        lemma_posts_pixel_far(rest, y);
    }
}

/// Stamping a sprite whose columns all fall left or right of the canvas, or
/// whose posts all fall above or below it, leaves the canvas unchanged.
pub proof fn lemma_stamp_outside(c: CanvasView, d: Seq<u8>, px: int, py: int)
    requires
        canvas_ok(c),
        sprite_ok(d),
        ({
            let off_x = px - sprite_left(d);
            let off_y = py - sprite_top(d);
            ||| off_x + sprite_width(d) <= 0
            ||| off_x >= c.width
            ||| off_y + 510 <= 0
            ||| off_y >= c.height
        }),
    ensures
        drawn(c, d, px, py) == c,
{
    let r = drawn(c, d, px, py);
    assert forall|x: int, y: int| 0 <= x < c.width && 0 <= y < c.height implies stamp_at(
        d,
        px,
        py,
        x,
        y,
    ) is None by {
        let sx = x - (px - sprite_left(d));
        if 0 <= sx < sprite_width(d) {
            assert(column_posts(d, sx) is Some);
            lemma_posts_bounded(d, column_offset(d, sx));
            let ps = column_posts(d, sx).unwrap();
            assert(ps == posts_from(d, column_offset(d, sx)).unwrap());
            lemma_posts_pixel_far(ps, y - (py - sprite_top(d)));
        }
    }
    assert forall|x: int| 0 <= x < c.width implies #[trigger] r.pixels[x] =~= c.pixels[x] by {}
    assert forall|x: int| 0 <= x < c.width implies #[trigger] r.mask[x] =~= c.mask[x] by {}
    assert(r.pixels =~= c.pixels);
    assert(r.mask =~= c.mask);
}

/// Stamping keeps a canvas well formed.
pub proof fn lemma_drawn_ok(c: CanvasView, d: Seq<u8>, px: int, py: int)
    requires
        canvas_ok(c),
    ensures
        canvas_ok(drawn(c, d, px, py)),
{
}

/// The maximal runs of set bits in `m`, as half-open `(start, end)` pairs,
/// from top to bottom.
pub open spec fn runs_of(m: Seq<bool>) -> Seq<(int, int)>
    decreases m.len(),
{
    if m.len() == 0 {
        Seq::empty()
    } else {
        let r = runs_of(m.drop_last());
        let i = m.len() - 1;
        if !m[i] {
            r
        } else if i > 0 && m[i - 1] {
            r.update(r.len() - 1, (r.last().0, i + 1))
        } else {
            r.push((i, i + 1))
        }
    }
}

/// The pairs `(start, end)` of a sequence of ranges.
pub open spec fn range_pairs(v: Seq<Range<i32>>) -> Seq<(int, int)> {
    v.map_values(|r: Range<i32>| (r.start as int, r.end as int))
}

/// A run can be written as a post: its first row is below 255 (which marks
/// the end of a column) and its length fits in a byte.
pub open spec fn run_encodable(r: (int, int)) -> bool {
    r.0 < 255 && r.1 - r.0 <= 255
}

/// Every run of the mask column `m` can be written as a post.
pub open spec fn column_encodable(m: Seq<bool>) -> bool {
    forall|k: int| 0 <= k < runs_of(m).len() ==> run_encodable(#[trigger] runs_of(m)[k])
}

/// The post for run `r` of pixel column `col`: first row, length, a pad byte
/// holding the length again, the pixels, and a zero pad byte.
pub open spec fn post_bytes(col: Seq<u8>, r: (int, int)) -> Seq<u8> {
    seq![r.0 as u8, (r.1 - r.0) as u8, (r.1 - r.0) as u8] + col.subrange(r.0, r.1) + seq![0u8]
}

/// The posts for the runs `rs`, in order.
pub open spec fn posts_bytes(col: Seq<u8>, rs: Seq<(int, int)>) -> Seq<u8>
    decreases rs.len(),
{
    if rs.len() == 0 {
        Seq::empty()
    } else {
        posts_bytes(col, rs.drop_last()) + post_bytes(col, rs.last())
    }
}

/// One encoded column: a post per run of its mask, then the terminator.
pub open spec fn column_bytes(col: Seq<u8>, m: Seq<bool>) -> Seq<u8> {
    posts_bytes(col, runs_of(m)) + seq![255u8]
}

/// The encoded columns `0 .. n` of `c`, one after another.
pub open spec fn columns_bytes(c: CanvasView, n: int) -> Seq<u8>
    decreases n,
{
    if n <= 0 {
        Seq::empty()
    } else {
        columns_bytes(c, n - 1) + column_bytes(c.pixels[n - 1], c.mask[n - 1])
    }
}

/// Where the post data of an encoded canvas starts.
pub open spec fn encoded_data_start(c: CanvasView) -> int {
    8 + 4 * c.width
}

/// The directory entries of columns `0 .. n`: absolute offsets of each
/// column's posts.
pub open spec fn directory_bytes(c: CanvasView, n: int) -> Seq<u8>
    decreases n,
{
    if n <= 0 {
        Seq::empty()
    } else {
        directory_bytes(c, n - 1) + u32_bytes(encoded_data_start(c) + columns_bytes(c, n - 1).len())
    }
}

/// Every run of every column can be written as a post, and the whole encoding
/// is addressable by 32-bit offsets.
pub open spec fn canvas_encodable(c: CanvasView) -> bool {
    &&& forall|x: int| 0 <= x < c.width ==> column_encodable(#[trigger] c.mask[x])
    &&& encoded_data_start(c) + columns_bytes(c, c.width).len() <= u32::MAX
}

/// The sprite encoding of `c`: a header with the canvas's size and a zero
/// hotspot, the column directory, then the columns.
pub open spec fn encoded(c: CanvasView) -> Seq<u8> {
    u16_bytes(c.width) + u16_bytes(c.height) + u16_bytes(0) + u16_bytes(0) + directory_bytes(
        c,
        c.width,
    ) + columns_bytes(c, c.width)
}

/// A mask ending in a set bit ends in a run that reaches its end.
pub(crate) proof fn lemma_runs_last(m: Seq<bool>)
    requires
        m.len() > 0,
        m.last(),
    ensures
        runs_of(m).len() > 0,
        runs_of(m).last().1 == m.len(),
    decreases m.len(),
{
    let i = m.len() - 1;
    if i > 0 && m[i - 1] {
        let p = m.drop_last();
        lemma_runs_last(p);
    }
}

/// Every run lies inside the mask and is not empty.
pub(crate) proof fn lemma_runs_bounds(m: Seq<bool>)
    ensures
        forall|k: int|
            0 <= k < runs_of(m).len() ==> 0 <= (#[trigger] runs_of(m)[k]).0 < runs_of(m)[k].1 <= m.len(),
    decreases m.len(),
{
    if m.len() > 0 {
        let p = m.drop_last();
        lemma_runs_bounds(p);
        let i = m.len() - 1;
        let r = runs_of(p);
        if m[i] && i > 0 && m[i - 1] {
            lemma_runs_last(p);
            assert forall|k: int| 0 <= k < r.len() implies 0 <= (#[trigger] runs_of(m)[k]).0 < runs_of(m)[k].1 <= m.len() by {
                if k < r.len() - 1 {
                    assert(runs_of(m)[k] == r[k]);
                }
            }
        } else if m[i] {
            assert forall|k: int| 0 <= k < runs_of(m).len() implies 0 <= (#[trigger] runs_of(m)[k]).0 < runs_of(m)[k].1 <= m.len() by {
                if k < r.len() {
                    assert(runs_of(m)[k] == r[k]);
                }
            }
        }
    }
}

/// Encoded prefixes grow with the number of columns.
pub(crate) proof fn lemma_columns_bytes_grow(c: CanvasView, n: int, k: int)
    requires
        0 <= n <= k,
    ensures
        columns_bytes(c, n).len() <= columns_bytes(c, k).len(),
    decreases k - n,
{
    if n < k {
        lemma_columns_bytes_grow(c, n, k - 1);
    }
}

/// The runs of set bits in `buf`.
fn find_spans(buf: &[bool]) -> (r: Vec<Range<i32>>)
    requires
        buf@.len() <= i32::MAX,
    ensures
        range_pairs(r@) == runs_of(buf@),
{
    let mut spans: Vec<Range<i32>> = Vec::new();
    let mut i: usize = 0;
    while i < buf.len()
        invariant
            i <= buf@.len() <= i32::MAX,
            range_pairs(spans@) == runs_of(buf@.subrange(0, i as int)),
        decreases buf@.len() - i,
    {
        let ghost pre = buf@.subrange(0, i as int);
        let ghost cur = buf@.subrange(0, i as int + 1);
        assert(cur.drop_last() =~= pre);
        if buf[i] {
            if i > 0 && buf[i - 1] {
                proof {
                    lemma_runs_last(pre);
                }
                let last = spans.len() - 1;
                let start = spans[last].start;
                spans[last] = start..(i + 1) as i32;
                assert(range_pairs(spans@) =~= runs_of(cur));
            } else {
                spans.push(i as i32..(i + 1) as i32);
                assert(range_pairs(spans@) =~= runs_of(cur));
            }
        }
        i += 1;
    }
    assert(buf@.subrange(0, buf@.len() as int) =~= buf@);
    spans
}

/// The rows of a `width × height` plane held as columns.
pub open spec fn transposed<T>(s: Seq<Seq<T>>, width: int, height: int) -> Seq<Seq<T>> {
    Seq::new(height as nat, |y: int| Seq::new(width as nat, |x: int| s[x][y]))
}

/// A canvas of fixed size holding a pixel plane and a mask plane.
pub struct SpriteCanvas {
    width: u16,
    height: u16,
    pixels: PixelPlane,
    mask: MaskPlane,
}

impl View for SpriteCanvas {
    type V = CanvasView;

    closed spec fn view(&self) -> CanvasView {
        CanvasView {
            width: self.width as int,
            height: self.height as int,
            pixels: pixel_cells(self.pixels),
            mask: mask_cells(self.mask),
        }
    }
}

impl SpriteCanvas {
    pub open spec fn wf(&self) -> bool {
        canvas_ok(self@)
    }

    /// A canvas of the given size with every pixel zero and every mask bit
    /// clear. The number of cells must fit in an `isize`, as for any
    /// allocation.
    pub fn new(width: u16, height: u16) -> (c: SpriteCanvas)
        requires
            width * height <= isize::MAX,
        ensures
            c.wf(),
            c@ == blank(width as int, height as int),
    {
        let c = SpriteCanvas {
            width,
            height,
            pixels: PixelPlane::zeros(width as usize, height as usize),
            mask: MaskPlane::cleared(width as usize, height as usize),
        };
        assert(c@ =~= blank(width as int, height as int));
        c
    }

    pub fn width(&self) -> (r: u16)
        ensures
            r == self@.width,
    {
        self.width
    }

    pub fn height(&self) -> (r: u16)
        ensures
            r == self@.height,
    {
        self.height
    }

    /// Stamps `sprite` with its hotspot at `(pos_x, pos_y)`. Columns and rows
    /// that fall outside the canvas are clipped; later posts of a column
    /// overwrite earlier ones. Fails, leaving the canvas unchanged, exactly
    /// when some column of the sprite cannot be read inside its buffer.
    pub fn draw_patch(&mut self, pos_x: i16, pos_y: i16, sprite: &Sprite) -> (r: Result<
        (),
        GfxError,
    >)
        requires
            old(self).wf(),
        ensures
            final(self).wf(),
            match r {
                Ok(_) => sprite_ok(sprite@) && final(self)@ == drawn(
                    old(self)@,
                    sprite@,
                    pos_x as int,
                    pos_y as int,
                ),
                Err(e) => !sprite_ok(sprite@) && e == GfxError::MalformedAsset && final(self)@
                    == old(self)@,
            },
    {
        self.draw_at(pos_x as i32, pos_y as i32, sprite)
    }

    /// Stamps `sprite` with its hotspot at `(pos_x, pos_y)`, as
    /// [`SpriteCanvas::draw_patch`] does, for positions of any `i32`.
    pub fn draw_at(&mut self, pos_x: i32, pos_y: i32, sprite: &Sprite) -> (r: Result<
        (),
        GfxError,
    >)
        requires
            old(self).wf(),
        ensures
            final(self).wf(),
            match r {
                Ok(_) => sprite_ok(sprite@) && final(self)@ == drawn(
                    old(self)@,
                    sprite@,
                    pos_x as int,
                    pos_y as int,
                ),
                Err(e) => !sprite_ok(sprite@) && e == GfxError::MalformedAsset && final(self)@
                    == old(self)@,
            },
    {
        match sprite.validate() {
            Ok(_) => {
                self.stamp(pos_x, pos_y, sprite);
                Ok(())
            },
            Err(e) => Err(e),
        }
    }

    /// Stamps a sprite whose columns have all been checked.
    fn stamp(&mut self, pos_x: i32, pos_y: i32, sprite: &Sprite)
        requires
            old(self).wf(),
            sprite_ok(sprite@),
        ensures
            final(self).wf(),
            final(self)@ == drawn(old(self)@, sprite@, pos_x as int, pos_y as int),
    {
        let ghost d = sprite@;
        let ghost c0 = self@;
        let ghost target = drawn(c0, d, pos_x as int, pos_y as int);
        let (top, left) = sprite.origin();
        let off_x: i64 = pos_x as i64 - left as i64;
        let off_y: i64 = pos_y as i64 - top as i64;
        let x_start: i64 = if off_x >= 0 { off_x } else { 0 };
        let x_end: i64 = if sprite.width() as i64 + off_x <= self.width as i64 {
            sprite.width() as i64 + off_x
        } else {
            self.width as i64
        };
        let mut x: i64 = x_start;
        assert forall|cx: int, cy: int| 0 <= cx < x && cx < c0.width && 0 <= cy < c0.height implies
            target.pixels[cx][cy] == c0.pixels[cx][cy] && target.mask[cx][cy] == c0.mask[cx][cy] by {
            assert(stamp_at(d, pos_x as int, pos_y as int, cx, cy) is None);
        }
        while x < x_end
            invariant
                self.width == c0.width,
                self.height == c0.height,
                canvas_ok(self@),
                0 <= x_start <= x,
                x_end <= c0.width,
                x_start == if off_x >= 0 { off_x as int } else { 0 },
                x_end == if sprite_width(d) + off_x <= c0.width { sprite_width(d) + off_x } else { c0.width as int },
                off_x == pos_x - sprite_left(d),
                off_y == pos_y - sprite_top(d),
                -0x1_0000_0000 <= off_y <= 0x1_0000_0000,
                d == sprite@,
                target == drawn(c0, d, pos_x as int, pos_y as int),
                canvas_ok(c0),
                sprite_ok(d),
                forall|cx: int, cy: int|
                    0 <= cx < c0.width && 0 <= cy < c0.height ==> #[trigger] self@.pixels[cx][cy]
                        == if cx < x {
                            target.pixels[cx][cy]
                        } else {
                            c0.pixels[cx][cy]
                        },
                forall|cx: int, cy: int|
                    0 <= cx < c0.width && 0 <= cy < c0.height ==> #[trigger] self@.mask[cx][cy]
                        == if cx < x {
                            target.mask[cx][cy]
                        } else {
                            c0.mask[cx][cy]
                        },
            decreases x_end - x,
        {
            let sx = x - off_x;
            assert(column_posts(d, sx as int) is Some);
            let spans = match sprite.spans(sx as u32) {
                Ok(v) => v,
                Err(_) => {
                    assert(false);
                    Vec::new()
                },
            };
            let ghost ps = span_models(spans@);
            let ghost c1 = self@;
            proof {
                lemma_posts_bounded(d, column_offset(d, sx as int));
                assert(ps == posts_from(d, column_offset(d, sx as int)).unwrap());
                assert forall|j: int| 0 <= j < spans.len() implies (#[trigger] spans@[j]).top < 255
                    && spans@[j].pixels@.len() <= 255 by {
                    assert(ps[j] == spans@[j].model());
                }
            }
            let mut k: usize = 0;
            while k < spans.len()
                invariant
                    self.width == c0.width,
                    self.height == c0.height,
                    canvas_ok(self@),
                    0 <= x < c0.width,
                    0 <= sx < sprite_width(d),
                    sx == x - off_x,
                    k <= spans.len(),
                    ps == span_models(spans@),
                    column_posts(d, sx as int) == Some(ps),
                    forall|j: int|
                        0 <= j < spans.len() ==> (#[trigger] spans@[j]).top < 255
                            && spans@[j].pixels@.len() <= 255,
                    off_y == pos_y - sprite_top(d),
                    -0x1_0000_0000 <= off_y <= 0x1_0000_0000,
                    forall|cx: int, cy: int|
                        0 <= cx < c0.width && 0 <= cy < c0.height ==> #[trigger] self@.pixels[cx][cy]
                            == if cx == x {
                                match posts_pixel(ps.subrange(0, k as int), cy - off_y) {
                                    Some(v) => v,
                                    None => c1.pixels[cx][cy],
                                }
                            } else {
                                c1.pixels[cx][cy]
                            },
                    forall|cx: int, cy: int|
                        0 <= cx < c0.width && 0 <= cy < c0.height ==> #[trigger] self@.mask[cx][cy]
                            == if cx == x {
                                posts_pixel(ps.subrange(0, k as int), cy - off_y) is Some
                                    || c1.mask[cx][cy]
                            } else {
                                c1.mask[cx][cy]
                            },
                decreases spans.len() - k,
            {
                let span: &Span = &spans[k];
                assert(ps[k as int] == span.model());
                let ghost c2 = self@;
                let y_off: i64 = off_y + span.top as i64;
                let y_start: i64 = if y_off >= 0 { y_off } else { 0 };
                let y_end: i64 = if span.pixels.len() as i64 + y_off <= self.height as i64 {
                    span.pixels.len() as i64 + y_off
                } else {
                    self.height as i64
                };
                let mut y: i64 = y_start;
                while y < y_end
                    invariant
                        self.width == c0.width,
                        self.height == c0.height,
                        canvas_ok(self@),
                        0 <= x < c0.width,
                        span.pixels@.len() <= 255,
                        0 <= y_start <= y,
                        y <= y_end || y == y_start,
                        y_end <= c0.height,
                        y_start == if y_off >= 0 { y_off as int } else { 0 },
                        y_end == if span.pixels@.len() + y_off <= c0.height { span.pixels@.len() + y_off } else { c0.height as int },
                        forall|cx: int, cy: int|
                            0 <= cx < c0.width && 0 <= cy < c0.height ==> #[trigger] self@.pixels[cx][cy]
                                == if cx == x && y_start <= cy < y {
                                    span.pixels@[cy - y_off]
                                } else {
                                    c2.pixels[cx][cy]
                                },
                        forall|cx: int, cy: int|
                            0 <= cx < c0.width && 0 <= cy < c0.height ==> #[trigger] self@.mask[cx][cy]
                                == if cx == x && y_start <= cy < y {
                                    true
                                } else {
                                    c2.mask[cx][cy]
                                },
                    decreases y_end - y,
                {
                    let v = span.pixels[(y - y_off) as usize];
                    self.pixels.set(x as usize, y as usize, v);
                    self.mask.set(x as usize, y as usize, true);
                    y += 1;
                }
                proof {
                    let pre = ps.subrange(0, k as int);
                    let post = ps.subrange(0, k as int + 1);
                    assert(post.drop_last() =~= pre);
                    assert(post.last() == spans@[k as int].model());
                    assert forall|cy: int| 0 <= cy < c0.height implies #[trigger] posts_pixel(post, cy - off_y)
                        == if y_start <= cy < y_end {
                            Some(span.pixels@[cy - y_off])
                        } else {
                            posts_pixel(pre, cy - off_y)
                        } by {}
                }
                k += 1;
            }
            proof {
                assert(ps.subrange(0, spans@.len() as int) =~= ps);
                assert forall|cy: int| 0 <= cy < c0.height implies
                    #[trigger] stamp_at(d, pos_x as int, pos_y as int, x as int, cy)
                        == posts_pixel(ps, cy - off_y) by {}
            }
            x += 1;
        }
        proof {
            assert forall|cx: int, cy: int| x <= cx < c0.width && 0 <= cy < c0.height implies
                target.pixels[cx][cy] == c0.pixels[cx][cy] && target.mask[cx][cy] == c0.mask[cx][cy] by {
                assert(stamp_at(d, pos_x as int, pos_y as int, cx, cy) is None);
            }
            assert(self@.pixels =~~= target.pixels);
            assert forall|cx: int| 0 <= cx < c0.width implies #[trigger] self@.mask[cx] =~= target.mask[cx] by {
                assert forall|cy: int| 0 <= cy < c0.height implies self@.mask[cx][cy]
                    == target.mask[cx][cy] by {}
            }
            assert(self@.mask =~= target.mask);
        }
    }

    /// Encodes the canvas as a sprite of the same size with its hotspot at
    /// `(0, 0)`: for each column, one post per maximal run of set mask bits.
    /// Fails exactly when some run starts at row 255 or further down, or is
    /// longer than 255 rows, or the encoding is too large for 32-bit offsets.
    #[verifier::rlimit(40)]
    pub fn make_sprite(&self) -> (r: Result<Vec<u8>, GfxError>)
        requires
            self.wf(),
        ensures
            match r {
                Ok(b) => canvas_encodable(self@) && b@ == encoded(self@),
                Err(e) => !canvas_encodable(self@) && e == GfxError::UnencodableRun,
            },
    {
        let ghost c = self@;
        let w = self.width as usize;
        let h = self.height as usize;
        let data_start: usize = 8 + 4 * w;
        let mut column_array: Vec<u32> = Vec::new();
        let mut data: Vec<u8> = Vec::new();
        let mut x: usize = 0;
        while x < w
            invariant
                c == self@,
                canvas_ok(c),
                w == c.width,
                h == c.height,
                data_start == encoded_data_start(c),
                x <= w,
                data@ == columns_bytes(c, x as int),
                data_start + data@.len() <= u32::MAX,
                column_array@.len() == x,
                forall|j: int| 0 <= j < x ==> #[trigger] column_array@[j] == columns_bytes(c, j).len(),
                forall|j: int| 0 <= j < x ==> column_encodable(#[trigger] c.mask[j]),
            decreases w - x,
        {
            column_array.push(data.len() as u32);
            let mut mask_col: Vec<bool> = Vec::new();
            let mut y: usize = 0;
            while y < h
                invariant
                    c == self@,
                    canvas_ok(c),
                    x < w == c.width,
                    h == c.height,
                    y <= h,
                    mask_col@ == c.mask[x as int].subrange(0, y as int),
                decreases h - y,
            {
                mask_col.push(self.mask.get(x, y));
                assert(mask_col@ =~= c.mask[x as int].subrange(0, y as int + 1));
                y += 1;
            }
            assert(mask_col@ =~= c.mask[x as int]);
            let spans = find_spans(mask_col.as_slice());
            let ghost runs = runs_of(c.mask[x as int]);
            let ghost col = c.pixels[x as int];
            let ghost before = data@;
            proof {
                lemma_runs_bounds(c.mask[x as int]);
            }
            let mut k: usize = 0;
            while k < spans.len()
                invariant
                    c == self@,
                    canvas_ok(c),
                    x < w == c.width,
                    h == c.height,
                    runs == runs_of(c.mask[x as int]),
                    col == c.pixels[x as int],
                    range_pairs(spans@) == runs,
                    k <= spans.len(),
                    before == columns_bytes(c, x as int),
                    data@ == before + posts_bytes(col, runs.subrange(0, k as int)),
                    forall|j: int| 0 <= j < k ==> run_encodable(#[trigger] runs[j]),
                    forall|j: int| 0 <= j < runs.len() ==> 0 <= (#[trigger] runs[j]).0 < runs[j].1 <= h,
                decreases spans.len() - k,
            {
                let start = spans[k].start;
                let end = spans[k].end;
                assert(runs[k as int] == (start as int, end as int));
                if start >= 255 || end - start > 255 {
                    assert(!column_encodable(c.mask[x as int]));
                    return Err(GfxError::UnencodableRun);
                }
                let len = (end - start) as u8;
                let ghost d0 = data@;
                data.push(start as u8);
                data.push(len);
                data.push(len);
                let mut y: i32 = start;
                while y < end
                    invariant
                        c == self@,
                        canvas_ok(c),
                        x < w == c.width,
                        h == c.height,
                        col == c.pixels[x as int],
                        0 <= start <= y <= end <= h,
                        data@ == d0 + seq![start as u8, len, len] + col.subrange(start as int, y as int),
                    decreases end - y,
                {
                    data.push(self.pixels.get(x, y as usize));
                    assert(data@ =~= d0 + seq![start as u8, len, len] + col.subrange(start as int, y as int + 1));
                    y += 1;
                }
                data.push(0);
                proof {
                    let pre = runs.subrange(0, k as int);
                    let cur = runs.subrange(0, k as int + 1);
                    assert(cur.drop_last() =~= pre);
                    assert(cur.last() == runs[k as int]);
                    assert(data@ =~= before + posts_bytes(col, cur));
                }
                k += 1;
            }
            data.push(255);
            proof {
                assert(runs.subrange(0, runs.len() as int) =~= runs);
                assert(data@ =~= columns_bytes(c, x as int + 1));
            }
            if data.len() > u32::MAX as usize - data_start {
                proof {
                    lemma_columns_bytes_grow(c, x as int + 1, c.width);
                }
                return Err(GfxError::UnencodableRun);
            }
            x += 1;
        }
        let mut out: Vec<u8> = Vec::new();
        push_u16(&mut out, self.width);
        push_u16(&mut out, self.height);
        push_u16(&mut out, 0);
        push_u16(&mut out, 0);
        let ghost header = out@;
        let mut j: usize = 0;
        while j < w
            invariant
                c == self@,
                x == w == c.width,
                data_start == encoded_data_start(c),
                data@ == columns_bytes(c, w as int),
                data_start + data@.len() <= u32::MAX,
                column_array@.len() == w,
                forall|i: int| 0 <= i < w ==> #[trigger] column_array@[i] == columns_bytes(c, i).len(),
                j <= w,
                out@ == header + directory_bytes(c, j as int),
            decreases w - j,
        {
            proof {
                lemma_columns_bytes_grow(c, j as int, w as int);
            }
            push_u32(&mut out, column_array[j] + data_start as u32);
            j += 1;
        }
        let ghost dir = out@;
        out.append(&mut data);
        assert(out@ =~= encoded(c));
        Ok(out)
    }


    /// The pixel and mask planes, column after column (`(x, y)` at
    /// `x * height + y`).
    pub fn into_planes_col_major(self) -> (r: (Vec<u8>, Vec<bool>))
        requires
            self.wf(),
        ensures
            r.0@ == self@.pixels.flatten(),
            r.1@ == self@.mask.flatten(),
    {
        let ghost c = self@;
        let w = self.width as usize;
        let h = self.height as usize;
        let mut pixels: Vec<u8> = Vec::new();
        let mut mask: Vec<bool> = Vec::new();
        let mut x: usize = 0;
        while x < w
            invariant
                c == self@,
                canvas_ok(c),
                w == c.width,
                h == c.height,
                x <= w,
                pixels@ == c.pixels.subrange(0, x as int).flatten_alt(),
                mask@ == c.mask.subrange(0, x as int).flatten_alt(),
            decreases w - x,
        {
            let ghost done_pixels = pixels@;
            let ghost done_mask = mask@;
            let mut y: usize = 0;
            while y < h
                invariant
                    c == self@,
                    canvas_ok(c),
                    x < w == c.width,
                    h == c.height,
                    y <= h,
                    pixels@ == done_pixels + c.pixels[x as int].subrange(0, y as int),
                    mask@ == done_mask + c.mask[x as int].subrange(0, y as int),
                decreases h - y,
            {
                pixels.push(self.pixels.get(x, y));
                mask.push(self.mask.get(x, y));
                assert(pixels@ =~= done_pixels + c.pixels[x as int].subrange(0, y as int + 1));
                assert(mask@ =~= done_mask + c.mask[x as int].subrange(0, y as int + 1));
                y += 1;
            }
            proof {
                assert(c.pixels.subrange(0, x as int + 1).drop_last() =~= c.pixels.subrange(0, x as int));
                assert(c.mask.subrange(0, x as int + 1).drop_last() =~= c.mask.subrange(0, x as int));
                assert(c.pixels[x as int].subrange(0, h as int) =~= c.pixels[x as int]);
                assert(c.mask[x as int].subrange(0, h as int) =~= c.mask[x as int]);
            }
            x += 1;
        }
        proof {
            assert(c.pixels.subrange(0, w as int) =~= c.pixels);
            assert(c.mask.subrange(0, w as int) =~= c.mask);
            c.pixels.lemma_flatten_and_flatten_alt_are_equivalent();
            c.mask.lemma_flatten_and_flatten_alt_are_equivalent();
        }
        (pixels, mask)
    }

    /// The pixel and mask planes, row after row (`(x, y)` at `y * width + x`).
    pub fn into_planes_row_major(&self) -> (r: (Vec<u8>, Vec<bool>))
        requires
            self.wf(),
        ensures
            r.0@ == transposed(self@.pixels, self@.width, self@.height).flatten(),
            r.1@ == transposed(self@.mask, self@.width, self@.height).flatten(),
    {
        let ghost c = self@;
        let ghost tp = transposed(c.pixels, c.width, c.height);
        let ghost tm = transposed(c.mask, c.width, c.height);
        let w = self.width as usize;
        let h = self.height as usize;
        let mut pixels: Vec<u8> = Vec::new();
        let mut mask: Vec<bool> = Vec::new();
        let mut y: usize = 0;
        while y < h
            invariant
                c == self@,
                canvas_ok(c),
                tp == transposed(c.pixels, c.width, c.height),
                tm == transposed(c.mask, c.width, c.height),
                w == c.width,
                h == c.height,
                y <= h,
                pixels@ == tp.subrange(0, y as int).flatten_alt(),
                mask@ == tm.subrange(0, y as int).flatten_alt(),
            decreases h - y,
        {
            let ghost done_pixels = pixels@;
            let ghost done_mask = mask@;
            let mut x: usize = 0;
            while x < w
                invariant
                    c == self@,
                    canvas_ok(c),
                    tp == transposed(c.pixels, c.width, c.height),
                    tm == transposed(c.mask, c.width, c.height),
                    y < h == c.height,
                    w == c.width,
                    x <= w,
                    pixels@ == done_pixels + tp[y as int].subrange(0, x as int),
                    mask@ == done_mask + tm[y as int].subrange(0, x as int),
                decreases w - x,
            {
                pixels.push(self.pixels.get(x, y));
                mask.push(self.mask.get(x, y));
                assert(pixels@ =~= done_pixels + tp[y as int].subrange(0, x as int + 1));
                assert(mask@ =~= done_mask + tm[y as int].subrange(0, x as int + 1));
                x += 1;
            }
            proof {
                assert(tp.subrange(0, y as int + 1).drop_last() =~= tp.subrange(0, y as int));
                assert(tm.subrange(0, y as int + 1).drop_last() =~= tm.subrange(0, y as int));
                assert(tp[y as int].subrange(0, w as int) =~= tp[y as int]);
                assert(tm[y as int].subrange(0, w as int) =~= tm[y as int]);
            }
            y += 1;
        }
        proof {
            assert(tp.subrange(0, h as int) =~= tp);
            assert(tm.subrange(0, h as int) =~= tm);
            tp.lemma_flatten_and_flatten_alt_are_equivalent();
            tm.lemma_flatten_and_flatten_alt_are_equivalent();
        }
        (pixels, mask)
    }


    /// The pixel at `(x, y)`.
    pub fn pixel(&self, x: u16, y: u16) -> (r: u8)
        requires
            self.wf(),
            x < self@.width,
            y < self@.height,
        ensures
            r == self@.pixels[x as int][y as int],
    {
        self.pixels.get(x as usize, y as usize)
    }

    /// Whether the mask bit at `(x, y)` is set.
    pub fn is_drawn(&self, x: u16, y: u16) -> (r: bool)
        requires
            self.wf(),
            x < self@.width,
            y < self@.height,
        ensures
            r == self@.mask[x as int][y as int],
    {
        self.mask.get(x as usize, y as usize)
    }

}

/// `width × height` rows after placing sprite `d` with its hotspot at
/// `(px, py)` over a `background`: each position the sprite covers takes
/// `table[v]` for the sprite's pixel `v`.
pub open spec fn rendered<Px>(
    d: Seq<u8>,
    width: int,
    height: int,
    px: int,
    py: int,
    table: Seq<Px>,
    background: Px,
) -> Seq<Seq<Px>> {
    Seq::new(
        height as nat,
        |y: int|
            Seq::new(
                width as nat,
                |x: int|
                    match stamp_at(d, px, py, x, y) {
                        Some(v) => table[v as int],
                        None => background,
                    },
            ),
    )
}

/// Renders `sprite` with its hotspot at `(pos_x, pos_y)` into `height` rows
/// of `width` pixels, mapping each of its palette indices through `table` and
/// filling the rest with `background`. Fails exactly when some column of the
/// sprite cannot be read inside its buffer.
pub fn render_sprite<Px: Copy>(
    sprite: &Sprite,
    width: u16,
    height: u16,
    pos_x: i32,
    pos_y: i32,
    table: &Vec<Px>,
    background: Px,
) -> (r: Result<Vec<Vec<Px>>, GfxError>)
    requires
        table@.len() == 256,
        width * height <= isize::MAX,
    ensures
        match r {
            Ok(rows) => sprite_ok(sprite@) && crate::raster::rows_view(rows@) == rendered(
                sprite@,
                width as int,
                height as int,
                pos_x as int,
                pos_y as int,
                table@,
                background,
            ),
            Err(e) => !sprite_ok(sprite@) && e == GfxError::MalformedAsset,
        },
{
    let ghost target = rendered(sprite@, width as int, height as int, pos_x as int, pos_y as int, table@, background);
    let mut canvas = SpriteCanvas::new(width, height);
    match canvas.draw_at(pos_x, pos_y, sprite) {
        Ok(_) => {},
        Err(e) => {
            return Err(e);
        },
    }
    let ghost c = canvas@;
    assert(c == drawn(blank(width as int, height as int), sprite@, pos_x as int, pos_y as int));
    let mut rows: Vec<Vec<Px>> = Vec::new();
    let mut y: u16 = 0;
    while y < height
        invariant
            canvas.wf(),
            canvas@ == c,
            c == drawn(blank(width as int, height as int), sprite@, pos_x as int, pos_y as int),
            c.width == width,
            c.height == height,
            table@.len() == 256,
            target == rendered(sprite@, width as int, height as int, pos_x as int, pos_y as int, table@, background),
            y <= height,
            rows@.len() == y,
            crate::raster::rows_view(rows@) == target.subrange(0, y as int),
        decreases height - y,
    {
        let mut row: Vec<Px> = Vec::new();
        let mut x: u16 = 0;
        while x < width
            invariant
                canvas.wf(),
                canvas@ == c,
                c == drawn(blank(width as int, height as int), sprite@, pos_x as int, pos_y as int),
                c.width == width,
                c.height == height,
                table@.len() == 256,
                target == rendered(sprite@, width as int, height as int, pos_x as int, pos_y as int, table@, background),
                y < height,
                x <= width,
                row@ == target[y as int].subrange(0, x as int),
            decreases width - x,
        {
            if canvas.is_drawn(x, y) {
                row.push(table[canvas.pixel(x, y) as usize]);
            } else {
                row.push(background);
            }
            assert(row@ =~= target[y as int].subrange(0, x as int + 1));
            x += 1;
        }
        assert(row@ =~= target[y as int]);
        let ghost before = rows@;
        rows.push(row);
        proof {
            assert forall|i: int| 0 <= i <= y implies #[trigger] crate::raster::rows_view(rows@)[i] == target[i] by {
                if i < y {
                    assert(rows@[i] == before[i]);
                    assert(crate::raster::rows_view(before)[i] == target.subrange(0, y as int)[i]);
                }
            }
            assert(crate::raster::rows_view(rows@) =~= target.subrange(0, y as int + 1));
        }
        y += 1;
    }
    assert(crate::raster::rows_view(rows@) =~= target);
    Ok(rows)
}

} // verus!
