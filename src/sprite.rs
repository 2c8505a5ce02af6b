//! Sprites: an 8-byte header, a directory of column offsets, and columns of
//! posts (vertical runs of palette indices).
use crate::bytes::{le_i16, le_u16, le_u32, read_i16, read_u16, read_u32};
use crate::error::GfxError;
use vstd::prelude::*;
use vstd::slice::slice_subrange;

verus! {

/// The width declared in a sprite header.
pub open spec fn sprite_width(d: Seq<u8>) -> int {
    le_u16(d, 0)
}

/// The height declared in a sprite header.
pub open spec fn sprite_height(d: Seq<u8>) -> int {
    le_u16(d, 2)
}

/// The horizontal offset of the hotspot.
pub open spec fn sprite_left(d: Seq<u8>) -> int {
    le_i16(d, 4)
}

/// The vertical offset of the hotspot.
pub open spec fn sprite_top(d: Seq<u8>) -> int {
    le_i16(d, 6)
}

/// Where the post data starts: after the header and the column directory.
pub open spec fn data_start(d: Seq<u8>) -> int {
    8 + 4 * sprite_width(d)
}

/// The buffer holds the header and the whole column directory.
pub open spec fn header_fits(d: Seq<u8>) -> bool {
    d.len() >= 8 && d.len() >= data_start(d)
}

/// The absolute offset of column `i`, as the directory gives it.
pub open spec fn column_offset(d: Seq<u8>, i: int) -> int {
    le_u32(d, 8 + 4 * i)
}

/// At `pos` stands the terminator of a column.
pub open spec fn post_end(d: Seq<u8>, pos: int) -> bool {
    0 <= pos < d.len() && d[pos] == 255
}

/// At `pos` stands a post whose header, pixels and trailing pad byte all lie
/// inside the buffer.
pub open spec fn post_fits(d: Seq<u8>, pos: int) -> bool {
    0 <= pos && pos + 1 < d.len() && d[pos] != 255 && pos + 3 + d[pos + 1] < d.len()
}

/// The position after the post at `pos`.
pub open spec fn post_next(d: Seq<u8>, pos: int) -> int {
    pos + 4 + d[pos + 1]
}

/// The post at `pos`: its first row and its pixels.
pub open spec fn post_at(d: Seq<u8>, pos: int) -> (int, Seq<u8>) {
    (d[pos] as int, d.subrange(pos + 3, pos + 3 + d[pos + 1]))
}

/// The posts of the column that starts at `pos`, up to its terminator; `None`
/// where a read would leave the buffer.
pub open spec fn posts_from(d: Seq<u8>, pos: int) -> Option<Seq<(int, Seq<u8>)>>
    decreases d.len() - pos,
{
    if post_end(d, pos) {
        Some(Seq::empty())
    } else if post_fits(d, pos) {
        match posts_from(d, post_next(d, pos)) {
            Some(rest) => Some(seq![post_at(d, pos)] + rest),
            None => None,
        }
    } else {
        None
    }
}

/// The posts of column `i`; `None` where its offset points into the header or
/// the directory, or its posts run past the buffer.
pub open spec fn column_posts(d: Seq<u8>, i: int) -> Option<Seq<(int, Seq<u8>)>> {
    if column_offset(d, i) < data_start(d) {
        None
    } else {
        posts_from(d, column_offset(d, i))
    }
}

/// A well-formed sprite: the header and directory fit, and every column can be
/// read to its terminator inside the buffer.
pub open spec fn sprite_ok(d: Seq<u8>) -> bool {
    &&& header_fits(d)
    &&& forall|i: int| 0 <= i < sprite_width(d) ==> (#[trigger] column_posts(d, i)) is Some
}

/// `acc` followed by `rest`, where `rest` is known.
pub open spec fn prepend(
    acc: Seq<(int, Seq<u8>)>,
    rest: Option<Seq<(int, Seq<u8>)>>,
) -> Option<Seq<(int, Seq<u8>)>> {
    match rest {
        Some(r) => Some(acc + r),
        None => None,
    }
}

/// Every post read from a buffer starts above row 255 and holds at most 255
/// pixels, since both are single bytes and 255 marks the end of a column.
pub proof fn lemma_posts_bounded(d: Seq<u8>, pos: int)
    requires
        posts_from(d, pos) is Some,
    ensures
        forall|k: int|
            0 <= k < posts_from(d, pos).unwrap().len() ==> {
                &&& 0 <= (#[trigger] posts_from(d, pos).unwrap()[k]).0 < 255
                &&& posts_from(d, pos).unwrap()[k].1.len() <= 255
            },
    decreases d.len() - pos,
{
    if !post_end(d, pos) {
        let next = post_next(d, pos);
        lemma_posts_bounded(d, next);
        let ps = posts_from(d, pos).unwrap();
        let rest = posts_from(d, next).unwrap();
        assert forall|k: int| 0 < k < ps.len() implies ps[k] == rest[k - 1] by {}
    }
}

/// A vertical run of opaque pixels in one column of a sprite.
#[derive(Debug)]
pub struct Span<'a> {
    pub top: u16,
    pub pixels: &'a [u8],
}

impl<'a> Span<'a> {
    pub open spec fn model(&self) -> (int, Seq<u8>) {
        (self.top as int, self.pixels@)
    }
}

/// The models of a sequence of spans.
pub open spec fn span_models<'a>(v: Seq<Span<'a>>) -> Seq<(int, Seq<u8>)> {
    v.map_values(|s: Span<'a>| s.model())
}

/// A cursor over the posts of one column.
pub struct Column<'a> {
    data: &'a [u8],
    pos: usize,
}

impl<'a> Column<'a> {
    /// The whole buffer the column is read from.
    pub closed spec fn bytes(&self) -> Seq<u8> {
        self.data@
    }

    /// The position of the next post.
    pub closed spec fn position(&self) -> int {
        self.pos as int
    }

    pub fn new(data: &'a [u8], pos: usize) -> (c: Column<'a>)
        ensures
            c.bytes() == data@,
            c.position() == pos,
    {
        Column { data, pos }
    }

    /// Reads the post at the cursor and moves past it. `Ok(None)` at the
    /// terminator; an error where the post does not fit in the buffer.
    pub fn next(&mut self) -> (r: Result<Option<Span<'a>>, GfxError>)
        ensures
            final(self).bytes() == old(self).bytes(),
            match r {
                Ok(Some(s)) => {
                    &&& post_fits(old(self).bytes(), old(self).position())
                    &&& s.model() == post_at(old(self).bytes(), old(self).position())
                    &&& final(self).position() == post_next(
                        old(self).bytes(),
                        old(self).position(),
                    )
                },
                Ok(None) => {
                    &&& post_end(old(self).bytes(), old(self).position())
                    &&& final(self).position() == old(self).position()
                },
                Err(e) => {
                    &&& !post_end(old(self).bytes(), old(self).position())
                    &&& !post_fits(old(self).bytes(), old(self).position())
                    &&& e == GfxError::MalformedAsset
                    &&& final(self).position() == old(self).position()
                },
            },
    {
        let d = self.data;
        let pos = self.pos;
        if pos >= d.len() {
            return Err(GfxError::MalformedAsset);
        }
        let top = d[pos];
        if top == 255 {
            return Ok(None);
        }
        if pos + 1 >= d.len() {
            return Err(GfxError::MalformedAsset);
        }
        let count = d[pos + 1] as usize;
        if count + 3 >= d.len() - pos {
            return Err(GfxError::MalformedAsset);
        }
        let pixels = slice_subrange(d, pos + 3, pos + 3 + count);
        self.pos = pos + 4 + count;
        Ok(Some(Span { top: top as u16, pixels }))
    }

    /// Reads all remaining posts, up to the terminator.
    pub fn collect_spans(self) -> (r: Result<Vec<Span<'a>>, GfxError>)
        ensures
            r is Ok <==> posts_from(self.bytes(), self.position()) is Some,
            r is Ok ==> posts_from(self.bytes(), self.position()) == Some(span_models(r->Ok_0@)),
            r is Err ==> r->Err_0 == GfxError::MalformedAsset,
    {
        let ghost d = self.bytes();
        let ghost start = self.position();
        let mut col = Column { data: self.data, pos: self.pos };
        let mut out: Vec<Span<'a>> = Vec::new();
        loop
            invariant
                col.bytes() == d,
                d == self.bytes(),
                start == self.position(),
                posts_from(d, start) == prepend(span_models(out@), posts_from(d, col.position())),
            decreases d.len() - col.position(),
        {
            let ghost pos = col.position();
            let ghost before = out@;
            match col.next() {
                Ok(Some(s)) => {
                    out.push(s);
                    proof {
                        assert(span_models(out@) =~= span_models(before).push(post_at(d, pos)));
                        match posts_from(d, post_next(d, pos)) {
                            Some(rest) => {
                                assert(span_models(before) + (seq![post_at(d, pos)] + rest)
                                    =~= span_models(out@) + rest);
                            },
                            None => {},
                        }
                    }
                },
                Ok(None) => {
                    assert(posts_from(d, pos) == Some(Seq::<(int, Seq<u8>)>::empty()));
                    assert(span_models(out@) + Seq::<(int, Seq<u8>)>::empty() =~= span_models(out@));
                    assert(posts_from(d, start) == Some(span_models(out@)));
                    return Ok(out);
                },
                Err(e) => {
                    assert(posts_from(d, pos) is None);
                    return Err(e);
                },
            }
        }
    }
}

/// A sprite decoded from a borrowed buffer; every column has been checked to
/// read inside the buffer.
pub struct Sprite<'a> {
    width: u16,
    height: u16,
    left: i16,
    top: i16,
    data: &'a [u8],
}

impl<'a> View for Sprite<'a> {
    type V = Seq<u8>;

    closed spec fn view(&self) -> Seq<u8> {
        self.data@
    }
}

impl<'a> Sprite<'a> {
    #[verifier::type_invariant]
    closed spec fn inv(&self) -> bool {
        &&& header_fits(self.data@)
        &&& self.width == sprite_width(self.data@)
        &&& self.height == sprite_height(self.data@)
        &&& self.left == sprite_left(self.data@)
        &&& self.top == sprite_top(self.data@)
    }

    /// Decodes a sprite's header. Fails exactly when the buffer is too short
    /// for the header or the column directory; the columns themselves are
    /// checked when they are read.
    pub fn new(data: &'a [u8]) -> (r: Result<Sprite<'a>, GfxError>)
        ensures
            match r {
                Ok(s) => header_fits(data@) && s@ == data@,
                Err(e) => !header_fits(data@) && e == GfxError::MalformedAsset,
            },
    {
        if data.len() < 8 {
            return Err(GfxError::MalformedAsset);
        }
        let width = read_u16(data, 0);
        let height = read_u16(data, 2);
        let left = read_i16(data, 4);
        let top = read_i16(data, 6);
        if data.len() < 8 + 4 * width as usize {
            return Err(GfxError::MalformedAsset);
        }
        Ok(Sprite { width, height, left, top, data })
    }

    /// Checks that every column reads to its terminator inside the buffer.
    pub fn validate(&self) -> (r: Result<(), GfxError>)
        ensures
            match r {
                Ok(_) => sprite_ok(self@),
                Err(e) => !sprite_ok(self@) && e == GfxError::MalformedAsset,
            },
    {
        proof {
            use_type_invariant(self);
        }
        let width = self.width;
        let mut i: u32 = 0;
        while i < width as u32
            invariant
                width == sprite_width(self@),
                header_fits(self@),
                i <= width,
                forall|j: int| 0 <= j < i ==> (#[trigger] column_posts(self@, j)) is Some,
            decreases width - i,
        {
            match self.spans(i) {
                Ok(_) => {},
                Err(e) => {
                    return Err(e);
                },
            }
            i += 1;
        }
        Ok(())
    }

    /// A cursor at the first post of column `i`. Fails when `i` is not a
    /// column of the sprite, or its offset points into the header or the
    /// directory.
    pub fn col(&self, i: u32) -> (r: Result<Column<'a>, GfxError>)
        ensures
            match r {
                Ok(c) => {
                    &&& i < sprite_width(self@)
                    &&& column_offset(self@, i as int) >= data_start(self@)
                    &&& c.bytes() == self@
                    &&& c.position() == column_offset(self@, i as int)
                },
                Err(e) => {
                    &&& (i >= sprite_width(self@) || column_offset(self@, i as int) < data_start(
                        self@,
                    ))
                    &&& e == GfxError::MalformedAsset
                },
            },
    {
        proof {
            use_type_invariant(self);
        }
        if i >= self.width as u32 {
            return Err(GfxError::MalformedAsset);
        }
        let offset = read_u32(self.data, 8 + 4 * i as usize) as usize;
        if offset < 8 + 4 * self.width as usize {
            return Err(GfxError::MalformedAsset);
        }
        Ok(Column::new(self.data, offset))
    }

    /// The posts of column `i`, in the order in which they are stored. Fails
    /// when `i` is not a column, or the column cannot be read to its
    /// terminator inside the buffer.
    pub fn spans(&self, i: u32) -> (r: Result<Vec<Span<'a>>, GfxError>)
        ensures
            match r {
                Ok(v) => i < sprite_width(self@) && column_posts(self@, i as int) == Some(
                    span_models(v@),
                ),
                Err(e) => (i >= sprite_width(self@) || column_posts(self@, i as int) is None) && e
                    == GfxError::MalformedAsset,
            },
    {
        match self.col(i) {
            Ok(c) => c.collect_spans(),
            Err(e) => Err(e),
        }
    }

    /// The hotspot as `(top, left)`.
    pub fn origin(&self) -> (r: (i16, i16))
        ensures
            r.0 == sprite_top(self@),
            r.1 == sprite_left(self@),
    {
        proof {
            use_type_invariant(self);
        }
        (self.top, self.left)
    }

    pub fn left(&self) -> (r: i16)
        ensures
            r == sprite_left(self@),
    {
        proof {
            use_type_invariant(self);
        }
        self.left
    }

    pub fn top(&self) -> (r: i16)
        ensures
            r == sprite_top(self@),
    {
        proof {
            use_type_invariant(self);
        }
        self.top
    }

    /// The dimensions as `(height, width)`.
    pub fn dim(&self) -> (r: (usize, usize))
        ensures
            r.0 == sprite_height(self@),
            r.1 == sprite_width(self@),
    {
        proof {
            use_type_invariant(self);
        }
        (self.height as usize, self.width as usize)
    }

    pub fn width(&self) -> (r: u16)
        ensures
            r == sprite_width(self@),
    {
        proof {
            use_type_invariant(self);
        }
        self.width
    }

    pub fn height(&self) -> (r: u16)
        ensures
            r == sprite_height(self@),
    {
        proof {
            use_type_invariant(self);
        }
        self.height
    }
}

} // verus!
