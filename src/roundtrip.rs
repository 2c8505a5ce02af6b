//! Encoding a canvas as a sprite loses nothing: decoding the bytes and
//! stamping them on a blank canvas of the same size gives the canvas back.
use crate::bytes::{lemma_u16_round_trip, lemma_u32_round_trip, u16_bytes, u32_bytes};
use crate::sprite::{
    column_offset, column_posts, data_start, post_at, post_end, post_fits, post_next, posts_from,
    sprite_height, sprite_left, sprite_ok, sprite_top, sprite_width,
};
use crate::sprite_canvas::{
    blank, canvas_encodable, canvas_ok, column_bytes, column_encodable, columns_bytes,
    directory_bytes, drawn, encoded, encoded_data_start, lemma_columns_bytes_grow,
    lemma_drawn_ok, lemma_runs_bounds, lemma_runs_last, post_bytes, posts_bytes, posts_pixel,
    run_encodable, runs_of, stamp_at, CanvasView,
};
use vstd::prelude::*;

verus! {

/// The posts that encode runs `rs` of pixel column `col`.
pub open spec fn run_posts(col: Seq<u8>, rs: Seq<(int, int)>) -> Seq<(int, Seq<u8>)> {
    rs.map_values(|r: (int, int)| (r.0, col.subrange(r.0, r.1)))
}

/// Some run of `rs` covers row `y`.
pub open spec fn covered(rs: Seq<(int, int)>, y: int) -> bool {
    exists|k: int| 0 <= k < rs.len() && (#[trigger] rs[k]).0 <= y < rs[k].1
}

proof fn lemma_posts_bytes_front(col: Seq<u8>, rs: Seq<(int, int)>)
    requires
        rs.len() > 0,
    ensures
        posts_bytes(col, rs) == post_bytes(col, rs[0]) + posts_bytes(col, rs.drop_first()),
    decreases rs.len(),
{
    if rs.len() == 1 {
        assert(rs.drop_last() =~= Seq::<(int, int)>::empty());
        assert(rs.drop_first() =~= Seq::<(int, int)>::empty());
        assert(posts_bytes(col, rs) =~= post_bytes(col, rs[0]) + posts_bytes(col, rs.drop_first()));
    } else {
        let init = rs.drop_last();
        lemma_posts_bytes_front(col, init);
        assert(init.drop_first() =~= rs.drop_first().drop_last());
        assert(rs.drop_first().last() == rs.last());
        assert(posts_bytes(col, rs) =~= post_bytes(col, rs[0]) + posts_bytes(col, rs.drop_first()));
    }
}

/// The bytes of a column's posts and terminator, found at `p`, read back as
/// the posts of its runs.
proof fn lemma_parse_column(e: Seq<u8>, p: int, col: Seq<u8>, rs: Seq<(int, int)>)
    requires
        0 <= p,
        p + posts_bytes(col, rs).len() + 1 <= e.len(),
        e.subrange(p, p + posts_bytes(col, rs).len() + 1) == posts_bytes(col, rs) + seq![255u8],
        forall|k: int|
            0 <= k < rs.len() ==> 0 <= (#[trigger] rs[k]).0 < rs[k].1 <= col.len() && run_encodable(
                rs[k],
            ),
    ensures
        posts_from(e, p) == Some(run_posts(col, rs)),
    decreases rs.len(),
{
    let l = posts_bytes(col, rs).len();
    let s = e.subrange(p, p + l + 1);
    if rs.len() == 0 {
        assert(e[p] == s[0]);
        assert(post_end(e, p));
        assert(run_posts(col, rs) =~= Seq::<(int, Seq<u8>)>::empty());
    } else {
        lemma_posts_bytes_front(col, rs);
        let r = rs[0];
        let n = r.1 - r.0;
        let rest = rs.drop_first();
        let head = post_bytes(col, r);
        assert(head.len() == n + 4);
        assert(e[p] == s[0]);
        assert(e[p + 1] == s[1]);
        assert(s[0] == r.0 as u8);
        assert(s[1] == n as u8);
        assert(post_fits(e, p));
        assert(post_next(e, p) == p + 4 + n);
        assert(e.subrange(p + 3, p + 3 + n) =~= col.subrange(r.0, r.1)) by {
            assert forall|j: int| 0 <= j < n implies #[trigger] e.subrange(p + 3, p + 3 + n)[j]
                == col.subrange(r.0, r.1)[j] by {
                assert(e[p + 3 + j] == s[3 + j]);
                assert(s[3 + j] == head[3 + j]);
            }
        }
        assert(post_at(e, p) == (r.0, col.subrange(r.0, r.1)));
        let q = p + 4 + n;
        let rl = posts_bytes(col, rest).len();
        assert(e.subrange(q, q + rl + 1) =~= posts_bytes(col, rest) + seq![255u8]) by {
            assert forall|j: int| 0 <= j < rl + 1 implies #[trigger] e.subrange(q, q + rl + 1)[j]
                == (posts_bytes(col, rest) + seq![255u8])[j] by {
                assert(e[q + j] == s[n + 4 + j]);
            }
        }
        assert forall|k: int| 0 <= k < rest.len() implies 0 <= (#[trigger] rest[k]).0 < rest[k].1
            <= col.len() && run_encodable(rest[k]) by {
            assert(rest[k] == rs[k + 1]);
        }
        lemma_parse_column(e, q, col, rest);
        assert(run_posts(col, rs) =~= seq![post_at(e, p)] + run_posts(col, rest));
    }
}

/// Where posts carry the pixels of `col` at their rows, the last post
/// covering a row yields that row's pixel of `col`.
proof fn lemma_posts_pixel_of_column(col: Seq<u8>, rs: Seq<(int, int)>, y: int)
    requires
        0 <= y < col.len(),
        forall|k: int| 0 <= k < rs.len() ==> 0 <= (#[trigger] rs[k]).0 <= rs[k].1 <= col.len(),
    ensures
        posts_pixel(run_posts(col, rs), y) == if covered(rs, y) {
            Some(col[y])
        } else {
            None::<u8>
        },
    decreases rs.len(),
{
    if rs.len() > 0 {
        let init = rs.drop_last();
        assert(run_posts(col, rs).drop_last() =~= run_posts(col, init));
        assert forall|k: int| 0 <= k < init.len() implies 0 <= (#[trigger] init[k]).0 <= init[k].1
            <= col.len() by {
            assert(init[k] == rs[k]);
        }
        lemma_posts_pixel_of_column(col, init, y);
        let last = rs.last();
        if last.0 <= y < last.1 {
            assert(covered(rs, y)) by {
                assert(rs[rs.len() - 1] == last);
            }
        } else {
            if covered(rs, y) {
                let k = choose|k: int| 0 <= k < rs.len() && (#[trigger] rs[k]).0 <= y < rs[k].1;
                assert(k < rs.len() - 1);
                assert(init[k] == rs[k]);
            }
            if covered(init, y) {
                let k = choose|k: int| 0 <= k < init.len() && (#[trigger] init[k]).0 <= y < init[k].1;
                assert(rs[k] == init[k]);
            }
        }
    }
}

/// The runs of a mask cover exactly its set bits.
proof fn lemma_runs_cover(m: Seq<bool>)
    ensures
        forall|y: int| 0 <= y < m.len() ==> covered(runs_of(m), y) == #[trigger] m[y],
    decreases m.len(),
{
    if m.len() > 0 {
        let p = m.drop_last();
        let i = m.len() - 1;
        let r = runs_of(p);
        let rs = runs_of(m);
        lemma_runs_cover(p);
        lemma_runs_bounds(p);
        assert forall|y: int| 0 <= y < m.len() implies covered(rs, y) == #[trigger] m[y] by {
            if !m[i] {
                if y == i && covered(rs, y) {
                    let k = choose|k: int| 0 <= k < rs.len() && (#[trigger] rs[k]).0 <= y < rs[k].1;
                    assert(r[k].1 <= p.len());
                }
                if y < i {
                    assert(p[y] == m[y]);
                }
            } else if i > 0 && m[i - 1] {
                lemma_runs_last(p);
                let n = r.len() - 1;
                if y == i {
                    assert(rs[n].0 <= y < rs[n].1);
                } else {
                    assert(p[y] == m[y]);
                    if covered(r, y) {
                        let k = choose|k: int| 0 <= k < r.len() && (#[trigger] r[k]).0 <= y < r[k].1;
                        assert(rs[k].0 <= y < rs[k].1);
                    }
                    if covered(rs, y) {
                        let k = choose|k: int| 0 <= k < rs.len() && (#[trigger] rs[k]).0 <= y < rs[k].1;
                        assert(r[k].0 <= y < r[k].1);
                    }
                }
            } else {
                let n = r.len() as int;
                if y == i {
                    assert(rs[n].0 <= y < rs[n].1);
                } else {
                    assert(p[y] == m[y]);
                    if covered(r, y) {
                        let k = choose|k: int| 0 <= k < r.len() && (#[trigger] r[k]).0 <= y < r[k].1;
                        assert(rs[k].0 <= y < rs[k].1);
                    }
                    if covered(rs, y) {
                        let k = choose|k: int| 0 <= k < rs.len() && (#[trigger] rs[k]).0 <= y < rs[k].1;
                        assert(k < n);
                        assert(r[k].0 <= y < r[k].1);
                    }
                }
            }
        }
    }
}

proof fn lemma_directory(c: CanvasView, n: int)
    requires
        0 <= n,
    ensures
        directory_bytes(c, n).len() == 4 * n,
        forall|x: int|
            0 <= x < n ==> #[trigger] directory_bytes(c, n).subrange(4 * x, 4 * x + 4) == u32_bytes(
                encoded_data_start(c) + columns_bytes(c, x).len(),
            ),
    decreases n,
{
    if n > 0 {
        lemma_directory(c, n - 1);
        let prev = directory_bytes(c, n - 1);
        let cur = directory_bytes(c, n);
        assert forall|x: int| 0 <= x < n implies #[trigger] cur.subrange(4 * x, 4 * x + 4)
            == u32_bytes(encoded_data_start(c) + columns_bytes(c, x).len()) by {
            if x < n - 1 {
                assert(cur.subrange(4 * x, 4 * x + 4) =~= prev.subrange(4 * x, 4 * x + 4));
            } else {
                assert(cur.subrange(4 * x, 4 * x + 4) =~= u32_bytes(
                    encoded_data_start(c) + columns_bytes(c, x).len(),
                ));
            }
        }
    }
}

proof fn lemma_columns_prefix(c: CanvasView, x: int, n: int)
    requires
        0 <= x <= n,
    ensures
        columns_bytes(c, n).subrange(0, columns_bytes(c, x).len() as int) == columns_bytes(c, x),
    decreases n - x,
{
    lemma_columns_bytes_grow(c, x, n);
    if x < n {
        lemma_columns_prefix(c, x, n - 1);
        lemma_columns_bytes_grow(c, x, n - 1);
        let whole = columns_bytes(c, n);
        let prev = columns_bytes(c, n - 1);
        assert(whole.subrange(0, columns_bytes(c, x).len() as int) =~= prev.subrange(
            0,
            columns_bytes(c, x).len() as int,
        ));
    } else {
        assert(columns_bytes(c, n).subrange(0, columns_bytes(c, x).len() as int) =~= columns_bytes(c, x));
    }
}

/// The header of an encoded canvas.
proof fn lemma_encoded_header(c: CanvasView)
    requires
        canvas_ok(c),
    ensures
        encoded(c).len() == encoded_data_start(c) + columns_bytes(c, c.width).len(),
        sprite_width(encoded(c)) == c.width,
        sprite_height(encoded(c)) == c.height,
        sprite_left(encoded(c)) == 0,
        sprite_top(encoded(c)) == 0,
        data_start(encoded(c)) == encoded_data_start(c),
{
    let e = encoded(c);
    lemma_directory(c, c.width);
    assert(e.subrange(0, 2) =~= u16_bytes(c.width));
    assert(e.subrange(2, 4) =~= u16_bytes(c.height));
    assert(e.subrange(4, 6) =~= u16_bytes(0));
    assert(e.subrange(6, 8) =~= u16_bytes(0));
    lemma_u16_round_trip(e, 0, c.width);
    lemma_u16_round_trip(e, 2, c.height);
    lemma_u16_round_trip(e, 4, 0);
    lemma_u16_round_trip(e, 6, 0);
}

/// Column `x` of an encoded canvas reads back as the posts of its runs.
#[verifier::rlimit(30)]
proof fn lemma_encoded_column(c: CanvasView, x: int)
    requires
        canvas_ok(c),
        canvas_encodable(c),
        0 <= x < c.width,
    ensures
        column_posts(encoded(c), x) == Some(run_posts(c.pixels[x], runs_of(c.mask[x]))),
{
    let e = encoded(c);
    let w = c.width;
    let ds = encoded_data_start(c);
    let cols = columns_bytes(c, w);
    lemma_encoded_header(c);
    lemma_directory(c, w);
    let dir = directory_bytes(c, w);
    let start = columns_bytes(c, x).len();
    let off = ds + start;
    lemma_columns_bytes_grow(c, x, w);
    lemma_columns_bytes_grow(c, x + 1, w);
    assert(e.subrange(8 + 4 * x, 8 + 4 * x + 4) =~= dir.subrange(4 * x, 4 * x + 4));
    lemma_u32_round_trip(e, 8 + 4 * x, off);
    assert(column_offset(e, x) == off);
    let colb = column_bytes(c.pixels[x], c.mask[x]);
    lemma_columns_prefix(c, x + 1, w);
    let next = columns_bytes(c, x + 1);
    assert(next == columns_bytes(c, x) + colb);
    assert(e.subrange(off, off + colb.len()) =~= colb) by {
        assert forall|j: int| 0 <= j < colb.len() implies #[trigger] e.subrange(off, off + colb.len())[j]
            == colb[j] by {
            assert(e[off + j] == cols[start + j]);
            assert(cols[start + j] == cols.subrange(0, next.len() as int)[start + j]);
            assert(next[start + j] == colb[j]);
        }
    }
    let rs = runs_of(c.mask[x]);
    lemma_runs_bounds(c.mask[x]);
    assert(column_encodable(c.mask[x]));
    lemma_parse_column(e, off, c.pixels[x], rs);
}

/// Encoding a well-formed, encodable canvas gives a well-formed sprite of
/// the same size with its hotspot at `(0, 0)`, and stamping that sprite at
/// `(0, 0)` on a blank canvas of the same size reproduces the canvas exactly:
/// its pixels and its mask.
pub proof fn lemma_encode_round_trip(c: CanvasView)
    requires
        canvas_ok(c),
        canvas_encodable(c),
    ensures
        sprite_ok(encoded(c)),
        sprite_width(encoded(c)) == c.width,
        sprite_height(encoded(c)) == c.height,
        sprite_left(encoded(c)) == 0,
        sprite_top(encoded(c)) == 0,
        drawn(blank(c.width, c.height), encoded(c), 0, 0) == c,
{
    let e = encoded(c);
    let w = c.width;
    lemma_encoded_header(c);
    assert forall|x: int| 0 <= x < w implies #[trigger] column_posts(e, x) == Some(
        run_posts(c.pixels[x], runs_of(c.mask[x])),
    ) by {
        lemma_encoded_column(c, x);
    }
    assert(sprite_ok(e));
    let d = drawn(blank(c.width, c.height), e, 0, 0);
    assert forall|x: int, y: int| 0 <= x < w && 0 <= y < c.height implies #[trigger] stamp_at(
        e,
        0,
        0,
        x,
        y,
    ) == if c.mask[x][y] {
        Some(c.pixels[x][y])
    } else {
        None::<u8>
    } by {
        let rs = runs_of(c.mask[x]);
        lemma_runs_bounds(c.mask[x]);
        lemma_runs_cover(c.mask[x]);
        assert(column_posts(e, x) == Some(run_posts(c.pixels[x], rs)));
        lemma_posts_pixel_of_column(c.pixels[x], rs, y);
    }
    assert forall|x: int| 0 <= x < w implies #[trigger] d.pixels[x] =~= c.pixels[x] by {
        assert forall|y: int| 0 <= y < c.height implies d.pixels[x][y] == c.pixels[x][y] by {
            assert(stamp_at(e, 0, 0, x, y) == if c.mask[x][y] {
                Some(c.pixels[x][y])
            } else {
                None::<u8>
            });
        }
    }
    assert forall|x: int| 0 <= x < w implies #[trigger] d.mask[x] =~= c.mask[x] by {
        assert forall|y: int| 0 <= y < c.height implies d.mask[x][y] == c.mask[x][y] by {
            assert(stamp_at(e, 0, 0, x, y) == if c.mask[x][y] {
                Some(c.pixels[x][y])
            } else {
                None::<u8>
            });
        }
    }
    assert(d.pixels =~= c.pixels);
    assert(d.mask =~= c.mask);
}

/// Stamping a sprite on a blank canvas, encoding the canvas, decoding the
/// bytes and stamping them at their hotspot on another blank canvas of the
/// same size gives the same canvas, wherever the encoding succeeds.
pub proof fn lemma_sprite_round_trip(d: Seq<u8>, width: int, height: int, px: int, py: int)
    requires
        sprite_ok(d),
        0 <= width <= u16::MAX,
        0 <= height <= u16::MAX,
        canvas_encodable(drawn(blank(width, height), d, px, py)),
    ensures
        ({
            let c = drawn(blank(width, height), d, px, py);
            let e = encoded(c);
            &&& sprite_ok(e)
            &&& drawn(blank(width, height), e, sprite_left(e), sprite_top(e)) == c
        }),
{
    let b = blank(width, height);
    assert(canvas_ok(b));
    lemma_drawn_ok(b, d, px, py);
    lemma_encode_round_trip(drawn(b, d, px, py));
}

} // verus!
