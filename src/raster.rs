//! Nearest-neighbour scaling of a pixel grid by an integer horizontal factor
//! and an exact fractional vertical factor.
use num_rational::Rational32;
use vstd::prelude::*;

verus! {

/// A positive fraction `numer / denom`.
#[derive(Debug, Clone, Copy, PartialEq, Eq, Structural)]
pub struct Fraction {
    pub numer: i32,
    pub denom: i32,
}

impl Fraction {
    /// The fraction `numer / denom`, both positive.
    pub fn new(numer: i32, denom: i32) -> (r: Fraction)
        requires
            numer > 0,
            denom > 0,
        ensures
            r.numer == numer,
            r.denom == denom,
    {
        Fraction { numer, denom }
    }
}

/// Relies on `num_rational::Ratio<i32>`: the exact product `n * (numer /
/// denom)` rounded towards zero by `to_integer`. With every operand
/// non-negative and `n * numer` within `i32`, the reduced intermediate terms
/// stay within `i32` and nothing panics.
#[verifier::external_body]
fn ratio_mul_trunc(n: i32, numer: i32, denom: i32) -> (r: i32)
    requires
        n >= 0,
        numer > 0,
        denom > 0,
        n * numer <= i32::MAX,
    ensures
        r == (n * numer) / (denom as int),
{
    (Rational32::from(n) * Rational32::new(numer, denom)).to_integer()
}

/// Relies on `num_rational::Ratio<i32>`: the exact quotient `n / (numer /
/// denom)` rounded towards zero by `to_integer`. With every operand
/// non-negative and `n * denom` within `i32`, the reduced intermediate terms
/// stay within `i32` and nothing panics.
#[verifier::external_body]
pub(crate) fn ratio_div_trunc(n: i32, numer: i32, denom: i32) -> (r: i32)
    requires
        n >= 0,
        numer > 0,
        denom > 0,
        n * denom <= i32::MAX,
    ensures
        r == (n * denom) / (numer as int),
{
    (Rational32::from(n) / Rational32::new(numer, denom)).to_integer()
}

/// Relies on `num_rational::Ratio<i32>`: the exact product `n * (numer /
/// denom)` rounded up by `ceil`, which for a non-negative value computes
/// `(numer + denom - 1) / denom` on the reduced terms. With every operand
/// non-negative and `n * numer + denom` within `i32`, nothing overflows or
/// panics.
#[verifier::external_body]
pub(crate) fn ratio_mul_ceil(n: i32, numer: i32, denom: i32) -> (r: i32)
    requires
        n >= 0,
        numer > 0,
        denom > 0,
        n * numer + denom <= i32::MAX,
    ensures
        r == (n * numer + denom - 1) / (denom as int),
{
    (Rational32::from(n) * Rational32::new(numer, denom)).ceil().to_integer()
}

/// The contents of a grid held as rows.
pub open spec fn rows_view<Px>(v: Seq<Vec<Px>>) -> Seq<Seq<Px>> {
    v.map_values(|row: Vec<Px>| row@)
}

/// Every row has length `width`.
pub open spec fn rows_of_len<Px>(g: Seq<Seq<Px>>, width: int) -> bool {
    forall|y: int| 0 <= y < g.len() ==> (#[trigger] g[y]).len() == width
}

/// The number of rows after scaling `height` rows by `numer / denom`,
/// rounded towards zero.
pub open spec fn scaled_height(height: int, numer: int, denom: int) -> int {
    (height * numer) / denom
}

/// `g` (of the given width) scaled by `sx` across and `numer / denom` down:
/// output position `(y, x)` takes the input pixel at row
/// `(y * denom) / numer` and column `x / sx`.
pub open spec fn scaled<Px>(g: Seq<Seq<Px>>, width: int, sx: int, numer: int, denom: int) -> Seq<
    Seq<Px>,
> {
    Seq::new(
        scaled_height(g.len() as int, numer, denom) as nat,
        |y: int| Seq::new((width * sx) as nat, |x: int| g[(y * denom) / numer][x / sx]),
    )
}

proof fn lemma_source_row(y: int, h: int, num: int, den: int)
    requires
        0 <= y,
        0 <= h,
        num > 0,
        den > 0,
        y < (h * num) / den,
    ensures
        0 <= (y * den) / num < h,
{
    assert((y + 1) * den <= h * num) by (nonlinear_arith)
        requires
            y < (h * num) / den,
            den > 0,
            h * num >= 0,
    ;
    assert(0 <= (y * den) / num < h) by (nonlinear_arith)
        requires
            (y + 1) * den <= h * num,
            y >= 0,
            num > 0,
            den > 0,
    ;
}

/// Scales a grid of rows, each `width` pixels long, by the integer factor
/// `sx` across and the exact fraction `sy` down, picking the nearest source
/// pixel without interpolation.
pub fn scale<Px: Copy>(input: &Vec<Vec<Px>>, width: usize, sx: u32, sy: Fraction) -> (r: Vec<
    Vec<Px>,
>)
    requires
        rows_of_len(rows_view(input@), width as int),
        sx > 0,
        sy.numer > 0,
        sy.denom > 0,
        input@.len() * sy.numer <= i32::MAX,
        scaled_height(input@.len() as int, sy.numer as int, sy.denom as int) * sy.denom
            <= i32::MAX,
        width * sx <= usize::MAX,
    ensures
        rows_view(r@) == scaled(
            rows_view(input@),
            width as int,
            sx as int,
            sy.numer as int,
            sy.denom as int,
        ),
{
    let ghost g = rows_view(input@);
    let ghost target = scaled(g, width as int, sx as int, sy.numer as int, sy.denom as int);
    let len = input.len();
    proof {
        let n = len as int;
        let num = sy.numer as int;
        let den = sy.denom as int;
        assert(0 <= n <= n * num) by (nonlinear_arith)
            requires
                n >= 0,
                num >= 1,
        ;
        assert(0 <= (n * num) / den) by (nonlinear_arith)
            requires
                n * num >= 0,
                den >= 1,
        ;
        let hh = (n * num) / den;
        assert(hh <= hh * den) by (nonlinear_arith)
            requires
                hh >= 0,
                den >= 1,
        ;
    }
    let height = ratio_mul_trunc(len as i32, sy.numer, sy.denom) as usize;
    let out_width = width * sx as usize;
    let mut out: Vec<Vec<Px>> = Vec::new();
    let mut y: usize = 0;
    while y < height
        invariant
            g == rows_view(input@),
            target == scaled(g, width as int, sx as int, sy.numer as int, sy.denom as int),
            rows_of_len(g, width as int),
            height == target.len(),
            out_width == width * sx,
            sx > 0,
            sy.numer > 0,
            sy.denom > 0,
            height * sy.denom <= i32::MAX,
            height <= i32::MAX,
            y <= height,
            out@.len() == y,
            rows_view(out@) == target.subrange(0, y as int),
        decreases height - y,
    {
        proof {
            assert(y * sy.denom <= height * sy.denom) by (nonlinear_arith)
                requires
                    y <= height,
                    sy.denom > 0,
            ;
            lemma_source_row(y as int, g.len() as int, sy.numer as int, sy.denom as int);
        }
        let src_y = ratio_div_trunc(y as i32, sy.numer, sy.denom) as usize;
        let source = &input[src_y];
        let mut row: Vec<Px> = Vec::new();
        let mut x: usize = 0;
        while x < out_width
            invariant
                g == rows_view(input@),
                target == scaled(g, width as int, sx as int, sy.numer as int, sy.denom as int),
                rows_of_len(g, width as int),
                source@ == g[src_y as int],
                0 <= src_y < g.len(),
                src_y == (y * sy.denom) / (sy.numer as int),
                y < height == target.len(),
                out_width == width * sx,
                sx > 0,
                x <= out_width,
                row@ == target[y as int].subrange(0, x as int),
            decreases out_width - x,
        {
            assert((x as int) / (sx as int) < width) by (nonlinear_arith)
                requires
                    x < width * sx,
                    sx > 0,
            ;
            row.push(source[x / sx as usize]);
            assert(row@ =~= target[y as int].subrange(0, x as int + 1));
            x += 1;
        }
        assert(row@ =~= target[y as int]);
        let ghost before = out@;
        out.push(row);
        proof {
            assert forall|i: int| 0 <= i <= y implies #[trigger] rows_view(out@)[i] == target[i] by {
                if i < y {
                    assert(out@[i] == before[i]);
                    assert(rows_view(before)[i] == target.subrange(0, y as int)[i]);
                }
            }
            assert(rows_view(out@) =~= target.subrange(0, y as int + 1));
        }
        y += 1;
    }
    assert(rows_view(out@) =~= target);
    out
}

/// Scaling by one across and by one over one down leaves a grid unchanged.
pub proof fn lemma_scale_identity<Px>(g: Seq<Seq<Px>>, width: int)
    requires
        width >= 0,
        rows_of_len(g, width),
    ensures
        scaled(g, width, 1, 1, 1) == g,
{
    let s = scaled(g, width, 1, 1, 1);
    assert forall|y: int| 0 <= y < g.len() implies #[trigger] s[y] == g[y] by {
        assert(s[y] =~= g[y]);
    }
    assert(s =~= g);
}

/// Scaling by an integer factor `k` across and `k / 1` down makes a grid `k`
/// times as tall and as wide, and repeats each source pixel over a `k × k`
/// block, with no interpolation.
pub proof fn lemma_scale_blocks<Px>(g: Seq<Seq<Px>>, width: int, k: int)
    requires
        width >= 0,
        k > 0,
        rows_of_len(g, width),
    ensures
        scaled(g, width, k, k, 1).len() == g.len() * k,
        forall|y: int, x: int|
            0 <= y < g.len() * k && 0 <= x < width * k ==> #[trigger] scaled(g, width, k, k, 1)[y][x]
                == g[y / k][x / k],
{
    assert(g.len() * k >= 0) by (nonlinear_arith)
        requires
            k > 0,
    ;
    assert(width * k >= 0) by (nonlinear_arith)
        requires
            k > 0,
            width >= 0,
    ;
}

} // verus!
