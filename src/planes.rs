//! Two-dimensional planes of pixels and of mask bits, stored in
//! `ndarray::Array2` and indexed `(x, y)`.
use vstd::prelude::*;

verus! {

/// A plane of palette indices, held in an `ndarray::Array2<u8>` of shape
/// `(width, height)`.
#[verifier::external_body]
pub struct PixelPlane {
    inner: ndarray::Array2<u8>,
}

/// A plane of mask bits, held in an `ndarray::Array2<bool>` of shape
/// `(width, height)`.
#[verifier::external_body]
pub struct MaskPlane {
    inner: ndarray::Array2<bool>,
}

/// What a pixel plane holds: one sequence per column `x`, indexed by `y`.
pub uninterp spec fn pixel_cells(p: PixelPlane) -> Seq<Seq<u8>>;

/// What a mask plane holds: one sequence per column `x`, indexed by `y`.
pub uninterp spec fn mask_cells(p: MaskPlane) -> Seq<Seq<bool>>;

/// `width` columns of `height` copies of `v`.
pub open spec fn filled<T>(width: int, height: int, v: T) -> Seq<Seq<T>> {
    Seq::new(width as nat, |x: int| Seq::new(height as nat, |y: int| v))
}

/// Every column of `s` has length `height`.
pub open spec fn columns_of_len<T>(s: Seq<Seq<T>>, height: int) -> bool {
    forall|x: int| 0 <= x < s.len() ==> (#[trigger] s[x]).len() == height
}

impl PixelPlane {
    /// Relies on `ndarray::Array2::zeros`: an array of the given shape, all
    /// zero. It panics only where the element count overflows `isize`.
    #[verifier::external_body]
    pub(crate) fn zeros(width: usize, height: usize) -> (p: PixelPlane)
        requires
            width * height <= isize::MAX,
        ensures
            pixel_cells(p) == filled(width as int, height as int, 0u8),
    {
        PixelPlane { inner: ndarray::Array2::zeros((width, height)) }
    }

    /// Relies on indexing an `ndarray::Array2` by `[x, y]`, which panics
    /// outside its shape.
    #[verifier::external_body]
    pub(crate) fn get(&self, x: usize, y: usize) -> (v: u8)
        requires
            x < pixel_cells(*self).len(),
            y < pixel_cells(*self)[x as int].len(),
        ensures
            v == pixel_cells(*self)[x as int][y as int],
    {
        self.inner[[x, y]]
    }

    /// Relies on indexing an `ndarray::Array2` mutably by `[x, y]`, which
    /// panics outside its shape.
    #[verifier::external_body]
    pub(crate) fn set(&mut self, x: usize, y: usize, v: u8)
        requires
            x < pixel_cells(*old(self)).len(),
            y < pixel_cells(*old(self))[x as int].len(),
        ensures
            pixel_cells(*final(self)) == pixel_cells(*old(self)).update(
                x as int,
                pixel_cells(*old(self))[x as int].update(y as int, v),
            ),
    {
        self.inner[[x, y]] = v;
    }
}

impl MaskPlane {
    /// Relies on `ndarray::Array2::default`: an array of the given shape,
    /// every element `bool::default()`, which is `false`. It panics only where
    /// the element count overflows `isize`.
    #[verifier::external_body]
    pub(crate) fn cleared(width: usize, height: usize) -> (p: MaskPlane)
        requires
            width * height <= isize::MAX,
        ensures
            mask_cells(p) == filled(width as int, height as int, false),
    {
        MaskPlane { inner: ndarray::Array2::default((width, height)) }
    }

    /// Relies on indexing an `ndarray::Array2` by `[x, y]`, which panics
    /// outside its shape.
    #[verifier::external_body]
    pub(crate) fn get(&self, x: usize, y: usize) -> (v: bool)
        requires
            x < mask_cells(*self).len(),
            y < mask_cells(*self)[x as int].len(),
        ensures
            v == mask_cells(*self)[x as int][y as int],
    {
        self.inner[[x, y]]
    }

    /// Relies on indexing an `ndarray::Array2` mutably by `[x, y]`, which
    /// panics outside its shape.
    #[verifier::external_body]
    pub(crate) fn set(&mut self, x: usize, y: usize, v: bool)
        requires
            x < mask_cells(*old(self)).len(),
            y < mask_cells(*old(self))[x as int].len(),
        ensures
            mask_cells(*final(self)) == mask_cells(*old(self)).update(
                x as int,
                mask_cells(*old(self))[x as int].update(y as int, v),
            ),
    {
        self.inner[[x, y]] = v;
    }
}

} // verus!
