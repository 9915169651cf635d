//! The geographic view: a rectangle in micro-degrees, the raster dimensions
//! derived from it, and the equirectangular projection from a coordinate to a
//! row-major pixel index.

use vstd::prelude::*;

verus! {

/// Which projection maps coordinates to pixels. The orthographic variant is
/// computed by an external collaborator; this crate computes the
/// equirectangular one.
#[derive(Clone, Copy, Debug, PartialEq, Eq, Structural)]
pub enum ProjectionKind {
    Equirect,
    Ortho,
}

/// The geographic rectangle being rendered, in micro-degrees (one degree is
/// 1,000,000 units).
#[derive(Clone, Copy, Debug, PartialEq, Eq, Structural)]
pub struct ViewBox {
    pub left: i64,
    pub bottom: i64,
    pub right: i64,
    pub top: i64,
}

impl ViewBox {
    /// Edges in range and not crossed: longitudes within half a turn either
    /// way, latitudes within a quarter turn, left of right, bottom below top.
    pub open spec fn wf(self) -> bool {
        &&& -180_000_000 <= self.left
        &&& self.left < self.right
        &&& self.right <= 180_000_000
        &&& -90_000_000 <= self.bottom
        &&& self.bottom < self.top
        &&& self.top <= 90_000_000
    }

    pub open spec fn width_units(self) -> int {
        self.right - self.left
    }

    pub open spec fn height_units(self) -> int {
        self.top - self.bottom
    }

    /// A view box from its four edges; rejects crossed or out-of-range edges.
    pub fn new(left: i64, bottom: i64, right: i64, top: i64) -> (r: Option<ViewBox>)
        ensures
            ({
                let vb = ViewBox { left, bottom, right, top };
                if vb.wf() {
                    r == Some(vb)
                } else {
                    r is None
                }
            }),
    {
        if -180_000_000 <= left && left < right && right <= 180_000_000 && -90_000_000 <= bottom
            && bottom < top && top <= 90_000_000 {
            Some(ViewBox { left, bottom, right, top })
        } else {
            None
        }
    }
}

/// Raster dimensions: both sides in `[1, 65535]`, so every pixel index fits
/// in `u32`.
#[derive(Clone, Copy, Debug, PartialEq, Eq, Structural)]
pub struct RasterDims {
    pub width: u32,
    pub height: u32,
}

impl RasterDims {
    pub open spec fn wf(self) -> bool {
        &&& 1 <= self.width <= 65535
        &&& 1 <= self.height <= 65535
    }

    /// Number of cells of the raster.
    pub open spec fn cells(self) -> int {
        self.width * self.height
    }

    /// Dimensions for a view box at a target height: the width is the height
    /// scaled by the view box's aspect ratio, truncated. Rejects a height or
    /// a derived width outside `[1, 65535]`.
    pub fn for_view(vb: &ViewBox, height: u32) -> (r: Option<RasterDims>)
        requires
            vb.wf(),
        ensures
            ({
                let w = vb.width_units() * height / vb.height_units();
                if 1 <= height <= 65535 && 1 <= w <= 65535 {
                    r == Some(RasterDims { width: w as u32, height })
                } else {
                    r is None
                }
            }),
    {
        if height == 0 || height > 65535 {
            return None;
        }
        let wu = (vb.right - vb.left) as u64;
        let hu = (vb.top - vb.bottom) as u64;
        proof {
            assert(wu == vb.width_units());
            assert(hu == vb.height_units());
            vstd::arithmetic::mul::lemma_mul_upper_bound(
                wu as int,
                360_000_000,
                height as int,
                65535,
            );
        }
        let w = wu * (height as u64) / hu;
        if w == 0 || w > 65535 {
            None
        } else {
            Some(RasterDims { width: w as u32, height })
        }
    }
}

/// The equirectangular pixel index of a coordinate: `None` for a coordinate
/// on or outside any edge of the view box, otherwise the row-major index of
/// the linearly mapped pixel, always below the cell count.
pub fn project_equirect(vb: &ViewBox, dims: &RasterDims, lat: i64, lon: i64) -> (r: Option<u32>)
    requires
        vb.wf(),
        dims.wf(),
    ensures
        ({
            let inside = vb.bottom < lat < vb.top && vb.left < lon < vb.right;
            let x = (lon - vb.left) * dims.width / vb.width_units();
            let y = (vb.top - lat) * dims.height / vb.height_units();
            &&& inside ==> r == Some((y * dims.width + x) as u32)
            &&& inside ==> y * dims.width + x < dims.cells()
            &&& !inside ==> r is None
        }),
{
    if lat >= vb.top || lat <= vb.bottom || lon >= vb.right || lon <= vb.left {
        return None;
    }
    let lon0 = (lon - vb.left) as u64;
    let lat0 = (vb.top - lat) as u64;
    let wu = (vb.right - vb.left) as u64;
    let hu = (vb.top - vb.bottom) as u64;
    proof {
        vstd::arithmetic::mul::lemma_mul_upper_bound(
            lon0 as int,
            360_000_000,
            dims.width as int,
            65535,
        );
        vstd::arithmetic::mul::lemma_mul_upper_bound(
            lat0 as int,
            180_000_000,
            dims.height as int,
            65535,
        );
    }
    let x = lon0 * (dims.width as u64) / wu;
    let y = lat0 * (dims.height as u64) / hu;
    proof {
        vstd::arithmetic::mul::lemma_mul_strict_inequality(
            lon0 as int,
            wu as int,
            dims.width as int,
        );
        vstd::arithmetic::div_mod::lemma_multiply_divide_lt(
            lon0 * dims.width,
            wu as int,
            dims.width as int,
        );
        vstd::arithmetic::mul::lemma_mul_strict_inequality(
            lat0 as int,
            hu as int,
            dims.height as int,
        );
        vstd::arithmetic::div_mod::lemma_multiply_divide_lt(
            lat0 * dims.height,
            hu as int,
            dims.height as int,
        );
        assert(x < dims.width);
        assert(y < dims.height);
        vstd::arithmetic::mul::lemma_mul_upper_bound(y as int, 65534, dims.width as int, 65535);
        assert(y * dims.width + x < 4294967296);
        assert(y * dims.width + x < dims.cells()) by (nonlinear_arith)
            requires
                x < dims.width,
                y < dims.height,
                dims.cells() == dims.width * dims.height,
                0 <= x,
                0 <= y,
        ;
    }
    Some((y as u32) * dims.width + (x as u32))
}

} // verus!
