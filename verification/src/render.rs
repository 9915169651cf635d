//! The raster renderer: one persistent accumulated value per pixel, driven
//! strictly in frame order. Each step decays the raster (in magnitude mode),
//! merges the frame's deltas, and maps every cell through the colour ramp
//! into a palette-indexed pixel buffer.

use vstd::prelude::*;
use crate::geo::RasterDims;
use crate::ramp::ColourRamp;
use crate::ramp::spec_index_for_magnitude;
use crate::ramp::spec_index_for_exact;

verus! {

/// How a cell accumulates events.
#[derive(Clone, Copy, Debug, PartialEq, Eq, Structural)]
pub enum RenderMode {
    /// A cell stores the frame number it was last touched; its colour comes
    /// from how long ago that was, by exact threshold match.
    Age,
    /// A cell stores a decaying running total of event counts; its colour
    /// comes from the magnitude scale.
    Magnitude,
}

/// A decayed magnitude: 95 percent of the value, truncated, so a positive
/// cell strictly shrinks at every decay step.
pub open spec fn spec_decayed(v: u32) -> int {
    v * 19 / 20
}

/// One cell after the decay step.
pub open spec fn spec_decay_cell(c: Option<u32>, mode: RenderMode) -> Option<u32> {
    match c {
        None => None,
        Some(v) => if mode == RenderMode::Magnitude && v > 0 {
            Some(spec_decayed(v) as u32)
        } else {
            Some(v)
        },
    }
}

/// The whole raster after the decay step.
pub open spec fn spec_decay_all(cells: Seq<Option<u32>>, mode: RenderMode) -> Seq<Option<u32>> {
    cells.map_values(|c: Option<u32>| spec_decay_cell(c, mode))
}

/// One cell after a delta of `m` events lands on it in frame `fno`.
pub open spec fn spec_merge_cell(c: Option<u32>, m: u16, mode: RenderMode, fno: u32) -> Option<
    u32,
> {
    match mode {
        RenderMode::Age => Some(fno),
        RenderMode::Magnitude => {
            let v0 = match c {
                None => 0,
                Some(v) => v as int,
            };
            if v0 + m > u32::MAX {
                Some(u32::MAX)
            } else {
                Some((v0 + m) as u32)
            }
        },
    }
}

/// The raster after all of a frame's deltas are merged, in order; a delta
/// whose pixel index lies outside the raster is dropped.
pub open spec fn spec_merge(
    cells: Seq<Option<u32>>,
    deltas: Seq<(u32, u16)>,
    mode: RenderMode,
    fno: u32,
) -> Seq<Option<u32>>
    decreases deltas.len(),
{
    if deltas.len() == 0 {
        cells
    } else {
        let pre = spec_merge(cells, deltas.drop_last(), mode, fno);
        let d = deltas.last();
        if d.0 < pre.len() {
            pre.update(d.0 as int, spec_merge_cell(pre[d.0 as int], d.1, mode, fno))
        } else {
            pre
        }
    }
}

/// The palette index a cell renders to in frame `fno`.
pub open spec fn spec_cell_index(
    steps: Seq<(u32, (u8, u8, u8))>,
    mode: RenderMode,
    c: Option<u32>,
    fno: u32,
) -> int {
    match mode {
        RenderMode::Magnitude => spec_index_for_magnitude(c) as int,
        RenderMode::Age => {
            let age = match c {
                None => None,
                Some(t) => if t <= fno {
                    Some((fno - t) as u32)
                } else {
                    Some(0u32)
                },
            };
            spec_index_for_exact(steps, age)
        },
    }
}

/// Merging never changes the raster's size.
pub proof fn lemma_merge_len(
    cells: Seq<Option<u32>>,
    deltas: Seq<(u32, u16)>,
    mode: RenderMode,
    fno: u32,
)
    ensures
        spec_merge(cells, deltas, mode, fno).len() == cells.len(),
    decreases deltas.len(),
{
    if deltas.len() > 0 {
        lemma_merge_len(cells, deltas.drop_last(), mode, fno);
    }
}

/// A cell no delta lands on is left alone by the merge step.
pub proof fn lemma_merge_untouched(
    cells: Seq<Option<u32>>,
    deltas: Seq<(u32, u16)>,
    mode: RenderMode,
    fno: u32,
    k: int,
)
    requires
        0 <= k < cells.len(),
        forall|j: int| 0 <= j < deltas.len() ==> (#[trigger] deltas[j]).0 != k,
    ensures
        spec_merge(cells, deltas, mode, fno)[k] == cells[k],
    decreases deltas.len(),
{
    if deltas.len() > 0 {
        assert(forall|j: int|
            0 <= j < deltas.drop_last().len() ==> (#[trigger] deltas.drop_last()[j]) == deltas[j]);
        lemma_merge_untouched(cells, deltas.drop_last(), mode, fno, k);
        lemma_merge_len(cells, deltas.drop_last(), mode, fno);
        assert(deltas[deltas.len() - 1].0 != k);
    }
}

/// In magnitude mode, a positive cell on which a frame's deltas land nowhere
/// comes out of that frame's decay-and-merge strictly smaller: left alone,
/// it sinks toward zero.
pub proof fn lemma_untouched_cell_decays(
    cells: Seq<Option<u32>>,
    deltas: Seq<(u32, u16)>,
    fno: u32,
    k: int,
    v: u32,
)
    requires
        0 <= k < cells.len(),
        cells[k] == Some(v),
        v > 0,
        forall|j: int| 0 <= j < deltas.len() ==> (#[trigger] deltas[j]).0 != k,
    ensures
        ({
            let after = spec_merge(spec_decay_all(cells, RenderMode::Magnitude), deltas,
                RenderMode::Magnitude, fno);
            &&& after[k] == Some(spec_decayed(v) as u32)
            &&& spec_decayed(v) < v
            &&& spec_decayed(v) >= 0
        }),
{
    let decayed = spec_decay_all(cells, RenderMode::Magnitude);
    assert(decayed.len() == cells.len());
    assert(decayed[k] == spec_decay_cell(cells[k], RenderMode::Magnitude));
    lemma_merge_untouched(decayed, deltas, RenderMode::Magnitude, fno, k);
    vstd::arithmetic::div_mod::lemma_multiply_divide_le(v * 19, 20, v as int);
}

/// The persistent per-pixel raster state and the policy it accumulates
/// under. Reset only at the start of a rendering pass.
pub struct Renderer {
    pub mode: RenderMode,
    pub dims: RasterDims,
    pub cells: Vec<Option<u32>>,
}

impl Renderer {
    pub open spec fn wf(self) -> bool {
        &&& self.dims.wf()
        &&& self.cells@.len() == self.dims.cells()
    }

    /// A fresh raster with every cell never touched.
    pub fn new(dims: RasterDims, mode: RenderMode) -> (r: Renderer)
        requires
            dims.wf(),
        ensures
            r.wf(),
            r.mode == mode,
            r.dims == dims,
            forall|k: int| 0 <= k < r.cells@.len() ==> (#[trigger] r.cells@[k]) is None,
    {
        proof {
            vstd::arithmetic::mul::lemma_mul_upper_bound(
                dims.width as int,
                65535,
                dims.height as int,
                65535,
            );
        }
        let n: u32 = dims.width * dims.height;
        let mut cells: Vec<Option<u32>> = Vec::new();
        let mut i: u32 = 0;
        while i < n
            invariant
                i <= n,
                cells@.len() == i,
                forall|k: int| 0 <= k < i ==> (#[trigger] cells@[k]) is None,
            decreases n - i,
        {
            cells.push(None);
            i += 1;
        }
        Renderer { mode, dims, cells }
    }

    /// Consumes one frame, in frame order: decays the raster (in magnitude
    /// mode), merges the frame's deltas (dropping out-of-range pixels), and
    /// renders every cell through the colour ramp into one palette-index
    /// byte per cell, row-major.
    pub fn step(&mut self, frame_number: u32, deltas: &Vec<(u32, u16)>, ramp: &ColourRamp) -> (r:
        Vec<u8>)
        requires
            old(self).wf(),
            ramp.wf(),
        ensures
            final(self).wf(),
            final(self).mode == old(self).mode,
            final(self).dims == old(self).dims,
            final(self).cells@ == spec_merge(
                spec_decay_all(old(self).cells@, old(self).mode),
                deltas@,
                old(self).mode,
                frame_number,
            ),
            r@.len() == old(self).dims.cells(),
            forall|k: int|
                0 <= k < r@.len() ==> r@[k] == spec_cell_index(
                    ramp.steps@,
                    old(self).mode,
                    final(self).cells@[k],
                    frame_number,
                ),
    {
        let ghost orig = self.cells@;
        let mode = self.mode;
        // Decay step.
        if mode == RenderMode::Magnitude {
            let mut i: usize = 0;
            while i < self.cells.len()
                invariant
                    i <= self.cells@.len(),
                    self.cells@.len() == orig.len(),
                    orig == old(self).cells@,
                    self.dims == old(self).dims,
                    self.mode == old(self).mode,
                    old(self).wf(),
                    mode == old(self).mode,
                    mode == RenderMode::Magnitude,
                    forall|k: int|
                        0 <= k < i ==> self.cells@[k] == spec_decay_cell(orig[k], mode),
                    forall|k: int| i <= k < orig.len() ==> self.cells@[k] == orig[k],
                decreases self.cells@.len() - i,
            {
                match self.cells[i] {
                    None => {},
                    Some(v) => {
                        if v > 0 {
                            proof {
                                vstd::arithmetic::div_mod::lemma_multiply_divide_le(
                                    v * 19,
                                    20,
                                    v as int,
                                );
                            }
                            let nv: u32 = (((v as u64) * 19) / 20) as u32;
                            self.cells.set(i, Some(nv));
                        }
                    },
                }
                i += 1;
            }
            proof {
                assert(self.cells@ =~= spec_decay_all(orig, mode));
            }
        } else {
            proof {
                assert(self.cells@ =~= spec_decay_all(orig, mode));
            }
        }
        let ghost decayed = self.cells@;
        // Merge step.
        let mut k: usize = 0;
        while k < deltas.len()
            invariant
                k <= deltas@.len(),
                self.cells@ == spec_merge(decayed, deltas@.take(k as int), mode, frame_number),
                self.cells@.len() == decayed.len(),
                decayed == spec_decay_all(old(self).cells@, old(self).mode),
                decayed.len() == old(self).cells@.len(),
                self.dims == old(self).dims,
                self.mode == old(self).mode,
                old(self).wf(),
                mode == old(self).mode,
            decreases deltas@.len() - k,
        {
            let d = deltas[k];
            proof {
                assert(deltas@.take(k as int + 1).drop_last() =~= deltas@.take(k as int));
                assert(deltas@.take(k as int + 1).last() == deltas@[k as int]);
            }
            if (d.0 as usize) < self.cells.len() {
                let c = self.cells[d.0 as usize];
                let nv: Option<u32> = match mode {
                    RenderMode::Age => Some(frame_number),
                    RenderMode::Magnitude => {
                        let v0: u32 = match c {
                            None => 0,
                            Some(v) => v,
                        };
                        if v0 > u32::MAX - (d.1 as u32) {
                            Some(u32::MAX)
                        } else {
                            Some(v0 + (d.1 as u32))
                        }
                    },
                };
                self.cells.set(d.0 as usize, nv);
            }
            k += 1;
        }
        proof {
            assert(deltas@.take(deltas@.len() as int) =~= deltas@);
        }
        // Render step.
        let mut out: Vec<u8> = Vec::new();
        let mut i: usize = 0;
        while i < self.cells.len()
            invariant
                i <= self.cells@.len(),
                ramp.wf(),
                self.cells@ == spec_merge(
                    spec_decay_all(old(self).cells@, old(self).mode),
                    deltas@,
                    old(self).mode,
                    frame_number,
                ),
                self.cells@.len() == old(self).cells@.len(),
                self.dims == old(self).dims,
                self.mode == old(self).mode,
                old(self).wf(),
                mode == old(self).mode,
                out@.len() == i,
                forall|j: int|
                    0 <= j < i ==> out@[j] == spec_cell_index(
                        ramp.steps@,
                        mode,
                        self.cells@[j],
                        frame_number,
                    ),
            decreases self.cells@.len() - i,
        {
            let c = self.cells[i];
            let idx: u8 = match mode {
                RenderMode::Magnitude => ramp.index_for_magnitude(c),
                RenderMode::Age => {
                    let age: Option<u32> = match c {
                        None => None,
                        Some(t) => {
                            if t <= frame_number {
                                Some(frame_number - t)
                            } else {
                                Some(0)
                            }
                        },
                    };
                    ramp.index_for_exact(age)
                },
            };
            out.push(idx);
            i += 1;
        }
        out
    }
}

} // verus!
