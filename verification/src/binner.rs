//! Temporal binning: maps event timestamps to frame numbers, accumulates
//! per-frame, per-pixel event counts, and materializes the gap-free frame
//! sequence the renderer consumes.

use vstd::prelude::*;
use std::collections::HashMap;
use crate::store::Frame;
use crate::store::deltas_map;
use crate::store::keys_unique;
use crate::store::lemma_deltas_map_at;
use crate::store::lemma_deltas_map_contains;
use crate::store::lemma_deltas_map_push;
use crate::store::lemma_deltas_map_update;

verus! {

broadcast use vstd::std_specs::hash::group_hash_axioms;

/// The frame a timestamp falls in, as a mathematical value.
pub open spec fn spec_frame_of(timestamp: u64, epoch: u64, sec_per_frame: u32) -> int {
    (timestamp - epoch) / (sec_per_frame as int)
}

/// The frame that a timestamp falls in, counted from `epoch` in buckets of
/// `sec_per_frame` seconds.
///
/// A timestamp before the epoch is a data-integrity violation and yields
/// `None`, as does a frame number too large for `u32`.
pub fn frame_number(timestamp: u64, epoch: u64, sec_per_frame: u32) -> (r: Option<u32>)
    requires
        sec_per_frame > 0,
    ensures
        r == (if timestamp >= epoch && spec_frame_of(timestamp, epoch, sec_per_frame) <= u32::MAX {
            Some(spec_frame_of(timestamp, epoch, sec_per_frame) as u32)
        } else {
            None::<u32>
        }),
{
    if timestamp < epoch {
        return None;
    }
    let offset: u64 = timestamp - epoch;
    let f: u64 = offset / (sec_per_frame as u64);
    if f > u32::MAX as u64 {
        None
    } else {
        Some(f as u32)
    }
}

/// Why the binner rejected an event.
#[derive(Clone, Copy, Debug, PartialEq, Eq, Structural)]
pub enum BinError {
    /// The event's timestamp lies before the configured epoch.
    BeforeEpoch,
    /// The event lies so far past the epoch that its frame number does not
    /// fit the frame counter.
    FrameOverflow,
}

/// Groups incoming events into frame buckets by elapsed time since an epoch
/// and buffers one pixel-to-count delta mapping per touched frame. Memory is
/// bounded by the number of distinct (frame, pixel) pairs touched, not by
/// the number of events.
pub struct Binner {
    pub epoch: u64,
    pub sec_per_frame: u32,
    pub seen_any: bool,
    pub first: u32,
    pub last: u32,
    pub counts: HashMap<u32, Vec<(u32, u16)>>,
}

impl Binner {
    pub open spec fn wf(self) -> bool {
        &&& self.sec_per_frame > 0
        &&& (forall|k: u32| #[trigger] self.counts@.contains_key(k) ==> {
            &&& keys_unique(self.counts@[k]@)
            &&& self.seen_any
            &&& self.first <= k <= self.last
        })
        &&& (self.seen_any ==> self.first <= self.last)
    }

    /// The accumulated frame-to-(pixel-to-count) mapping.
    pub open spec fn model(self) -> Map<u32, Map<u32, u16>> {
        self.counts@.map_values(|v: Vec<(u32, u16)>| deltas_map(v@))
    }

    /// A fresh binner that has seen no event.
    pub fn new(epoch: u64, sec_per_frame: u32) -> (r: Binner)
        requires
            sec_per_frame > 0,
        ensures
            r.wf(),
            r.epoch == epoch,
            r.sec_per_frame == sec_per_frame,
            !r.seen_any,
            r.model() =~= Map::<u32, Map<u32, u16>>::empty(),
    {
        Binner {
            epoch,
            sec_per_frame,
            seen_any: false,
            first: 0,
            last: 0,
            counts: HashMap::new(),
        }
    }

    /// Takes one event: widens the observed frame range by the event's
    /// frame, and, when the event projected onto a pixel, counts it there,
    /// saturating instead of overflowing. An event before the epoch, or too
    /// far past it, is rejected and leaves the binner unchanged.
    pub fn add(&mut self, timestamp: u64, pixel: Option<u32>) -> (r: Result<(), BinError>)
        requires
            old(self).wf(),
        ensures
            final(self).wf(),
            final(self).epoch == old(self).epoch,
            final(self).sec_per_frame == old(self).sec_per_frame,
            match r {
                Ok(()) => {
                    let f = spec_frame_of(timestamp, old(self).epoch, old(self).sec_per_frame);
                    &&& timestamp >= old(self).epoch
                    &&& f <= u32::MAX
                    &&& final(self).seen_any
                    &&& final(self).first == (if old(self).seen_any && old(self).first < f {
                        old(self).first as int
                    } else {
                        f
                    })
                    &&& final(self).last == (if old(self).seen_any && old(self).last > f {
                        old(self).last as int
                    } else {
                        f
                    })
                    &&& match pixel {
                        None => final(self).model() == old(self).model(),
                        Some(p) => {
                            let inner = if old(self).model().contains_key(f as u32) {
                                old(self).model()[f as u32]
                            } else {
                                Map::<u32, u16>::empty()
                            };
                            let v0 = if inner.contains_key(p) {
                                inner[p]
                            } else {
                                0
                            };
                            let v1 = if v0 == u16::MAX {
                                v0 as int
                            } else {
                                v0 + 1
                            };
                            final(self).model() == old(self).model().insert(
                                f as u32,
                                inner.insert(p, v1 as u16),
                            )
                        },
                    }
                },
                Err(e) => {
                    &&& *final(self) == *old(self)
                    &&& (e == BinError::BeforeEpoch <==> timestamp < old(self).epoch)
                    &&& (e == BinError::FrameOverflow <==> timestamp >= old(self).epoch
                        && spec_frame_of(timestamp, old(self).epoch, old(self).sec_per_frame)
                        > u32::MAX)
                },
            },
    {
        let f = match frame_number(timestamp, self.epoch, self.sec_per_frame) {
            None => {
                if timestamp < self.epoch {
                    return Err(BinError::BeforeEpoch);
                } else {
                    return Err(BinError::FrameOverflow);
                }
            },
            Some(f) => f,
        };
        if !self.seen_any {
            self.seen_any = true;
            self.first = f;
            self.last = f;
        } else {
            if f < self.first {
                self.first = f;
            }
            if f > self.last {
                self.last = f;
            }
        }
        let p = match pixel {
            None => {
                proof {
                    assert(self.model() =~= old(self).model());
                }
                return Ok(());
            },
            Some(p) => p,
        };
        let ghost pre = self.counts@;
        let mut inner: Vec<(u32, u16)> = match self.counts.remove(&f) {
            None => Vec::new(),
            Some(v) => v,
        };
        proof {
            assert(self.counts@ == pre.remove(f));
            if pre.contains_key(f) {
                assert(keys_unique(inner@));
            } else {
                assert(inner@ =~= Seq::<(u32, u16)>::empty());
            }
        }
        bump(&mut inner, p);
        let ghost innerv = inner@;
        self.counts.insert(f, inner);
        proof {
            assert(self.counts@ == pre.remove(f).insert(f, inner));
            assert(self.counts@ =~= pre.insert(f, inner));
            if pre.contains_key(f) {
                assert(old(self).model().contains_key(f));
                assert(old(self).model()[f] == deltas_map(pre[f]@));
            } else {
                lemma_deltas_map_contains(Seq::<(u32, u16)>::empty(), p);
            }
            assert(self.model() =~= old(self).model().insert(f, deltas_map(innerv)));
        }
        Ok(())
    }

    /// Materializes the frame store: one frame per integer in the observed
    /// frame range `[first, last]`, each carrying that frame number, in
    /// increasing order, an empty delta list where no event landed. A binner
    /// that saw no event yields no frame.
    pub fn finish(self) -> (r: Vec<Frame>)
        requires
            self.wf(),
        ensures
            !self.seen_any ==> r@.len() == 0,
            self.seen_any ==> r@.len() == self.last - self.first + 1,
            forall|j: int|
                0 <= j < r@.len() ==> (#[trigger] r@[j]).frame_number == self.first + j,
            forall|j: int| 0 <= j < r@.len() ==> (#[trigger] r@[j]).wf(),
            forall|j: int|
                0 <= j < r@.len() ==> (#[trigger] r@[j]).delta_map() == (if self.model()
                    .contains_key((self.first + j) as u32) {
                    self.model()[(self.first + j) as u32]
                } else {
                    Map::<u32, u16>::empty()
                }),
    {
        let mut out: Vec<Frame> = Vec::new();
        if !self.seen_any {
            return out;
        }
        let mut counts = self.counts;
        let span: u32 = self.last - self.first;
        let ghost orig = self.counts@;
        let mut i: u64 = 0;
        while i <= span as u64
            invariant
                self.wf(),
                self.seen_any,
                span == self.last - self.first,
                orig == self.counts@,
                0 <= i <= span + 1,
                out@.len() == i,
                forall|k: u32| #[trigger] counts@.contains_key(k) ==> orig.contains_key(k)
                    && counts@[k] == orig[k],
                forall|k: u32| orig.contains_key(k) && !(self.first + i <= k <= self.last)
                    ==> !(#[trigger] counts@.contains_key(k)),
                forall|k: u32| orig.contains_key(k) && self.first + i <= k <= self.last
                    ==> #[trigger] counts@.contains_key(k),
                forall|j: int|
                    0 <= j < i ==> (#[trigger] out@[j]).frame_number == self.first + j,
                forall|j: int| 0 <= j < i ==> (#[trigger] out@[j]).wf(),
                forall|j: int|
                    0 <= j < i ==> (#[trigger] out@[j]).delta_map() == (if orig.contains_key(
                        (self.first + j) as u32,
                    ) {
                        deltas_map(orig[(self.first + j) as u32]@)
                    } else {
                        Map::<u32, u16>::empty()
                    }),
            decreases span + 1 - i,
        {
            let fk: u32 = self.first + (i as u32);
            let ghost pre = counts@;
            let deltas: Vec<(u32, u16)> = match counts.remove(&fk) {
                None => Vec::new(),
                Some(v) => v,
            };
            proof {
                assert(counts@ == pre.remove(fk));
                if !pre.contains_key(fk) {
                    assert(!orig.contains_key(fk));
                    assert(deltas@ =~= Seq::<(u32, u16)>::empty());
                } else {
                    assert(self.counts@.contains_key(fk));
                    assert(deltas@ == orig[fk]@);
                }
                assert(keys_unique(deltas@));
            }
            out.push(Frame { frame_number: fk, deltas });
            i = i + 1;
        }
        proof {
            assert(forall|j: int|
                0 <= j < out@.len() ==> (#[trigger] out@[j]).delta_map() == (if self.model()
                    .contains_key((self.first + j) as u32) {
                    self.model()[(self.first + j) as u32]
                } else {
                    Map::<u32, u16>::empty()
                }));
        }
        out
    }
}

/// Adds one event at `pixel` to a delta list, saturating at the largest
/// representable count.
fn bump(deltas: &mut Vec<(u32, u16)>, pixel: u32)
    requires
        keys_unique(old(deltas)@),
    ensures
        keys_unique(final(deltas)@),
        ({
            let m = deltas_map(old(deltas)@);
            let v0 = if m.contains_key(pixel) {
                m[pixel]
            } else {
                0
            };
            let v1 = if v0 == u16::MAX {
                v0 as int
            } else {
                v0 + 1
            };
            deltas_map(final(deltas)@) == m.insert(pixel, v1 as u16)
        }),
{
    let mut i: usize = 0;
    while i < deltas.len()
        invariant
            i <= deltas@.len(),
            deltas@ == old(deltas)@,
            keys_unique(deltas@),
            forall|j: int| 0 <= j < i ==> (#[trigger] deltas@[j]).0 != pixel,
        decreases deltas@.len() - i,
    {
        if deltas[i].0 == pixel {
            let v = deltas[i].1;
            let v1: u16 = if v == 65535 {
                v
            } else {
                v + 1
            };
            let ghost s = deltas@;
            deltas.set(i, (pixel, v1));
            proof {
                lemma_deltas_map_at(s, i as int);
                lemma_deltas_map_update(s, i as int, v1);
                assert(deltas@ =~= s.update(i as int, (pixel, v1)));
            }
            return;
        }
        i += 1;
    }
    let ghost s = deltas@;
    deltas.push((pixel, 1));
    proof {
        lemma_deltas_map_contains(s, pixel);
        assert(!deltas_map(s).contains_key(pixel));
        lemma_deltas_map_push(s, pixel, 1);
        assert(deltas@ =~= s.push((pixel, 1u16)));
        assert(forall|a: int, b: int|
            0 <= a < b < deltas@.len() ==> (#[trigger] deltas@[a]).0 != (#[trigger] deltas@[b]).0);
    }
}

} // verus!
