//! The colour ramp: an ordered step table mapping an accumulated pixel value
//! to a palette index, loaded from a small CSV step table.

use vstd::prelude::*;
use vstd::string::StringSliceAdditionalSpecFns;
use crate::text::is_digits;
use crate::text::dec_val;
use crate::text::split_on;
use crate::text::lines_of;
use crate::text::views_of;
use crate::text::split_on_byte;
use crate::text::split_lines;
use crate::text::parse_u8;
use crate::text::parse_u32;

verus! {

/// Why a colour-ramp step table was rejected.
#[derive(Clone, Copy, Debug, PartialEq, Eq, Structural)]
pub enum RampError {
    /// A line with the wrong number of fields, a non-numeric field, or a
    /// field out of range, or an empty table.
    Malformed,
    /// More steps than a 256-entry palette can hold beside the empty colour.
    TooManySteps,
}

/// Ordered mapping from an accumulated numeric value to a palette index:
/// index 0 is the empty colour, the steps fill the following indices.
pub struct ColourRamp {
    pub empty_colour: (u8, u8, u8),
    pub steps: Vec<(u32, (u8, u8, u8))>,
}

/// The empty colour of a parsed `R,G,B` line, when well-formed.
pub open spec fn spec_parse_rgb(l: Seq<u8>) -> Option<(u8, u8, u8)> {
    let fs = split_on(l, 44);
    if fs.len() == 3 && is_digits(fs[0]) && dec_val(fs[0]) <= u8::MAX && is_digits(fs[1])
        && dec_val(fs[1]) <= u8::MAX && is_digits(fs[2]) && dec_val(fs[2]) <= u8::MAX {
        Some((dec_val(fs[0]) as u8, dec_val(fs[1]) as u8, dec_val(fs[2]) as u8))
    } else {
        None
    }
}

/// One parsed `threshold,R,G,B` step line, when well-formed.
pub open spec fn spec_parse_step(l: Seq<u8>) -> Option<(u32, (u8, u8, u8))> {
    let fs = split_on(l, 44);
    if fs.len() == 4 && is_digits(fs[0]) && dec_val(fs[0]) <= u32::MAX && is_digits(fs[1])
        && dec_val(fs[1]) <= u8::MAX && is_digits(fs[2]) && dec_val(fs[2]) <= u8::MAX
        && is_digits(fs[3]) && dec_val(fs[3]) <= u8::MAX {
        Some(
            (
                dec_val(fs[0]) as u32,
                (dec_val(fs[1]) as u8, dec_val(fs[2]) as u8, dec_val(fs[3]) as u8),
            ),
        )
    } else {
        None
    }
}

/// All step lines parsed in order; `None` as soon as one is malformed.
pub open spec fn spec_parse_steps(ls: Seq<Seq<u8>>) -> Option<Seq<(u32, (u8, u8, u8))>>
    decreases ls.len(),
{
    if ls.len() == 0 {
        Some(Seq::empty())
    } else {
        match spec_parse_steps(ls.drop_last()) {
            None => None,
            Some(pre) => match spec_parse_step(ls.last()) {
                None => None,
                Some(st) => Some(pre.push(st)),
            },
        }
    }
}

/// The whole ramp table: the first line is the empty colour, every further
/// line one step.
pub open spec fn spec_parse_ramp(s: Seq<u8>) -> Option<((u8, u8, u8), Seq<(u32, (u8, u8, u8))>)> {
    let ls = lines_of(s);
    if ls.len() == 0 {
        None
    } else {
        match spec_parse_rgb(ls[0]) {
            None => None,
            Some(e) => match spec_parse_steps(ls.drop_first()) {
                None => None,
                Some(st) => Some((e, st)),
            },
        }
    }
}

/// The palette bytes: the empty colour, then each step's colour, flattened.
pub open spec fn spec_palette(e: (u8, u8, u8), steps: Seq<(u32, (u8, u8, u8))>) -> Seq<u8>
    decreases steps.len(),
{
    if steps.len() == 0 {
        seq![e.0, e.1, e.2]
    } else {
        let c = steps.last().1;
        spec_palette(e, steps.drop_last()) + seq![c.0, c.1, c.2]
    }
}

/// Position of the first step whose threshold equals `v`, or -1.
pub open spec fn spec_first_match(steps: Seq<(u32, (u8, u8, u8))>, v: u32) -> int
    decreases steps.len(),
{
    if steps.len() == 0 {
        -1
    } else if steps[0].0 == v {
        0
    } else {
        let r = spec_first_match(steps.drop_first(), v);
        if r < 0 {
            -1
        } else {
            r + 1
        }
    }
}

/// The exact-match palette index of an accumulated value: 0 when the value
/// is absent or matches no step's threshold, otherwise one past the position
/// of the first matching step (meaningful when the ramp is well formed).
pub open spec fn spec_index_for_exact(steps: Seq<(u32, (u8, u8, u8))>, value: Option<u32>) -> int {
    match value {
        None => 0,
        Some(v) => {
            let i = spec_first_match(steps, v);
            if i < 0 {
                0
            } else {
                i + 1
            }
        },
    }
}

proof fn lemma_first_match_skip(steps: Seq<(u32, (u8, u8, u8))>, v: u32, i: int)
    requires
        0 <= i <= steps.len(),
        forall|j: int| 0 <= j < i ==> (#[trigger] steps[j]).0 != v,
    ensures
        spec_first_match(steps, v) == (if spec_first_match(steps.skip(i), v) < 0 {
            -1
        } else {
            i + spec_first_match(steps.skip(i), v)
        }),
    decreases i,
{
    if i == 0 {
        assert(steps.skip(0) =~= steps);
    } else {
        assert(steps[0].0 != v);
        assert(forall|j: int|
            0 <= j < i - 1 ==> (#[trigger] steps.drop_first()[j]).0 == steps[j + 1].0);
        lemma_first_match_skip(steps.drop_first(), v, i - 1);
        assert(steps.drop_first().skip(i - 1) =~= steps.skip(i));
    }
}

/// The magnitude-scale palette index of an accumulated value: 0 for a pixel
/// never touched, otherwise at least 1, scaled down as the value grows.
pub open spec fn spec_index_for_magnitude(magnitude: Option<u32>) -> u8 {
    match magnitude {
        None => 0,
        Some(v) => if v >= 255 {
            1
        } else {
            (255 - v) as u8
        },
    }
}

proof fn lemma_parse_steps_none(ls: Seq<Seq<u8>>, j: int)
    requires
        0 <= j <= ls.len(),
        spec_parse_steps(ls.take(j)) is None,
    ensures
        spec_parse_steps(ls) is None,
    decreases ls.len() - j,
{
    if j < ls.len() {
        assert(ls.take(j + 1).drop_last() =~= ls.take(j));
        lemma_parse_steps_none(ls, j + 1);
    } else {
        assert(ls.take(j) =~= ls);
    }
}

/// Parses one `R,G,B` line.
fn parse_rgb(l: &[u8]) -> (r: Option<(u8, u8, u8)>)
    ensures
        r == spec_parse_rgb(l@),
{
    let fs = split_on_byte(l, 44);
    proof {
        assert(views_of(fs@).len() == fs@.len());
        assert(forall|k: int| 0 <= k < fs@.len() ==> views_of(fs@)[k] == #[trigger] fs@[k]@);
    }
    if fs.len() != 3 {
        return None;
    }
    let a = parse_u8(fs[0].as_slice());
    let b = parse_u8(fs[1].as_slice());
    let c = parse_u8(fs[2].as_slice());
    match (a, b, c) {
        (Some(x), Some(y), Some(z)) => Some((x, y, z)),
        _ => None,
    }
}

/// Parses one `threshold,R,G,B` step line.
fn parse_step(l: &[u8]) -> (r: Option<(u32, (u8, u8, u8))>)
    ensures
        r == spec_parse_step(l@),
{
    let fs = split_on_byte(l, 44);
    proof {
        assert(views_of(fs@).len() == fs@.len());
        assert(forall|k: int| 0 <= k < fs@.len() ==> views_of(fs@)[k] == #[trigger] fs@[k]@);
    }
    if fs.len() != 4 {
        return None;
    }
    let t = parse_u32(fs[0].as_slice());
    let a = parse_u8(fs[1].as_slice());
    let b = parse_u8(fs[2].as_slice());
    let c = parse_u8(fs[3].as_slice());
    match (t, a, b, c) {
        (Some(w), Some(x), Some(y), Some(z)) => Some((w, (x, y, z))),
        _ => None,
    }
}

impl ColourRamp {
    /// A ramp fits the palette budget: index 0 is reserved for the empty
    /// colour, so at most 254 steps may follow within 255 palette entries.
    pub open spec fn wf(self) -> bool {
        self.steps@.len() <= 254
    }

    /// Loads a ramp from its textual step table: first line `R,G,B` is the
    /// empty colour, each further line `threshold,R,G,B` one step, at most
    /// 254 steps.
    pub fn new_from_text(source: &str) -> (r: Result<ColourRamp, RampError>)
        ensures
            match spec_parse_ramp(source.spec_bytes()) {
                None => r == Err::<ColourRamp, RampError>(RampError::Malformed),
                Some(p) => if p.1.len() <= 254 {
                    match r {
                        Ok(ramp) => ramp.empty_colour == p.0 && ramp.steps@ == p.1 && ramp.wf(),
                        Err(_) => false,
                    }
                } else {
                    r == Err::<ColourRamp, RampError>(RampError::TooManySteps)
                },
            },
    {
        let bytes = source.as_bytes();
        let ls = split_lines(bytes);
        let ghost lsv = lines_of(source.spec_bytes());
        proof {
            assert(views_of(ls@) == lsv);
            assert(forall|k: int| 0 <= k < ls@.len() ==> lsv[k] == #[trigger] ls@[k]@);
        }
        if ls.len() == 0 {
            return Err(RampError::Malformed);
        }
        let empty_colour = match parse_rgb(ls[0].as_slice()) {
            None => {
                return Err(RampError::Malformed);
            },
            Some(e) => e,
        };
        let mut steps: Vec<(u32, (u8, u8, u8))> = Vec::new();
        let ghost tail = lsv.drop_first();
        let mut i: usize = 1;
        proof {
            assert(tail.take(0) =~= Seq::<Seq<u8>>::empty());
        }
        while i < ls.len()
            invariant
                1 <= i <= ls@.len(),
                views_of(ls@) == lsv,
                lsv == lines_of(source.spec_bytes()),
                lsv.len() == ls@.len(),
                lsv.len() > 0,
                spec_parse_rgb(lsv[0]) == Some(empty_colour),
                tail == lsv.drop_first(),
                spec_parse_steps(tail.take(i - 1)) == Some(steps@),
            decreases ls@.len() - i,
        {
            proof {
                assert(lsv[i as int] == ls@[i as int]@);
                assert(tail[i - 1] == lsv[i as int]);
            }
            match parse_step(ls[i].as_slice()) {
                None => {
                    proof {
                        assert(tail.take(i as int).drop_last() =~= tail.take(i - 1));
                        assert(tail.take(i as int).last() == tail[i - 1]);
                        assert(spec_parse_steps(tail.take(i as int)) is None);
                        lemma_parse_steps_none(tail, i as int);
                    }
                    return Err(RampError::Malformed);
                },
                Some(st) => {
                    let ghost pre = steps@;
                    steps.push(st);
                    proof {
                        assert(tail.take(i as int).drop_last() =~= tail.take(i - 1));
                        assert(tail.take(i as int).last() == tail[i - 1]);
                        assert(steps@ =~= pre.push(st));
                    }
                },
            }
            i += 1;
        }
        proof {
            assert(tail.take(i - 1) =~= tail);
        }
        if steps.len() > 254 {
            return Err(RampError::TooManySteps);
        }
        Ok(ColourRamp { empty_colour, steps })
    }

    /// The flattened palette bytes: empty colour first, then each step's
    /// colour, three bytes each, at most `3 * 255` bytes in all.
    pub fn palette(&self) -> (r: Vec<u8>)
        requires
            self.wf(),
        ensures
            r@ == spec_palette(self.empty_colour, self.steps@),
            r@.len() == 3 * (self.steps@.len() + 1),
            r@.len() <= 3 * 255,
    {
        let mut out: Vec<u8> = Vec::new();
        out.push(self.empty_colour.0);
        out.push(self.empty_colour.1);
        out.push(self.empty_colour.2);
        proof {
            assert(self.steps@.take(0) =~= Seq::<(u32, (u8, u8, u8))>::empty());
            assert(out@ =~= spec_palette(self.empty_colour, self.steps@.take(0)));
        }
        let mut i: usize = 0;
        while i < self.steps.len()
            invariant
                i <= self.steps@.len(),
                self.steps@.len() <= 254,
                out@ == spec_palette(self.empty_colour, self.steps@.take(i as int)),
                out@.len() == 3 * (i + 1),
            decreases self.steps@.len() - i,
        {
            let c = self.steps[i].1;
            out.push(c.0);
            out.push(c.1);
            out.push(c.2);
            proof {
                assert(self.steps@.take(i + 1).drop_last() =~= self.steps@.take(i as int));
                assert(self.steps@.take(i + 1).last() == self.steps@[i as int]);
                assert(out@ =~= spec_palette(self.empty_colour, self.steps@.take(i + 1)));
            }
            i += 1;
        }
        proof {
            assert(self.steps@.take(i as int) =~= self.steps@);
        }
        out
    }

    /// The magnitude-scale palette index: `None` (never touched) is 0; a
    /// value of 255 or more is clamped to 1; a smaller value maps linearly to
    /// `255 - value`, never reaching the empty index 0.
    pub fn index_for_magnitude(&self, magnitude: Option<u32>) -> (r: u8)
        ensures
            r == spec_index_for_magnitude(magnitude),
            magnitude is Some ==> r >= 1,
    {
        match magnitude {
            None => 0,
            Some(v) => {
                if v >= 255 {
                    1
                } else {
                    (255 - v) as u8
                }
            },
        }
    }

    /// The exact-match palette index: the position after the empty colour of
    /// the first step whose threshold equals the value; 0 when the value is
    /// absent or no threshold matches.
    pub fn index_for_exact(&self, value: Option<u32>) -> (r: u8)
        requires
            self.wf(),
        ensures
            r == spec_index_for_exact(self.steps@, value),
    {
        let v = match value {
            None => {
                return 0;
            },
            Some(v) => v,
        };
        let mut i: usize = 0;
        while i < self.steps.len()
            invariant
                i <= self.steps@.len(),
                self.steps@.len() <= 254,
                value == Some(v),
                forall|j: int| 0 <= j < i ==> (#[trigger] self.steps@[j]).0 != v,
            decreases self.steps@.len() - i,
        {
            if self.steps[i].0 == v {
                proof {
                    lemma_first_match_skip(self.steps@, v, i as int);
                    assert(self.steps@.skip(i as int)[0] == self.steps@[i as int]);
                    assert(spec_first_match(self.steps@.skip(i as int), v) == 0);
                }
                return (i as u8) + 1;
            }
            i += 1;
        }
        proof {
            lemma_first_match_skip(self.steps@, v, i as int);
            assert(self.steps@.skip(i as int) =~= Seq::<(u32, (u8, u8, u8))>::empty());
        }
        0
    }
}

} // verus!
