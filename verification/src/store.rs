//! The frame store: an ordered, gap-free sequence of frames, each carrying
//! its per-pixel deltas, together with the text intermediate form that lets
//! ingestion and rendering run as two decoupled passes.

use vstd::prelude::*;
use crate::geo::ProjectionKind;
use crate::text::dec_of;
use crate::text::dec_of_int;
use crate::text::dec_val;
use crate::text::has_byte;
use crate::text::is_digit;
use crate::text::is_digits;
use crate::text::lemma_dec_of_digits;
use crate::text::lemma_dec_of_val;
use crate::text::lemma_digits_no_byte;
use crate::text::lemma_has_byte_concat;
use crate::text::lemma_split_append_field;
use crate::text::lemma_split_on_field;
use crate::text::lemma_split_on_single;
use crate::text::lines_of;
use crate::text::parse_u16;
use crate::text::parse_u32;
use crate::text::push_dec;
use crate::text::push_dec_i64;
use crate::text::split_lines;
use crate::text::split_on;
use crate::text::split_on_byte;
use crate::text::views_of;

verus! {

/// One discrete time-bucket's worth of pixel deltas: one entry per touched
/// pixel, each pixel at most once.
pub struct Frame {
    pub frame_number: u32,
    pub deltas: Vec<(u32, u16)>,
}

/// No pixel twice in a delta list.
pub open spec fn keys_unique(s: Seq<(u32, u16)>) -> bool {
    forall|i: int, j: int| 0 <= i < j < s.len() ==> (#[trigger] s[i]).0 != (#[trigger] s[j]).0
}

/// The pixel-to-magnitude mapping a delta list stands for (later entries
/// win, which does not matter under `keys_unique`).
pub open spec fn deltas_map(s: Seq<(u32, u16)>) -> Map<u32, u16>
    decreases s.len(),
{
    if s.len() == 0 {
        Map::empty()
    } else {
        deltas_map(s.drop_last()).insert(s.last().0, s.last().1)
    }
}

impl Frame {
    pub open spec fn wf(self) -> bool {
        keys_unique(self.deltas@)
    }

    /// The pixel-to-magnitude mapping of this frame.
    pub open spec fn delta_map(self) -> Map<u32, u16> {
        deltas_map(self.deltas@)
    }
}

/// A pixel occurs in the mapping exactly when the delta list holds it.
pub proof fn lemma_deltas_map_contains(s: Seq<(u32, u16)>, p: u32)
    ensures
        deltas_map(s).contains_key(p) <==> exists|i: int|
            0 <= i < s.len() && (#[trigger] s[i]).0 == p,
    decreases s.len(),
{
    if s.len() > 0 {
        lemma_deltas_map_contains(s.drop_last(), p);
        if s.last().0 == p {
            assert(s[s.len() - 1].0 == p);
        } else {
            if deltas_map(s).contains_key(p) {
                let i = choose|i: int| 0 <= i < s.drop_last().len() && (#[trigger] s.drop_last()[i]).0 == p;
                assert(s[i].0 == p);
            }
            if exists|i: int| 0 <= i < s.len() && (#[trigger] s[i]).0 == p {
                let i = choose|i: int| 0 <= i < s.len() && (#[trigger] s[i]).0 == p;
                assert(i < s.len() - 1);
                assert(s.drop_last()[i].0 == p);
            }
        }
    }
}

/// Under unique keys, the mapping reads back the magnitude stored at any
/// entry of the delta list.
pub proof fn lemma_deltas_map_at(s: Seq<(u32, u16)>, i: int)
    requires
        keys_unique(s),
        0 <= i < s.len(),
    ensures
        deltas_map(s).contains_key(s[i].0),
        deltas_map(s)[s[i].0] == s[i].1,
    decreases s.len(),
{
    if i == s.len() - 1 {
        assert(s.last() == s[i]);
    } else {
        assert(forall|a: int, b: int|
            0 <= a < b < s.drop_last().len() ==> (#[trigger] s.drop_last()[a]).0 != (
            #[trigger] s.drop_last()[b]).0);
        lemma_deltas_map_at(s.drop_last(), i);
        assert(s.drop_last()[i] == s[i]);
        assert(s.last().0 != s[i].0);
    }
}

/// Appending a pixel not yet present extends the mapping at that pixel.
pub proof fn lemma_deltas_map_push(s: Seq<(u32, u16)>, p: u32, v: u16)
    ensures
        deltas_map(s.push((p, v))) == deltas_map(s).insert(p, v),
{
    assert(s.push((p, v)).drop_last() =~= s);
    assert(s.push((p, v)).last() == (p, v));
}

/// The run parameters written into the intermediate form's header block.
/// The view-box edges are in micro-degrees.
pub struct StoreMeta {
    pub height: u32,
    pub width: u32,
    pub sec_per_frame: u32,
    pub left: i64,
    pub bottom: i64,
    pub right: i64,
    pub top: i64,
    pub projection: ProjectionKind,
}

impl StoreMeta {
    pub open spec fn wf(self) -> bool {
        &&& self.left > i64::MIN
        &&& self.bottom > i64::MIN
        &&& self.right > i64::MIN
        &&& self.top > i64::MIN
    }
}

/// The marker that opens every header line: `metadata` and a space.
pub open spec fn meta_marker() -> Seq<u8> {
    seq![109u8, 101u8, 116u8, 97u8, 100u8, 97u8, 116u8, 97u8, 32u8]
}

/// A line of the header block: the marker, or nothing at all (the blank
/// separator line).
pub open spec fn is_meta_line(l: Seq<u8>) -> bool {
    l.len() >= 9 && l.take(9) == meta_marker()
}

/// The nine header lines and the blank separator line, in order: format
/// version, raster height and width, seconds per frame, the four view-box
/// edges, and the projection kind.
pub open spec fn header_lines(m: StoreMeta) -> Seq<Seq<u8>> {
    seq![
        meta_marker() + seq![118u8, 101u8, 114u8, 115u8, 105u8, 111u8, 110u8, 32u8] + seq![49u8],
        meta_marker() + seq![104u8, 101u8, 105u8, 103u8, 104u8, 116u8, 32u8] + dec_of(
            m.height as nat,
        ),
        meta_marker() + seq![119u8, 105u8, 100u8, 116u8, 104u8, 32u8] + dec_of(m.width as nat),
        meta_marker() + seq![
            115u8, 101u8, 99u8, 95u8, 112u8, 101u8, 114u8, 95u8, 102u8, 114u8, 97u8, 109u8,
            101u8, 32u8,
        ] + dec_of(m.sec_per_frame as nat),
        meta_marker() + seq![108u8, 101u8, 102u8, 116u8, 32u8] + dec_of_int(m.left as int),
        meta_marker() + seq![98u8, 111u8, 116u8, 116u8, 111u8, 109u8, 32u8] + dec_of_int(
            m.bottom as int,
        ),
        meta_marker() + seq![114u8, 105u8, 103u8, 104u8, 116u8, 32u8] + dec_of_int(
            m.right as int,
        ),
        meta_marker() + seq![116u8, 111u8, 112u8, 32u8] + dec_of_int(m.top as int),
        meta_marker() + seq![
            112u8, 114u8, 111u8, 106u8, 101u8, 99u8, 116u8, 105u8, 111u8, 110u8, 32u8,
        ] + (if m.projection == ProjectionKind::Ortho {
            seq![111u8, 114u8, 116u8, 104u8, 111u8]
        } else {
            seq![101u8, 113u8, 117u8, 105u8, 114u8, 101u8, 99u8, 116u8]
        }),
        Seq::<u8>::empty(),
    ]
}

/// The serialized delta list of one frame: `,pixel,magnitude` appended for
/// each delta, in order.
pub open spec fn ser_deltas(ds: Seq<(u32, u16)>) -> Seq<u8>
    decreases ds.len(),
{
    if ds.len() == 0 {
        Seq::empty()
    } else {
        ser_deltas(ds.drop_last()) + seq![44u8] + dec_of(ds.last().0 as nat) + seq![44u8]
            + dec_of(ds.last().1 as nat)
    }
}

/// One serialized frame line: the frame number, then the delta list.
pub open spec fn frame_line(no: u32, ds: Seq<(u32, u16)>) -> Seq<u8> {
    dec_of(no as nat) + ser_deltas(ds)
}

/// The mathematical content of a frame sequence.
pub open spec fn frames_view(v: Seq<Frame>) -> Seq<(u32, Seq<(u32, u16)>)> {
    v.map_values(|f: Frame| (f.frame_number, f.deltas@))
}

/// One serialized line per frame, in order.
pub open spec fn frame_lines(fs: Seq<(u32, Seq<(u32, u16)>)>) -> Seq<Seq<u8>> {
    fs.map_values(|f: (u32, Seq<(u32, u16)>)| frame_line(f.0, f.1))
}

/// Lines joined with one newline after every line, the last included.
pub open spec fn join_lines(ls: Seq<Seq<u8>>) -> Seq<u8>
    decreases ls.len(),
{
    if ls.len() == 0 {
        Seq::empty()
    } else {
        ls[0] + seq![10u8] + join_lines(ls.drop_first())
    }
}

/// The whole intermediate form: the header block, the blank separator line,
/// then one line per frame.
pub open spec fn spec_serialize(m: StoreMeta, fs: Seq<(u32, Seq<(u32, u16)>)>) -> Seq<u8> {
    join_lines(header_lines(m) + frame_lines(fs))
}

pub proof fn lemma_join_push(ls: Seq<Seq<u8>>, l: Seq<u8>)
    ensures
        join_lines(ls.push(l)) == join_lines(ls) + l + seq![10u8],
    decreases ls.len(),
{
    if ls.len() == 0 {
        assert(ls.push(l)[0] == l);
        assert(ls.push(l).drop_first() =~= Seq::<Seq<u8>>::empty());
        assert(join_lines(Seq::<Seq<u8>>::empty()) =~= Seq::<u8>::empty());
        assert(join_lines(ls.push(l)) =~= join_lines(ls) + l + seq![10u8]);
    } else {
        assert(ls.push(l).drop_first() =~= ls.drop_first().push(l));
        assert(ls.push(l)[0] == ls[0]);
        lemma_join_push(ls.drop_first(), l);
        assert(join_lines(ls.push(l)) == ls[0] + seq![10u8] + join_lines(ls.drop_first().push(l)));
        assert(join_lines(ls) == ls[0] + seq![10u8] + join_lines(ls.drop_first()));
        assert(join_lines(ls.push(l)) =~= join_lines(ls) + l + seq![10u8]);
    }
}

/// Overwriting the entry that holds a pixel updates the mapping at that
/// pixel alone.
pub proof fn lemma_deltas_map_update(s: Seq<(u32, u16)>, i: int, v: u16)
    requires
        keys_unique(s),
        0 <= i < s.len(),
    ensures
        deltas_map(s.update(i, (s[i].0, v))) == deltas_map(s).insert(s[i].0, v),
        keys_unique(s.update(i, (s[i].0, v))),
    decreases s.len(),
{
    let p = s[i].0;
    let t = s.update(i, (p, v));
    assert(keys_unique(t));
    if i == s.len() - 1 {
        assert(t.drop_last() =~= s.drop_last());
        assert(t.last() == (p, v));
        assert(deltas_map(t) =~= deltas_map(s).insert(p, v));
    } else {
        assert(forall|a: int, b: int|
            0 <= a < b < s.drop_last().len() ==> (#[trigger] s.drop_last()[a]).0 != (
            #[trigger] s.drop_last()[b]).0);
        assert(s.drop_last()[i] == s[i]);
        lemma_deltas_map_update(s.drop_last(), i, v);
        assert(t.drop_last() =~= s.drop_last().update(i, (p, v)));
        assert(t.last() == s.last());
        assert(s.last().0 != p);
        assert(deltas_map(t) =~= deltas_map(s).insert(p, v));
    }
}

/// Appends the header-line marker.
fn push_marker(out: &mut Vec<u8>)
    ensures
        final(out)@ == old(out)@ + meta_marker(),
{
    out.push(109);
    out.push(101);
    out.push(116);
    out.push(97);
    out.push(100);
    out.push(97);
    out.push(116);
    out.push(97);
    out.push(32);
    assert(out@ =~= old(out)@ + meta_marker());
}

/// Serializes a frame store and its run parameters into the text
/// intermediate form: the header block, a blank line, then one line per
/// frame.
fn push_hline0(out: &mut Vec<u8>, meta: &StoreMeta)
    requires
        true,
    ensures
        final(out)@ == old(out)@ + header_lines(*meta)[0] + seq![10u8],
{
    push_marker(out);
    out.push(118);
    out.push(101);
    out.push(114);
    out.push(115);
    out.push(105);
    out.push(111);
    out.push(110);
    out.push(32);
    out.push(49);
    out.push(10);
    assert(out@ =~= old(out)@ + header_lines(*meta)[0] + seq![10u8]);
}

fn push_hline1(out: &mut Vec<u8>, meta: &StoreMeta)
    requires
        true,
    ensures
        final(out)@ == old(out)@ + header_lines(*meta)[1] + seq![10u8],
{
    push_marker(out);
    out.push(104);
    out.push(101);
    out.push(105);
    out.push(103);
    out.push(104);
    out.push(116);
    out.push(32);
    push_dec(out, meta.height as u64);
    out.push(10);
    assert(out@ =~= old(out)@ + header_lines(*meta)[1] + seq![10u8]);
}

fn push_hline2(out: &mut Vec<u8>, meta: &StoreMeta)
    requires
        true,
    ensures
        final(out)@ == old(out)@ + header_lines(*meta)[2] + seq![10u8],
{
    push_marker(out);
    out.push(119);
    out.push(105);
    out.push(100);
    out.push(116);
    out.push(104);
    out.push(32);
    push_dec(out, meta.width as u64);
    out.push(10);
    assert(out@ =~= old(out)@ + header_lines(*meta)[2] + seq![10u8]);
}

fn push_hline3(out: &mut Vec<u8>, meta: &StoreMeta)
    requires
        true,
    ensures
        final(out)@ == old(out)@ + header_lines(*meta)[3] + seq![10u8],
{
    push_marker(out);
    out.push(115);
    out.push(101);
    out.push(99);
    out.push(95);
    out.push(112);
    out.push(101);
    out.push(114);
    out.push(95);
    out.push(102);
    out.push(114);
    out.push(97);
    out.push(109);
    out.push(101);
    out.push(32);
    push_dec(out, meta.sec_per_frame as u64);
    out.push(10);
    assert(out@ =~= old(out)@ + header_lines(*meta)[3] + seq![10u8]);
}

fn push_hline4(out: &mut Vec<u8>, meta: &StoreMeta)
    requires
        meta.wf(),
        true,
    ensures
        final(out)@ == old(out)@ + header_lines(*meta)[4] + seq![10u8],
{
    push_marker(out);
    out.push(108);
    out.push(101);
    out.push(102);
    out.push(116);
    out.push(32);
    push_dec_i64(out, meta.left);
    out.push(10);
    assert(out@ =~= old(out)@ + header_lines(*meta)[4] + seq![10u8]);
}

fn push_hline5(out: &mut Vec<u8>, meta: &StoreMeta)
    requires
        meta.wf(),
        true,
    ensures
        final(out)@ == old(out)@ + header_lines(*meta)[5] + seq![10u8],
{
    push_marker(out);
    out.push(98);
    out.push(111);
    out.push(116);
    out.push(116);
    out.push(111);
    out.push(109);
    out.push(32);
    push_dec_i64(out, meta.bottom);
    out.push(10);
    assert(out@ =~= old(out)@ + header_lines(*meta)[5] + seq![10u8]);
}

fn push_hline6(out: &mut Vec<u8>, meta: &StoreMeta)
    requires
        meta.wf(),
        true,
    ensures
        final(out)@ == old(out)@ + header_lines(*meta)[6] + seq![10u8],
{
    push_marker(out);
    out.push(114);
    out.push(105);
    out.push(103);
    out.push(104);
    out.push(116);
    out.push(32);
    push_dec_i64(out, meta.right);
    out.push(10);
    assert(out@ =~= old(out)@ + header_lines(*meta)[6] + seq![10u8]);
}

fn push_hline7(out: &mut Vec<u8>, meta: &StoreMeta)
    requires
        meta.wf(),
        true,
    ensures
        final(out)@ == old(out)@ + header_lines(*meta)[7] + seq![10u8],
{
    push_marker(out);
    out.push(116);
    out.push(111);
    out.push(112);
    out.push(32);
    push_dec_i64(out, meta.top);
    out.push(10);
    assert(out@ =~= old(out)@ + header_lines(*meta)[7] + seq![10u8]);
}

fn push_hline8(out: &mut Vec<u8>, meta: &StoreMeta)
    ensures
        final(out)@ == old(out)@ + header_lines(*meta)[8] + seq![10u8],
{
    push_marker(out);
    out.push(112);
    out.push(114);
    out.push(111);
    out.push(106);
    out.push(101);
    out.push(99);
    out.push(116);
    out.push(105);
    out.push(111);
    out.push(110);
    out.push(32);
    match meta.projection {
        ProjectionKind::Ortho => {
            out.push(111);
            out.push(114);
            out.push(116);
            out.push(104);
            out.push(111);
        },
        ProjectionKind::Equirect => {
            out.push(101);
            out.push(113);
            out.push(117);
            out.push(105);
            out.push(114);
            out.push(101);
            out.push(99);
            out.push(116);
        },
    }
    out.push(10);
    assert(out@ =~= old(out)@ + header_lines(*meta)[8] + seq![10u8]);
}

/// Appends the whole header block, the blank separator line included.
#[verifier::rlimit(100)]
fn push_header(out: &mut Vec<u8>, meta: &StoreMeta)
    requires
        meta.wf(),
    ensures
        final(out)@ == old(out)@ + join_lines(header_lines(*meta)),
{
    let ghost base = out@;
    let ghost hl = header_lines(*meta);
    let ghost mut done: Seq<Seq<u8>> = Seq::empty();
    proof {
        assert(out@ =~= base + join_lines(done));
    }
    push_hline0(out, meta);
    proof {
        lemma_join_push(done, hl[0]);
        assert(out@ =~= base + join_lines(done.push(hl[0])));
        done = done.push(hl[0]);
    }
    push_hline1(out, meta);
    proof {
        lemma_join_push(done, hl[1]);
        assert(out@ =~= base + join_lines(done.push(hl[1])));
        done = done.push(hl[1]);
    }
    push_hline2(out, meta);
    proof {
        lemma_join_push(done, hl[2]);
        assert(out@ =~= base + join_lines(done.push(hl[2])));
        done = done.push(hl[2]);
    }
    push_hline3(out, meta);
    proof {
        lemma_join_push(done, hl[3]);
        assert(out@ =~= base + join_lines(done.push(hl[3])));
        done = done.push(hl[3]);
    }
    push_hline4(out, meta);
    proof {
        lemma_join_push(done, hl[4]);
        assert(out@ =~= base + join_lines(done.push(hl[4])));
        done = done.push(hl[4]);
    }
    push_hline5(out, meta);
    proof {
        lemma_join_push(done, hl[5]);
        assert(out@ =~= base + join_lines(done.push(hl[5])));
        done = done.push(hl[5]);
    }
    push_hline6(out, meta);
    proof {
        lemma_join_push(done, hl[6]);
        assert(out@ =~= base + join_lines(done.push(hl[6])));
        done = done.push(hl[6]);
    }
    push_hline7(out, meta);
    proof {
        lemma_join_push(done, hl[7]);
        assert(out@ =~= base + join_lines(done.push(hl[7])));
        done = done.push(hl[7]);
    }
    push_hline8(out, meta);
    proof {
        lemma_join_push(done, hl[8]);
        assert(out@ =~= base + join_lines(done.push(hl[8])));
        done = done.push(hl[8]);
    }
    // the blank separator line
    out.push(10);
    proof {
        lemma_join_push(done, hl[9]);
        assert(hl[9] =~= Seq::<u8>::empty());
        assert(out@ =~= base + join_lines(done.push(hl[9])));
        done = done.push(hl[9]);
        assert(done =~= hl);
        assert(out@ =~= base + join_lines(hl));
    }
}

/// Serializes a frame store and its run parameters into the text
/// intermediate form: the header block, a blank line, then one line per
/// frame.
pub fn serialize_frames(meta: &StoreMeta, frames: &Vec<Frame>) -> (r: Vec<u8>)
    requires
        meta.wf(),
    ensures
        r@ == spec_serialize(*meta, frames_view(frames@)),
{
    let mut out: Vec<u8> = Vec::new();
    let ghost hl = header_lines(*meta);
    let ghost fl = frame_lines(frames_view(frames@));
    push_header(&mut out, meta);
    let ghost mut done: Seq<Seq<u8>> = hl;
    proof {
        assert(out@ =~= join_lines(done));
    }
    // one line per frame
    let mut j: usize = 0;
    while j < frames.len()
        invariant
            j <= frames@.len(),
            hl == header_lines(*meta),
            fl == frame_lines(frames_view(frames@)),
            fl.len() == frames@.len(),
            done =~= hl + fl.take(j as int),
            out@ == join_lines(done),
        decreases frames@.len() - j,
    {
        let f = &frames[j];
        let ghost base = out@;
        push_dec(&mut out, f.frame_number as u64);
        let mut k: usize = 0;
        while k < f.deltas.len()
            invariant
                k <= f.deltas@.len(),
                out@ == base + dec_of(f.frame_number as nat) + ser_deltas(f.deltas@.take(k as int)),
            decreases f.deltas@.len() - k,
        {
            let d = f.deltas[k];
            out.push(44);
            push_dec(&mut out, d.0 as u64);
            out.push(44);
            push_dec(&mut out, d.1 as u64);
            proof {
                assert(f.deltas@.take(k + 1).drop_last() =~= f.deltas@.take(k as int));
                assert(f.deltas@.take(k + 1).last() == f.deltas@[k as int]);
                assert(out@ =~= base + dec_of(f.frame_number as nat) + ser_deltas(
                    f.deltas@.take(k + 1),
                ));
            }
            k += 1;
        }
        out.push(10);
        proof {
            assert(f.deltas@.take(f.deltas@.len() as int) =~= f.deltas@);
            assert(out@ =~= base + frame_line(f.frame_number, f.deltas@) + seq![10u8]);
            assert(fl[j as int] == frame_line(frames@[j as int].frame_number,
                frames@[j as int].deltas@));
            lemma_join_push(done, fl[j as int]);
            assert(out@ =~= join_lines(done.push(fl[j as int])));
            done = done.push(fl[j as int]);
            assert(done =~= hl + fl.take(j + 1));
        }
        j += 1;
    }
    proof {
        assert(fl.take(frames@.len() as int) =~= fl);
        assert(done =~= hl + fl);
    }
    out
}

/// The fields a frame's serialized delta list splits into: the pixel and
/// the magnitude of each delta, as digit strings, in order.
pub open spec fn pair_fields(ds: Seq<(u32, u16)>) -> Seq<Seq<u8>>
    decreases ds.len(),
{
    if ds.len() == 0 {
        Seq::empty()
    } else {
        pair_fields(ds.drop_last()) + seq![
            dec_of(ds.last().0 as nat),
            dec_of(ds.last().1 as nat),
        ]
    }
}

/// Delta pairs read back from comma-separated fields, two fields a delta;
/// `None` on an odd field count or a malformed field.
pub open spec fn spec_parse_pairs(fs: Seq<Seq<u8>>) -> Option<Seq<(u32, u16)>>
    decreases fs.len(),
{
    if fs.len() == 0 {
        Some(Seq::empty())
    } else if fs.len() == 1 {
        None
    } else {
        let pf = fs[fs.len() - 2];
        let mf = fs[fs.len() - 1];
        if is_digits(pf) && dec_val(pf) <= u32::MAX && is_digits(mf) && dec_val(mf) <= u16::MAX {
            match spec_parse_pairs(fs.drop_last().drop_last()) {
                None => None,
                Some(r) => Some(r.push((dec_val(pf) as u32, dec_val(mf) as u16))),
            }
        } else {
            None
        }
    }
}

/// One frame read back from its line: the frame number, then the deltas.
pub open spec fn spec_parse_frame_line(l: Seq<u8>) -> Option<(u32, Seq<(u32, u16)>)> {
    let fs = split_on(l, 44);
    if fs.len() >= 1 && is_digits(fs[0]) && dec_val(fs[0]) <= u32::MAX {
        match spec_parse_pairs(fs.drop_first()) {
            None => None,
            Some(ds) => Some((dec_val(fs[0]) as u32, ds)),
        }
    } else {
        None
    }
}

/// The lines left once the leading run of header and blank lines is gone.
pub open spec fn skip_header(ls: Seq<Seq<u8>>) -> Seq<Seq<u8>>
    decreases ls.len(),
{
    if ls.len() > 0 && (is_meta_line(ls[0]) || ls[0].len() == 0) {
        skip_header(ls.drop_first())
    } else {
        ls
    }
}

/// Every remaining line read back as one frame, in file order.
pub open spec fn spec_parse_lines(ls: Seq<Seq<u8>>) -> Option<Seq<(u32, Seq<(u32, u16)>)>>
    decreases ls.len(),
{
    if ls.len() == 0 {
        Some(Seq::empty())
    } else {
        match spec_parse_lines(ls.drop_last()) {
            None => None,
            Some(pre) => match spec_parse_frame_line(ls.last()) {
                None => None,
                Some(f) => Some(pre.push(f)),
            },
        }
    }
}

/// The whole intermediate form read back: header and blank lines skipped,
/// then one frame per line.
pub open spec fn spec_parse(s: Seq<u8>) -> Option<Seq<(u32, Seq<(u32, u16)>)>> {
    spec_parse_lines(skip_header(lines_of(s)))
}

proof fn lemma_ser_deltas_no_byte(ds: Seq<(u32, u16)>, b: u8)
    requires
        b < 44 || b > 57,
    ensures
        !has_byte(ser_deltas(ds), b),
    decreases ds.len(),
{
    if ds.len() == 0 {
        assert(!has_byte(Seq::empty(), b));
    } else {
        lemma_ser_deltas_no_byte(ds.drop_last(), b);
        lemma_dec_of_digits(ds.last().0 as nat);
        lemma_dec_of_digits(ds.last().1 as nat);
        lemma_digits_no_byte(dec_of(ds.last().0 as nat), b);
        lemma_digits_no_byte(dec_of(ds.last().1 as nat), b);
        lemma_has_byte_concat(ser_deltas(ds.drop_last()), seq![44u8], b);
        lemma_has_byte_concat(
            ser_deltas(ds.drop_last()) + seq![44u8],
            dec_of(ds.last().0 as nat),
            b,
        );
        lemma_has_byte_concat(
            ser_deltas(ds.drop_last()) + seq![44u8] + dec_of(ds.last().0 as nat),
            seq![44u8],
            b,
        );
        lemma_has_byte_concat(
            ser_deltas(ds.drop_last()) + seq![44u8] + dec_of(ds.last().0 as nat) + seq![44u8],
            dec_of(ds.last().1 as nat),
            b,
        );
        assert(!has_byte(seq![44u8], b));
    }
}

/// The serialized frame line splits on commas into the frame number's
/// digits and then the delta fields.
proof fn lemma_split_frame_line(no: u32, ds: Seq<(u32, u16)>)
    ensures
        split_on(frame_line(no, ds), 44) == seq![dec_of(no as nat)] + pair_fields(ds),
        pair_fields(ds).len() == 2 * ds.len(),
    decreases ds.len(),
{
    lemma_dec_of_digits(no as nat);
    lemma_digits_no_byte(dec_of(no as nat), 44);
    if ds.len() == 0 {
        assert(frame_line(no, ds) =~= dec_of(no as nat));
        lemma_split_on_single(dec_of(no as nat), 44);
        assert(split_on(frame_line(no, ds), 44) =~~= seq![dec_of(no as nat)] + pair_fields(ds));
    } else {
        let t = ds.drop_last();
        let p = ds.last().0;
        let m = ds.last().1;
        lemma_split_frame_line(no, t);
        lemma_dec_of_digits(p as nat);
        lemma_dec_of_digits(m as nat);
        lemma_digits_no_byte(dec_of(p as nat), 44);
        lemma_digits_no_byte(dec_of(m as nat), 44);
        let a1 = frame_line(no, t);
        let a2 = a1 + seq![44u8] + dec_of(p as nat);
        assert(frame_line(no, ds) =~= a2 + seq![44u8] + dec_of(m as nat));
        lemma_split_append_field(a1, dec_of(p as nat), 44);
        lemma_split_append_field(a2, dec_of(m as nat), 44);
        assert(split_on(frame_line(no, ds), 44) =~~= seq![dec_of(no as nat)] + pair_fields(ds));
    }
}

/// The delta fields read back to exactly the deltas they were written from.
proof fn lemma_parse_pair_fields(ds: Seq<(u32, u16)>)
    ensures
        spec_parse_pairs(pair_fields(ds)) == Some(ds),
    decreases ds.len(),
{
    if ds.len() > 0 {
        let t = ds.drop_last();
        let p = ds.last().0;
        let m = ds.last().1;
        lemma_parse_pair_fields(t);
        lemma_pair_fields_len(ds);
        lemma_pair_fields_len(t);
        let fs = pair_fields(ds);
        assert(fs.len() == 2 * t.len() + 2);
        assert(fs[fs.len() - 2] == dec_of(p as nat));
        assert(fs[fs.len() - 1] == dec_of(m as nat));
        lemma_dec_of_digits(p as nat);
        lemma_dec_of_digits(m as nat);
        lemma_dec_of_val(p as nat);
        lemma_dec_of_val(m as nat);
        assert(fs.drop_last().drop_last() =~= pair_fields(t));
        assert(spec_parse_pairs(fs) == Some(t.push((p, m))));
        assert(t.push((p, m)) =~= ds);
    }
}

proof fn lemma_pair_fields_len(ds: Seq<(u32, u16)>)
    ensures
        pair_fields(ds).len() == 2 * ds.len(),
    decreases ds.len(),
{
    if ds.len() > 0 {
        lemma_pair_fields_len(ds.drop_last());
    }
}

/// One serialized frame line reads back to exactly its frame.
pub proof fn lemma_parse_frame_line(no: u32, ds: Seq<(u32, u16)>)
    ensures
        spec_parse_frame_line(frame_line(no, ds)) == Some((no, ds)),
{
    lemma_split_frame_line(no, ds);
    let fs = split_on(frame_line(no, ds), 44);
    assert(fs[0] == dec_of(no as nat));
    lemma_dec_of_digits(no as nat);
    lemma_dec_of_val(no as nat);
    assert(fs.drop_first() =~= pair_fields(ds));
    lemma_parse_pair_fields(ds);
}

/// Joining separator-free lines and splitting again gives the lines back,
/// with one empty field from the trailing newline.
proof fn lemma_split_join(ls: Seq<Seq<u8>>)
    requires
        forall|k: int| 0 <= k < ls.len() ==> !has_byte(#[trigger] ls[k], 10),
    ensures
        split_on(join_lines(ls), 10) == ls + seq![Seq::<u8>::empty()],
    decreases ls.len(),
{
    if ls.len() == 0 {
        assert(join_lines(ls) =~= Seq::<u8>::empty());
        assert(split_on(Seq::<u8>::empty(), 10) =~~= seq![Seq::<u8>::empty()]);
        assert(ls + seq![Seq::<u8>::empty()] =~~= seq![Seq::<u8>::empty()]);
    } else {
        assert(forall|k: int|
            0 <= k < ls.drop_first().len() ==> #[trigger] ls.drop_first()[k] == ls[k + 1]);
        lemma_split_join(ls.drop_first());
        assert(join_lines(ls) =~= ls[0] + seq![10u8] + join_lines(ls.drop_first()));
        lemma_split_on_field(ls[0], join_lines(ls.drop_first()), 10);
        assert(split_on(join_lines(ls), 10) =~~= ls + seq![Seq::<u8>::empty()]);
    }
}

proof fn lemma_header_line_no_nl(m: StoreMeta, k: int)
    requires
        m.wf(),
        0 <= k < 10,
    ensures
        !has_byte(header_lines(m)[k], 10),
{
    let hl = header_lines(m);
    if has_byte(hl[k], 10) {
        let i = choose|i: int| 0 <= i < hl[k].len() && #[trigger] hl[k][i] == 10;
        lemma_dec_of_digits(m.height as nat);
        lemma_dec_of_digits(m.width as nat);
        lemma_dec_of_digits(m.sec_per_frame as nat);
        lemma_dec_of_int_no_nl(m.left as int);
        lemma_dec_of_int_no_nl(m.bottom as int);
        lemma_dec_of_int_no_nl(m.right as int);
        lemma_dec_of_int_no_nl(m.top as int);
        assert(false);
    }
}

proof fn lemma_dec_of_int_no_nl(n: int)
    ensures
        forall|i: int| 0 <= i < dec_of_int(n).len() ==> #[trigger] dec_of_int(n)[i] != 10,
{
    lemma_dec_of_digits((if n < 0 {
        -n
    } else {
        n
    }) as nat);
}

/// Every header line is a marker line or the blank line; the first frame
/// line, when there is one, is neither; so skipping the leading run of
/// header and blank lines lands exactly on the frame lines.
proof fn lemma_skip_header_prefix(h: Seq<Seq<u8>>, rest: Seq<Seq<u8>>)
    requires
        forall|k: int| 0 <= k < h.len() ==> is_meta_line(#[trigger] h[k]) || h[k].len() == 0,
        rest.len() == 0 || !(is_meta_line(rest[0]) || rest[0].len() == 0),
    ensures
        skip_header(h + rest) == rest,
    decreases h.len(),
{
    if h.len() == 0 {
        assert(h + rest =~= rest);
    } else {
        assert((h + rest)[0] == h[0]);
        assert((h + rest).drop_first() =~= h.drop_first() + rest);
        assert(forall|k: int|
            0 <= k < h.drop_first().len() ==> #[trigger] h.drop_first()[k] == h[k + 1]);
        lemma_skip_header_prefix(h.drop_first(), rest);
    }
}

proof fn lemma_header_line_meta(m: StoreMeta, k: int)
    requires
        0 <= k < 10,
    ensures
        is_meta_line(header_lines(m)[k]) || header_lines(m)[k].len() == 0,
{
    let hl = header_lines(m);
    if k < 9 {
        assert(hl[k].take(9) =~= meta_marker());
    }
}

/// The frame lines read back to exactly the frames they were written from.
proof fn lemma_parse_frame_lines(fs: Seq<(u32, Seq<(u32, u16)>)>)
    ensures
        spec_parse_lines(frame_lines(fs)) == Some(fs),
    decreases fs.len(),
{
    if fs.len() > 0 {
        lemma_parse_frame_lines(fs.drop_last());
        let fl = frame_lines(fs);
        assert(fl.drop_last() =~= frame_lines(fs.drop_last()));
        assert(fl.last() == frame_line(fs.last().0, fs.last().1));
        lemma_parse_frame_line(fs.last().0, fs.last().1);
        assert(fs.drop_last().push(fs.last()) =~= fs);
    }
}

/// Reading the serialized intermediate form back yields exactly the frames
/// that were written: the same frame numbers in the same order, each with
/// the same delta list.
pub proof fn lemma_round_trip(m: StoreMeta, fs: Seq<(u32, Seq<(u32, u16)>)>)
    requires
        m.wf(),
    ensures
        spec_parse(spec_serialize(m, fs)) == Some(fs),
{
    let hl = header_lines(m);
    let fl = frame_lines(fs);
    let all = hl + fl;
    assert(forall|k: int| 0 <= k < hl.len() ==> !has_byte(#[trigger] hl[k], 10)) by {
        assert forall|k: int| 0 <= k < hl.len() implies !has_byte(#[trigger] hl[k], 10) by {
            lemma_header_line_no_nl(m, k);
        }
    }
    assert(forall|k: int| 0 <= k < fl.len() ==> !has_byte(#[trigger] fl[k], 10)) by {
        assert forall|k: int| 0 <= k < fl.len() implies !has_byte(#[trigger] fl[k], 10) by {
            assert(fl[k] == frame_line(fs[k].0, fs[k].1));
            lemma_frame_line_no_nl(fs[k].0, fs[k].1);
        }
    }
    assert(forall|k: int| 0 <= k < all.len() ==> !has_byte(#[trigger] all[k], 10)) by {
        assert forall|k: int| 0 <= k < all.len() implies !has_byte(#[trigger] all[k], 10) by {
            if k < hl.len() {
                assert(all[k] == hl[k]);
            } else {
                assert(all[k] == fl[k - hl.len()]);
            }
        }
    }
    lemma_split_join(all);
    let s = spec_serialize(m, fs);
    assert(split_on(s, 10) == all + seq![Seq::<u8>::empty()]);
    assert(lines_of(s) =~~= all);
    assert(forall|k: int| 0 <= k < hl.len() ==> is_meta_line(#[trigger] hl[k]) || hl[k].len()
        == 0) by {
        assert forall|k: int|
            0 <= k < hl.len() implies is_meta_line(#[trigger] hl[k]) || hl[k].len() == 0 by {
            lemma_header_line_meta(m, k);
        }
    }
    if fl.len() > 0 {
        assert(fl[0] == frame_line(fs[0].0, fs[0].1));
        lemma_dec_of_digits(fs[0].0 as nat);
        assert(fl[0][0] == dec_of(fs[0].0 as nat)[0]);
        assert(is_digit(fl[0][0]));
        if is_meta_line(fl[0]) {
            assert(fl[0].take(9)[0] == fl[0][0]);
            assert(meta_marker()[0] == 109);
            assert(false);
        }
        assert(fl[0].len() > 0);
    }
    lemma_skip_header_prefix(hl, fl);
    assert(skip_header(lines_of(s)) == fl);
    lemma_parse_frame_lines(fs);
}

/// Why the intermediate form was rejected.
#[derive(Clone, Copy, Debug, PartialEq, Eq, Structural)]
pub enum StoreError {
    /// A frame line with a non-numeric field, a field out of range, or an
    /// unpaired field.
    Malformed,
}

proof fn lemma_parse_pairs_odd(fs: Seq<Seq<u8>>)
    requires
        fs.len() % 2 == 1,
    ensures
        spec_parse_pairs(fs) is None,
    decreases fs.len(),
{
    if fs.len() > 1 {
        lemma_parse_pairs_odd(fs.drop_last().drop_last());
    }
}

proof fn lemma_parse_pairs_bad(fs: Seq<Seq<u8>>, j: int)
    requires
        fs.len() % 2 == 0,
        0 <= j,
        j % 2 == 0,
        j + 1 < fs.len(),
        !(is_digits(fs[j]) && dec_val(fs[j]) <= u32::MAX && is_digits(fs[j + 1]) && dec_val(
            fs[j + 1],
        ) <= u16::MAX),
    ensures
        spec_parse_pairs(fs) is None,
    decreases fs.len(),
{
    if j + 2 == fs.len() {
    } else {
        let t = fs.drop_last().drop_last();
        assert(t[j] == fs[j]);
        assert(t[j + 1] == fs[j + 1]);
        lemma_parse_pairs_bad(t, j);
    }
}

proof fn lemma_parse_lines_bad(ls: Seq<Seq<u8>>, j: int)
    requires
        0 <= j < ls.len(),
        spec_parse_frame_line(ls[j]) is None,
    ensures
        spec_parse_lines(ls) is None,
    decreases ls.len(),
{
    if j < ls.len() - 1 {
        assert(ls.drop_last()[j] == ls[j]);
        lemma_parse_lines_bad(ls.drop_last(), j);
    }
}

/// Whether a line belongs to the header block: it opens with the metadata
/// marker, or is blank.
fn is_meta_or_blank(l: &[u8]) -> (r: bool)
    ensures
        r == (is_meta_line(l@) || l@.len() == 0),
{
    if l.len() == 0 {
        return true;
    }
    if l.len() < 9 {
        return false;
    }
    let ok = l[0] == 109 && l[1] == 101 && l[2] == 116 && l[3] == 97 && l[4] == 100 && l[5] == 97
        && l[6] == 116 && l[7] == 97 && l[8] == 32;
    proof {
        if ok {
            assert(l@.take(9) =~= meta_marker());
        } else {
            if l@.take(9) == meta_marker() {
                assert(l@.take(9)[0] == l@[0]);
                assert(l@.take(9)[1] == l@[1]);
                assert(l@.take(9)[2] == l@[2]);
                assert(l@.take(9)[3] == l@[3]);
                assert(l@.take(9)[4] == l@[4]);
                assert(l@.take(9)[5] == l@[5]);
                assert(l@.take(9)[6] == l@[6]);
                assert(l@.take(9)[7] == l@[7]);
                assert(l@.take(9)[8] == l@[8]);
                assert(false);
            }
        }
    }
    ok
}

/// Parses one frame line: the frame number, then `pixel,magnitude` pairs.
fn parse_frame_line_fields(l: &[u8]) -> (r: Option<(u32, Vec<(u32, u16)>)>)
    ensures
        match r {
            None => spec_parse_frame_line(l@) is None,
            Some(f) => spec_parse_frame_line(l@) == Some((f.0, f.1@)),
        },
{
    let fs = split_on_byte(l, 44);
    let ghost fsv = split_on(l@, 44);
    proof {
        assert(views_of(fs@) == fsv);
        assert(forall|k: int| 0 <= k < fs@.len() ==> fsv[k] == #[trigger] fs@[k]@);
    }
    let no = match parse_u32(fs[0].as_slice()) {
        None => {
            return None;
        },
        Some(v) => v,
    };
    let ghost tail = fsv.drop_first();
    let mut ds: Vec<(u32, u16)> = Vec::new();
    let mut k: usize = 1;
    proof {
        assert(tail.take(0) =~= Seq::<Seq<u8>>::empty());
    }
    while k < fs.len()
        invariant
            1 <= k <= fs@.len(),
            fsv == split_on(l@, 44),
            views_of(fs@) == fsv,
            fsv.len() == fs@.len(),
            fsv.len() >= 1,
            tail == fsv.drop_first(),
            (k - 1) % 2 == 0,
            is_digits(fsv[0]) && dec_val(fsv[0]) <= u32::MAX,
            no == dec_val(fsv[0]) as u32,
            spec_parse_pairs(tail.take(k - 1)) == Some(ds@),
        decreases fs@.len() - k,
    {
        if k + 1 == fs.len() {
            // an unpaired trailing field
            proof {
                assert(tail.len() == fsv.len() - 1);
                assert(tail.len() % 2 == 1);
                lemma_parse_pairs_odd(tail);
            }
            return None;
        }
        let p = match parse_u32(fs[k].as_slice()) {
            None => {
                proof {
                    lemma_bad_pair_at(tail, k - 1);
                }
                return None;
            },
            Some(v) => v,
        };
        let m = match parse_u16(fs[k + 1].as_slice()) {
            None => {
                proof {
                    lemma_bad_pair_at(tail, k - 1);
                }
                return None;
            },
            Some(v) => v,
        };
        ds.push((p, m));
        proof {
            assert(tail.take(k + 1).drop_last() =~= tail.take(k as int));
            assert(tail.take(k as int).drop_last() =~= tail.take(k - 1));
            assert(tail.take(k + 1)[k - 1] == tail[k - 1]);
            assert(tail.take(k + 1)[k as int] == tail[k as int]);
            assert(tail[k - 1] == fsv[k as int]);
            assert(tail[k as int] == fsv[k + 1]);
        }
        k += 2;
    }
    proof {
        assert(k == fs@.len());
        assert(tail.take(k - 1) =~= tail);
    }
    Some((no, ds))
}

/// Either the whole tail parses as pairs only if the pair starting at `j`
/// is well formed; here it is not, so the tail does not parse.
proof fn lemma_bad_pair_at(tail: Seq<Seq<u8>>, j: int)
    requires
        0 <= j,
        j % 2 == 0,
        j + 1 < tail.len(),
        !(is_digits(tail[j]) && dec_val(tail[j]) <= u32::MAX && is_digits(tail[j + 1])
            && dec_val(tail[j + 1]) <= u16::MAX),
    ensures
        spec_parse_pairs(tail) is None,
{
    if tail.len() % 2 == 1 {
        lemma_parse_pairs_odd(tail);
    } else {
        lemma_parse_pairs_bad(tail, j);
    }
}

/// Reads the intermediate form back: skips the header block and blank
/// lines, then parses every remaining line as one frame, failing on the
/// first malformed line.
pub fn parse_frames(s: &[u8]) -> (r: Result<Vec<Frame>, StoreError>)
    ensures
        match r {
            Ok(v) => spec_parse(s@) == Some(frames_view(v@)),
            Err(e) => spec_parse(s@) is None && e == StoreError::Malformed,
        },
{
    let ls = split_lines(s);
    let ghost lsv = lines_of(s@);
    proof {
        assert(views_of(ls@) == lsv);
        assert(forall|k: int| 0 <= k < ls@.len() ==> lsv[k] == #[trigger] ls@[k]@);
    }
    let mut i: usize = 0;
    proof {
        assert(lsv.skip(0) =~= lsv);
    }
    while i < ls.len()
        invariant
            i <= ls@.len(),
            lsv == lines_of(s@),
            views_of(ls@) == lsv,
            lsv.len() == ls@.len(),
            skip_header(lsv) == skip_header(lsv.skip(i as int)),
        ensures
            i <= ls@.len(),
            skip_header(lsv) == skip_header(lsv.skip(i as int)),
            i == ls@.len() || !(is_meta_line(lsv[i as int]) || lsv[i as int].len() == 0),
        decreases ls@.len() - i,
    {
        if !is_meta_or_blank(ls[i].as_slice()) {
            break;
        }
        proof {
            assert(lsv.skip(i as int)[0] == lsv[i as int]);
            assert(lsv.skip(i as int).drop_first() =~= lsv.skip(i as int + 1));
        }
        i += 1;
    }
    proof {
        if i < ls@.len() {
            assert(lsv.skip(i as int)[0] == lsv[i as int]);
            assert(skip_header(lsv.skip(i as int)) == lsv.skip(i as int));
        } else {
            assert(lsv.skip(i as int) =~= Seq::<Seq<u8>>::empty());
        }
    }
    let ghost body = lsv.skip(i as int);
    let ghost i0 = i as int;
    let mut frames: Vec<Frame> = Vec::new();
    let mut j: usize = i;
    proof {
        assert(body.take(0) =~= Seq::<Seq<u8>>::empty());
    }
    while j < ls.len()
        invariant
            0 <= i0,
            i0 <= j <= ls@.len(),
            lsv == lines_of(s@),
            views_of(ls@) == lsv,
            lsv.len() == ls@.len(),
            body == lsv.skip(i0),
            skip_header(lsv) == body,
            body.len() == lsv.len() - i0,
            spec_parse_lines(body.take(j - i0)) == Some(frames_view(frames@)),
        decreases ls@.len() - j,
    {
        proof {
            assert(lsv.skip(i0)[j - i0] == lsv[i0 + (j - i0)]);
            assert(body[j - i0] == lsv[j as int]);
        }
        match parse_frame_line_fields(ls[j].as_slice()) {
            None => {
                proof {
                    lemma_parse_lines_bad(body, j - i0);
                }
                return Err(StoreError::Malformed);
            },
            Some((no, d)) => {
                let ghost pre = frames@;
                frames.push(Frame { frame_number: no, deltas: d });
                proof {
                    assert(body.take(j - i0 + 1).drop_last() =~= body.take(j - i0));
                    assert(body.take(j - i0 + 1).last() == body[j - i0]);
                    assert(frames_view(frames@) =~= frames_view(pre).push(
                        (no, frames@[frames@.len() - 1].deltas@),
                    ));
                }
            },
        }
        j += 1;
    }
    proof {
        assert(body.take(j - i0) =~= body);
    }
    Ok(frames)
}

proof fn lemma_frame_line_no_nl(no: u32, ds: Seq<(u32, u16)>)
    ensures
        !has_byte(frame_line(no, ds), 10),
{
    lemma_dec_of_digits(no as nat);
    lemma_digits_no_byte(dec_of(no as nat), 10);
    lemma_ser_deltas_no_byte(ds, 10);
    lemma_has_byte_concat(dec_of(no as nat), ser_deltas(ds), 10);
}

} // verus!
