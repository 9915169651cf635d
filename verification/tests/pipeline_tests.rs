use osm_history_animation::{Binner, ColourRamp, ProjectionKind, RasterDims, RenderMode,
                            Renderer, StoreMeta, ViewBox, parse_frames, project_equirect,
                            serialize_frames};

const EPOCH: u64 = 1_109_635_200;

#[test]
fn ingest_project_and_render_end_to_end() {
    // Whole world at height 2 (width 4); two points at (0, 0) in one frame.
    let vb = ViewBox::new(-180_000_000, -90_000_000, 180_000_000, 90_000_000).unwrap();
    let dims = RasterDims::for_view(&vb, 2).unwrap();
    let mut b = Binner::new(EPOCH, 30);
    for t in [EPOCH + 1, EPOCH + 2] {
        let pixel = project_equirect(&vb, &dims, 0, 0);
        b.add(t, pixel).unwrap();
    }
    let frames = b.finish();
    assert_eq!(frames.len(), 1);
    assert_eq!(frames[0].deltas, vec![(6, 2)]);

    // The store round-trips the binned frames.
    let meta = StoreMeta {
        height: dims.height,
        width: dims.width,
        sec_per_frame: 30,
        left: vb.left,
        bottom: vb.bottom,
        right: vb.right,
        top: vb.top,
        projection: ProjectionKind::Equirect,
    };
    let bytes = serialize_frames(&meta, &frames);
    let back = parse_frames(&bytes).unwrap();
    assert_eq!(back.len(), 1);
    assert_eq!(back[0].deltas, vec![(6, 2)]);

    // Rendering colours exactly the hit pixel.
    let ramp = ColourRamp::new_from_text("0,0,0\n").unwrap();
    let mut r = Renderer::new(dims, RenderMode::Magnitude);
    let buf = r.step(back[0].frame_number, &back[0].deltas, &ramp);
    assert_eq!(buf.len(), 8);
    assert_eq!(buf[6], 253);
    for (i, v) in buf.iter().enumerate() {
        if i != 6 {
            assert_eq!(*v, 0);
        }
    }
}

#[test]
fn point_outside_any_view_leaves_no_trace() {
    // A point at latitude 91 degrees is dropped by the projection and
    // contributes no delta anywhere.
    let vb = ViewBox::new(-180_000_000, -90_000_000, 180_000_000, 90_000_000).unwrap();
    let dims = RasterDims::for_view(&vb, 2).unwrap();
    let mut b = Binner::new(EPOCH, 30);
    let pixel = project_equirect(&vb, &dims, 91_000_000, 0);
    assert_eq!(pixel, None);
    b.add(EPOCH + 1, pixel).unwrap();
    let frames = b.finish();
    for f in &frames {
        assert_eq!(f.deltas, vec![]);
    }
}
