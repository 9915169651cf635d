use osm_history_animation::{Frame, ProjectionKind, StoreError, StoreMeta, parse_frames,
                            serialize_frames};

fn sample_meta() -> StoreMeta {
    StoreMeta {
        height: 2,
        width: 4,
        sec_per_frame: 30,
        left: -180_000_000,
        bottom: -90_000_000,
        right: 180_000_000,
        top: 90_000_000,
        projection: ProjectionKind::Equirect,
    }
}

#[test]
fn serialized_form_is_readable_text() {
    let frames = vec![
        Frame { frame_number: 0, deltas: vec![(5, 2), (7, 1)] },
        Frame { frame_number: 1, deltas: vec![] },
    ];
    let bytes = serialize_frames(&sample_meta(), &frames);
    let text = String::from_utf8(bytes).unwrap();
    assert!(text.starts_with("metadata version 1\n"));
    assert!(text.contains("metadata height 2\n"));
    assert!(text.contains("metadata width 4\n"));
    assert!(text.contains("metadata sec_per_frame 30\n"));
    assert!(text.contains("metadata left -180000000\n"));
    assert!(text.contains("metadata projection equirect\n"));
    assert!(text.ends_with("\n\n0,5,2,7,1\n1\n"));
}

#[test]
fn ortho_projection_is_recorded() {
    let meta = StoreMeta { projection: ProjectionKind::Ortho, ..sample_meta() };
    let bytes = serialize_frames(&meta, &vec![]);
    let text = String::from_utf8(bytes).unwrap();
    assert!(text.contains("metadata projection ortho\n"));
}

#[test]
fn round_trip_reproduces_frames() {
    let frames = vec![
        Frame { frame_number: 0, deltas: vec![(5, 2), (7, 1)] },
        Frame { frame_number: 1, deltas: vec![] },
        Frame { frame_number: 2, deltas: vec![(0, 65535)] },
    ];
    let bytes = serialize_frames(&sample_meta(), &frames);
    let back = parse_frames(&bytes).unwrap();
    assert_eq!(back.len(), frames.len());
    for (a, b) in frames.iter().zip(back.iter()) {
        assert_eq!(a.frame_number, b.frame_number);
        assert_eq!(a.deltas, b.deltas);
    }
}

#[test]
fn parse_skips_header_and_blank_lines() {
    let text = b"metadata version 1\nmetadata height 2\n\n3,1,4\n";
    let frames = parse_frames(text).unwrap();
    assert_eq!(frames.len(), 1);
    assert_eq!(frames[0].frame_number, 3);
    assert_eq!(frames[0].deltas, vec![(1, 4)]);
}

#[test]
fn parse_accepts_empty_input() {
    let frames = parse_frames(b"").unwrap();
    assert_eq!(frames.len(), 0);
}

#[test]
fn parse_rejects_non_numeric_frame_number() {
    assert!(matches!(parse_frames(b"abc\n"), Err(StoreError::Malformed)));
}

#[test]
fn parse_rejects_unpaired_delta_field() {
    assert!(matches!(parse_frames(b"0,5\n"), Err(StoreError::Malformed)));
}

#[test]
fn parse_rejects_out_of_range_magnitude() {
    assert!(matches!(parse_frames(b"0,5,65536\n"), Err(StoreError::Malformed)));
}

#[test]
fn parse_rejects_blank_line_between_frames() {
    // A blank line is tolerated only in the leading header block.
    assert!(matches!(parse_frames(b"0,1,1\n\n1,2,2\n"), Err(StoreError::Malformed)));
}
