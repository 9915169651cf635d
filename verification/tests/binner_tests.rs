use osm_history_animation::{BinError, Binner, Frame, frame_number};

const EPOCH: u64 = 1_109_635_200;

fn deltas_of(f: &Frame) -> Vec<(u32, u16)> {
    f.deltas.clone()
}

#[test]
fn frame_number_matches_formula() {
    assert_eq!(frame_number(EPOCH, EPOCH, 30), Some(0));
    assert_eq!(frame_number(EPOCH + 29, EPOCH, 30), Some(0));
    assert_eq!(frame_number(EPOCH + 30, EPOCH, 30), Some(1));
    assert_eq!(frame_number(EPOCH + 65, EPOCH, 30), Some(2));
    assert_eq!(frame_number(EPOCH + 3600, EPOCH, 60), Some(60));
}

#[test]
fn frame_number_before_epoch_fails() {
    assert_eq!(frame_number(EPOCH - 1, EPOCH, 30), None);
    assert_eq!(frame_number(0, EPOCH, 30), None);
}

#[test]
fn binner_rejects_event_before_epoch() {
    let mut b = Binner::new(EPOCH, 30);
    assert_eq!(b.add(EPOCH - 1, Some(0)), Err(BinError::BeforeEpoch));
    let frames = b.finish();
    assert_eq!(frames.len(), 0);
}

#[test]
fn binner_rejects_frame_overflow() {
    let mut b = Binner::new(0, 1);
    assert_eq!(b.add(4_294_967_296, Some(0)), Err(BinError::FrameOverflow));
}

#[test]
fn two_points_same_pixel_one_delta() {
    // Two events at the same pixel within the same frame merge additively,
    // under that frame's own number.
    let mut b = Binner::new(EPOCH, 30);
    b.add(EPOCH + 65, Some(6)).unwrap();
    b.add(EPOCH + 70, Some(6)).unwrap();
    let frames = b.finish();
    assert_eq!(frames.len(), 1);
    assert_eq!(frames[0].frame_number, 2);
    assert_eq!(deltas_of(&frames[0]), vec![(6, 2)]);
}

#[test]
fn frame_store_is_gap_free() {
    // Events in frames 2 and 5 yield one frame per integer in [2, 5],
    // in increasing order, the untouched ones with an empty delta list.
    let mut b = Binner::new(EPOCH, 30);
    b.add(EPOCH + 70, Some(1)).unwrap();
    b.add(EPOCH + 160, Some(2)).unwrap();
    let frames = b.finish();
    assert_eq!(frames.len(), 4);
    for (i, f) in frames.iter().enumerate() {
        assert_eq!(f.frame_number, 2 + i as u32);
    }
    assert_eq!(deltas_of(&frames[0]), vec![(1, 1)]);
    assert_eq!(deltas_of(&frames[1]), vec![]);
    assert_eq!(deltas_of(&frames[2]), vec![]);
    assert_eq!(deltas_of(&frames[3]), vec![(2, 1)]);
}

#[test]
fn frames_carry_their_own_numbers() {
    // A store spanning one late frame holds that frame under its own
    // number, not a renumbered zero.
    let mut b = Binner::new(EPOCH, 30);
    b.add(EPOCH + 300, Some(0)).unwrap();
    let frames = b.finish();
    assert_eq!(frames.len(), 1);
    assert_eq!(frames[0].frame_number, 10);
    assert_eq!(deltas_of(&frames[0]), vec![(0, 1)]);
}

#[test]
fn dropped_point_contributes_no_delta() {
    // A point outside the view still opens its frame, but adds no delta.
    let mut b = Binner::new(EPOCH, 30);
    b.add(EPOCH + 1, None).unwrap();
    let frames = b.finish();
    assert_eq!(frames.len(), 1);
    assert_eq!(deltas_of(&frames[0]), vec![]);
}

#[test]
fn distinct_pixels_get_distinct_deltas() {
    let mut b = Binner::new(EPOCH, 30);
    b.add(EPOCH + 1, Some(3)).unwrap();
    b.add(EPOCH + 2, Some(9)).unwrap();
    b.add(EPOCH + 3, Some(3)).unwrap();
    let frames = b.finish();
    assert_eq!(frames.len(), 1);
    let mut ds = deltas_of(&frames[0]);
    ds.sort();
    assert_eq!(ds, vec![(3, 2), (9, 1)]);
}
