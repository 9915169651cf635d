use osm_history_animation::{ColourRamp, RasterDims, RenderMode, Renderer};

fn dims2x2() -> RasterDims {
    RasterDims { width: 2, height: 2 }
}

fn plain_ramp() -> ColourRamp {
    ColourRamp::new_from_text("0,0,0\n").unwrap()
}

#[test]
fn untouched_cells_render_empty() {
    let ramp = plain_ramp();
    let mut r = Renderer::new(dims2x2(), RenderMode::Magnitude);
    let buf = r.step(0, &vec![], &ramp);
    assert_eq!(buf, vec![0, 0, 0, 0]);
}

#[test]
fn merged_magnitude_renders_through_ramp() {
    let ramp = plain_ramp();
    let mut r = Renderer::new(dims2x2(), RenderMode::Magnitude);
    let buf = r.step(0, &vec![(0, 100), (3, 2)], &ramp);
    assert_eq!(buf, vec![155, 0, 0, 253]);
}

#[test]
fn magnitude_decays_strictly_every_frame() {
    // 100 -> 95 -> 90 -> 85 ... each frame multiplies by 0.95, truncated.
    let ramp = plain_ramp();
    let mut r = Renderer::new(dims2x2(), RenderMode::Magnitude);
    let buf = r.step(0, &vec![(0, 100)], &ramp);
    assert_eq!(buf[0], 155);
    let buf = r.step(1, &vec![], &ramp);
    assert_eq!(buf[0], 160); // value 95
    let buf = r.step(2, &vec![], &ramp);
    assert_eq!(buf[0], 165); // value 90
    let buf = r.step(3, &vec![], &ramp);
    assert_eq!(buf[0], 170); // value 85
}

#[test]
fn decay_reaches_zero_and_stops() {
    let ramp = plain_ramp();
    let mut r = Renderer::new(dims2x2(), RenderMode::Magnitude);
    let buf = r.step(0, &vec![(0, 1)], &ramp);
    assert_eq!(buf[0], 254); // value 1
    let buf = r.step(1, &vec![], &ramp);
    assert_eq!(buf[0], 255); // value 0: touched, fully faded
    let buf = r.step(2, &vec![], &ramp);
    assert_eq!(buf[0], 255); // stays 0
}

#[test]
fn decay_then_merge_order() {
    // The decay happens before the merge: 100 decays to 95, then +10.
    let ramp = plain_ramp();
    let mut r = Renderer::new(dims2x2(), RenderMode::Magnitude);
    r.step(0, &vec![(0, 100)], &ramp);
    let buf = r.step(1, &vec![(0, 10)], &ramp);
    assert_eq!(buf[0], 255 - 105);
}

#[test]
fn out_of_range_delta_is_dropped() {
    let ramp = plain_ramp();
    let mut r = Renderer::new(dims2x2(), RenderMode::Magnitude);
    let buf = r.step(0, &vec![(100, 5)], &ramp);
    assert_eq!(buf, vec![0, 0, 0, 0]);
}

#[test]
fn repeated_hits_accumulate() {
    let ramp = plain_ramp();
    let mut r = Renderer::new(dims2x2(), RenderMode::Magnitude);
    let buf = r.step(0, &vec![(1, 3), (1, 4)], &ramp);
    assert_eq!(buf[1], 255 - 7);
}

#[test]
fn age_mode_tracks_last_touched_frame() {
    // Steps with thresholds 2 and 1: a cell's colour follows its age.
    let ramp = ColourRamp::new_from_text("0,0,0\n2,9,9,9\n1,8,8,8\n").unwrap();
    let mut r = Renderer::new(dims2x2(), RenderMode::Age);
    let buf = r.step(0, &vec![(1, 7)], &ramp);
    assert_eq!(buf[1], 0); // age 0 matches no threshold
    let buf = r.step(1, &vec![], &ramp);
    assert_eq!(buf[1], 2); // age 1 matches the second step
    let buf = r.step(2, &vec![], &ramp);
    assert_eq!(buf[1], 1); // age 2 matches the first step
    let buf = r.step(3, &vec![], &ramp);
    assert_eq!(buf[1], 0); // age 3 matches nothing again
    assert_eq!(buf[0], 0); // a never-touched cell stays empty
}
