use osm_history_animation::{ColourRamp, RampError};

#[test]
fn two_line_table_gives_expected_palette() {
    let ramp = ColourRamp::new_from_text("10,20,30\n5,255,0,0\n").unwrap();
    assert_eq!(ramp.palette(), vec![10, 20, 30, 255, 0, 0]);
}

#[test]
fn palette_length_counts_steps_and_empty_colour() {
    let ramp = ColourRamp::new_from_text("0,0,0\n1,10,10,10\n2,20,20,20\n3,30,30,30\n").unwrap();
    assert_eq!(ramp.palette().len(), 3 * (3 + 1));
    let ramp = ColourRamp::new_from_text("1,2,3").unwrap();
    assert_eq!(ramp.palette().len(), 3);
}

#[test]
fn ramp_rejects_non_numeric_field() {
    assert!(matches!(ColourRamp::new_from_text("x,20,30\n"), Err(RampError::Malformed)));
    assert!(matches!(ColourRamp::new_from_text("10,20,30\nfive,1,2,3\n"), Err(RampError::Malformed)));
}

#[test]
fn ramp_rejects_wrong_field_count() {
    assert!(matches!(ColourRamp::new_from_text("10,20\n"), Err(RampError::Malformed)));
    assert!(matches!(ColourRamp::new_from_text("10,20,30\n5,255,0\n"), Err(RampError::Malformed)));
}

#[test]
fn ramp_rejects_out_of_range_colour() {
    assert!(matches!(ColourRamp::new_from_text("10,20,300\n"), Err(RampError::Malformed)));
}

#[test]
fn ramp_rejects_empty_table() {
    assert!(matches!(ColourRamp::new_from_text(""), Err(RampError::Malformed)));
}

#[test]
fn ramp_rejects_too_many_steps() {
    let mut text = String::from("0,0,0\n");
    for i in 0..255 {
        text.push_str(&format!("{},1,2,3\n", i));
    }
    assert!(matches!(ColourRamp::new_from_text(&text), Err(RampError::TooManySteps)));
}

#[test]
fn ramp_accepts_full_table() {
    let mut text = String::from("0,0,0\n");
    for i in 0..254 {
        text.push_str(&format!("{},1,2,3\n", i));
    }
    let ramp = ColourRamp::new_from_text(&text).unwrap();
    assert_eq!(ramp.palette().len(), 3 * 255);
}

#[test]
fn magnitude_index_scales_and_clamps() {
    let ramp = ColourRamp::new_from_text("0,0,0\n").unwrap();
    assert_eq!(ramp.index_for_magnitude(None), 0);
    assert_eq!(ramp.index_for_magnitude(Some(0)), 255);
    assert_eq!(ramp.index_for_magnitude(Some(100)), 155);
    assert_eq!(ramp.index_for_magnitude(Some(254)), 1);
    assert_eq!(ramp.index_for_magnitude(Some(255)), 1);
    assert_eq!(ramp.index_for_magnitude(Some(1_000_000)), 1);
}

#[test]
fn exact_index_finds_first_matching_threshold() {
    let ramp = ColourRamp::new_from_text("0,0,0\n7,1,1,1\n9,2,2,2\n7,3,3,3\n").unwrap();
    assert_eq!(ramp.index_for_exact(None), 0);
    assert_eq!(ramp.index_for_exact(Some(7)), 1);
    assert_eq!(ramp.index_for_exact(Some(9)), 2);
    assert_eq!(ramp.index_for_exact(Some(8)), 0);
}
