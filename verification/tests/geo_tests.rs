use osm_history_animation::{RasterDims, ViewBox, project_equirect};

fn whole_world() -> ViewBox {
    ViewBox::new(-180_000_000, -90_000_000, 180_000_000, 90_000_000).unwrap()
}

#[test]
fn view_box_rejects_crossed_edges() {
    assert!(ViewBox::new(10_000_000, 0, -10_000_000, 5_000_000).is_none());
    assert!(ViewBox::new(0, 5_000_000, 10_000_000, 5_000_000).is_none());
    assert!(ViewBox::new(-200_000_000, -90_000_000, 180_000_000, 90_000_000).is_none());
}

#[test]
fn raster_width_keeps_aspect_ratio() {
    let vb = whole_world();
    let dims = RasterDims::for_view(&vb, 2).unwrap();
    assert_eq!(dims.width, 4);
    assert_eq!(dims.height, 2);
    let dims = RasterDims::for_view(&vb, 512).unwrap();
    assert_eq!(dims.width, 1024);
}

#[test]
fn raster_rejects_zero_and_oversize_height() {
    let vb = whole_world();
    assert!(RasterDims::for_view(&vb, 0).is_none());
    assert!(RasterDims::for_view(&vb, 70_000).is_none());
}

#[test]
fn centre_point_maps_to_fixed_index() {
    // Whole world at height 2 (width 4): (lat 0, lon 0) lands at
    // x = (lon - left) * width / (right - left) = 2,
    // y = (top - lat) * height / (top - bottom) = 1, so index 1 * 4 + 2 = 6.
    let vb = whole_world();
    let dims = RasterDims::for_view(&vb, 2).unwrap();
    assert_eq!(project_equirect(&vb, &dims, 0, 0), Some(6));
}

#[test]
fn edge_points_are_outside_view() {
    let vb = whole_world();
    let dims = RasterDims::for_view(&vb, 2).unwrap();
    assert_eq!(project_equirect(&vb, &dims, 90_000_000, 0), None);
    assert_eq!(project_equirect(&vb, &dims, -90_000_000, 0), None);
    assert_eq!(project_equirect(&vb, &dims, 0, 180_000_000), None);
    assert_eq!(project_equirect(&vb, &dims, 0, -180_000_000), None);
}

#[test]
fn far_outside_point_is_dropped() {
    // A latitude of 91 degrees lies outside any valid view box.
    let vb = whole_world();
    let dims = RasterDims::for_view(&vb, 2).unwrap();
    assert_eq!(project_equirect(&vb, &dims, 91_000_000, 0), None);
}

#[test]
fn inside_points_stay_in_range() {
    let vb = whole_world();
    let dims = RasterDims::for_view(&vb, 64).unwrap();
    let cells = dims.width * dims.height;
    let samples = [
        (89_999_999i64, -179_999_999i64),
        (-89_999_999, 179_999_999),
        (1, 1),
        (-45_000_000, 90_000_000),
    ];
    for (lat, lon) in samples {
        let idx = project_equirect(&vb, &dims, lat, lon).unwrap();
        assert!(idx < cells);
    }
}

#[test]
fn narrow_view_box_projection() {
    // A small city-sized box: [-0.5, 51.0] to [0.5, 52.0] degrees.
    let vb = ViewBox::new(-500_000, 51_000_000, 500_000, 52_000_000).unwrap();
    let dims = RasterDims::for_view(&vb, 100).unwrap();
    assert_eq!(dims.width, 100);
    // The exact centre lands in the middle row and column.
    assert_eq!(project_equirect(&vb, &dims, 51_500_000, 0), Some(50 * 100 + 50));
    // Just outside either edge is dropped.
    assert_eq!(project_equirect(&vb, &dims, 52_000_001, 0), None);
    assert_eq!(project_equirect(&vb, &dims, 51_500_000, 600_000), None);
}
