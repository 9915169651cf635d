//! Turns a stream of timestamped, geolocated point events into a sequence of
//! raster frames and palette-indexed pixel buffers for an animated image.
//!
//! The pipeline: each event is projected to a pixel, binned into a frame by
//! elapsed time since an epoch, accumulated as per-pixel deltas, optionally
//! persisted in a text intermediate form, and finally rendered through a
//! colour ramp into one palette-indexed buffer per frame.

mod binner;
mod geo;
mod ramp;
mod render;
mod store;
mod text;

pub use binner::BinError;
pub use binner::Binner;
pub use binner::frame_number;
pub use geo::ProjectionKind;
pub use geo::RasterDims;
pub use geo::ViewBox;
pub use geo::project_equirect;
pub use ramp::ColourRamp;
pub use ramp::RampError;
pub use render::RenderMode;
pub use render::Renderer;
pub use render::lemma_untouched_cell_decays;
pub use store::Frame;
pub use store::StoreError;
pub use store::StoreMeta;
pub use store::lemma_round_trip;
pub use store::parse_frames;
pub use store::serialize_frames;
