//! Detection and recovery of regular tile grids in images: the integer
//! core of the detector (input checks, grid geometry, harmonic expansion of
//! strides, peak picking, margin placement, hand editing of a grid) and the
//! tile-level image work (extraction, deduplication into an atlas,
//! base/detail layer decomposition, palette quantization, grid overlay).
pub mod atlas;
pub mod editing;
pub mod grid;
pub mod layers;
pub mod layout;
pub mod overlay;
pub mod periodicity;
pub mod quantize;
pub mod raster;
pub mod stats;
pub mod stride_set;
pub mod tiles;

pub use atlas::{TileAtlas, build_atlas};
pub use editing::{
    DragButton, DragOp, KeyPresses, PointerInput, ViewMode, apply_drag, apply_view_keys, handle_overlay_input,
    normalize_edited, sync_selection,
};
pub use grid::{AxisFit, DetectInputError, build_grid, check_detect_input, choose_margin, coverage_count};
pub use layers::{LayerBaseMode, LayerDecomposition, decompose_layers};
pub use overlay::draw_overlay;
pub use periodicity::{expand_harmonics, pick_peaks};
pub use quantize::quantize_image;
pub use raster::RgbaBuffer;
pub use stats::{mode_of_sorted, sum_abs_diff};
pub use tiles::{GridGeometry, extract_tiles};
