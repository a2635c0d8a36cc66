//! A dense two-dimensional array over one contiguous row-major buffer,
//! with rectangular sub-views, exact-size double-ended row/cell cursors,
//! a generic flattening adapter, and an in-place toroidal translation.

mod cursor;
mod flattenexact;
mod grid;
mod translate;
mod view;

pub use cursor::Cursor;
pub use flattenexact::flat_remaining;
pub use flattenexact::folds;
pub use flattenexact::uniform_rows;
pub use flattenexact::lemma_flat_len;
pub use flattenexact::lemma_flat_index;
pub use flattenexact::lemma_flat_split;
pub use flattenexact::FlattenExact;
pub use grid::GridError;
pub use grid::TooDee;
pub use translate::lemma_rot_index;
pub use translate::lemma_rows_model_flatten;
pub use translate::lemma_full_region_is_grid;
pub use translate::lemma_translate_identity;
pub use translate::lemma_translate_preserves_cells;
pub use translate::lemma_translate_round_trip;
pub use translate::lemma_translated_rows_index;
pub use translate::rect;
pub use translate::reduced;
pub use translate::rot;
pub use translate::translated_rows;
pub use view::CellCursor;
pub use view::RowCursor;
pub use view::TooDeeRegion;
pub use view::TooDeeView;
