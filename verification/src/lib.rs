//! A two-dimensional grid container in which a single value may occupy a
//! rectangular block of cells (row-span and column-span); every covered cell
//! except the block's top-left anchor is a back-reference to that anchor.

mod cell;
mod digits;
mod laws;
mod render;
mod table;

pub use cell::Cell;
pub use cell::Error;
pub use cell::message_spec;
pub use digits::dec_str;
pub use digits::digit_char;
pub use digits::push_dec;
pub use laws::consistent;
pub use laws::lemma_all_empty_consistent;
pub use laws::lemma_map_identity_round_trip;
pub use laws::lemma_overwrite_clears_old_span;
pub use laws::lemma_set_cell_preserves_consistency;
pub use laws::lemma_value_update_preserves_wf;
pub use laws::shadows_consistent;
pub use laws::spans_exclusive;
pub use render::cell_markup;
pub use render::colspan_attr;
pub use render::row_markup;
pub use render::rows_markup;
pub use render::rowspan_attr;
pub use render::table_markup;
pub use table::Table;
pub use table::CellValue;
pub use table::anchor_dropped;
pub use table::flat_map_cell;
pub use table::in_old_span;
pub use table::map_cell_related;
pub use table::occupant_of;
pub use table::placed_cell;
pub use table::grown_dim;
pub use table::in_rect;
