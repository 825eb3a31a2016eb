//! A tile-matching board engine: two tiles of the same kind connect when a
//! line with at most two turns joins them over empty cells. The board
//! reserves a one-cell border that lines may cross but tiles never fill.
//! `mapping` and `tracing` find connections by casting rays; `track` does it
//! by a turn-limited greedy search; `shadow`, `matcher` and `line_scan` scan
//! rows and columns for a quick check of whether any move is left.

pub mod block;
pub mod cell;
pub mod connector;
pub mod game_map;
pub mod line_scan;
pub mod mapping;
pub mod matcher;
pub mod overlap;
pub mod track;
pub mod shadow;
pub mod tracing;
