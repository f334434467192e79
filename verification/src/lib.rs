//! Placement of cache lines on a rectangular grid: the quadratic cost of a
//! partition and a local search for cheap cut positions.

pub mod cost;
pub mod filtered_slice;
pub mod gridsearcher;

pub use cost::get_cost;
pub use filtered_slice::FilteredSlice;
pub use gridsearcher::get_cache_locations;
pub use gridsearcher::horizontal::SearcherFirstHorizontal;
pub use gridsearcher::vertical::SearcherFirstVertical;
pub use gridsearcher::Solution;
