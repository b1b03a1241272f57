//! Board mutations: run extension, run splitting, run compression and
//! the placement search.

pub mod compress;
pub mod extend;
pub mod place;
pub mod split;

pub use compress::compress_runs;
pub use extend::extend_run;
pub use extend::extend_run_head;
pub use extend::extend_run_tail;

pub use place::place_tile;
pub use place::place_tiles;
pub use place::place_tiles_best;
pub use split::split_run;
