pub mod analysis;
pub mod bounds;
pub mod cache;
pub mod car;
pub mod car_order;
pub mod clock;
pub mod closest;
pub mod config;
pub mod error;
pub mod fallback;
pub mod ingest;
pub mod laws;
pub mod picker;
pub mod random;
pub mod runs;
pub mod search;
pub mod similarity;
pub mod sums;
pub mod text;
pub mod tolerance;
pub mod utils;

pub use analysis::{analyze_multiple_runs, CarUse, LapTimeBand, RunAnalysis};
pub use bounds::{
    calculate_min_max_sums, check_search_sums_fit, get_target_range_for_subset, sorted_indexes,
};
pub use car::{get_car_id, get_lap_time, Car, CarIndex};
pub use clock::{
    budget_spent, effective_timeout, elapsed_millis, is_timeout_exceeded, MIN_TIMEOUT_MS,
};
pub use closest::{find_closest_time, time_distance};
pub use config::{DEFAULT_TIMEOUT_MS, DEFAULT_TOLERANCE_MILLIPERCENT};
pub use error::SubsetError;
pub use fallback::{
    contains_index, fallback_strategy, ideal_average_of, nearest_to, reusable_cars, set_members,
    try_extend_with_previous,
};
pub use ingest::{
    field_bounds, format_ms_to_minsecms, is_known, next_separator, parse_lap_time,
    parse_lap_time_at, read_cars_from_csv_string, LapTimeError,
};
pub use picker::{candidates_in_window, gap_of, select_candidate, weight_of, weights_of, WEIGHT_SCALE};
pub use runs::{
    accept_attempt, budget_check, mark_selected, perform_multiple_runs, RunSession, SessionStep,
    SubsetCalculationConfig, MAX_ATTEMPTS,
};
pub use search::{
    calculate_subset_sum, find_approximate_subset, handle_last_number, leftover_indexes,
    position_of, prepare_candidates,
};
pub use similarity::{
    index_set, jaccard_ratio, pair_overlap, pairwise_overlaps, NotComputable, PairOverlap,
};
pub use sums::{checked_pool_total, pool_total_fits};
pub use tolerance::{within_tolerance, Tolerance};
