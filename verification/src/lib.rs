//! A parallel best-first (A*-family) grid-search engine.
//!
//! The engine distributes the search frontier over a fixed pool of workers.
//! Each worker owns a private open/closed structure; newly generated nodes
//! are routed to their owning worker by a deterministic hash of their
//! position. Global termination is detected by comparing the counters of
//! sent and received messages at a synchronization barrier, and the best
//! goal-reaching cost found so far is kept in a shared incumbent register.
//!
//! The coordination protocol (routing, merging, incumbent updates, barrier
//! bookkeeping and termination detection) is verified here; an unverified
//! driver may run the same protocol across real threads and channels.

mod barrier;
mod config;
mod engine;
mod grid;
mod heuristics;
mod open_set;
mod router;
mod sequential;
mod structs;
mod table;

pub use barrier::{apply_signal, count_checkpoints, count_exits, released, run_signals};
pub use barrier::{lemma_retirement_unblocks, lemma_run_signals_counts, BarrierSignal, DynamicHurdle};
pub use config::{algo_name_ok, heur_for_name, heur_name_ok, string_from_heur};
pub use config::{validate_algo, validate_heuristic};
pub use engine::{apply_message, chan_ok, chan_sound, engine_sound, incumbent_sound, msg_sound};
pub use engine::{lemma_quiescence_sound, lemma_queued_update, lemma_queued_zero_all_empty};
pub use engine::{node_sound, open_sound};
pub use engine::{msg_ok, node_ok, open_ok, queued, route_message, worker_wf};
pub use engine::{engine_inv, incumbent_inv, run_search, solve};
pub use engine::{Channel, SearchReport, Worker, ROUND_LIMIT};
pub use grid::{adjacent_step, cells_ok, connects, count_grid, count_row, grid_square, is_walk};
pub use grid::{lemma_walk_extend, lemma_walk_single, passable, reachable, reachable_in};
pub use grid::{is_valid_neighbor, locate_unique, parse_dimension, parse_graph, GridError};
pub use heuristics::{distance, euclidean, expensive, heur, heuristic};
pub use heuristics::{inflated_estimate, isqrt, manhattan, non_admissible};
pub use open_set::{first_min_index, lemma_first_min_is_min, OpenSet};
pub use router::{calculate_hash, compute_recipient, lemma_primary_owner, position_hash};
pub use router::{probe_from, route_of};
pub use sequential::{a_star, closure_at, expand_neighbor_seq, frontier_ok, kpbfs_search};
pub use sequential::{node_in_grid, open_covers, table_closure, SeqReport, COST_CEILING, EXPANSION_LIMIT};
pub use structs::{Buffer, Flags, HeurType, Incumbent, Node, Point};
pub use structs::{lemma_incumbent_order_independent, lemma_min_submitted_in, min_submitted};
pub use table::{accepts, lemma_monotonic_best, merged_g, slot_g, NodeTable, Slot, SlotStatus};
