//! Low-level design problems: caches, ledgers, booking, trees and buffers,
//! each with its behaviour stated as contracts and proved.

pub mod text;
pub mod dlist;
pub mod merkle_tree;
pub mod lru_cache;
pub mod clock;
pub mod lru_ttl_cache;
pub mod lfu_cache;
pub mod ordered_sequence;
pub mod min_stack;
pub mod linked_list;
pub mod leaderboard;
pub mod delivery_settlement;
pub mod delivery_cost;
pub mod rate_limiter;
pub mod parking;
pub mod flipfit;
