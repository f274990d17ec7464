//! A verified reward-accrual engine for liquidity-provider shares: a
//! multi-resolution interval-aggregation index answering exact
//! range-sum queries in logarithmic time, a lazy pool-level accrual
//! state machine over it, and the per-user settlement and claim
//! protocol on top.

mod errors;
mod index;
mod manager;
mod sums;

pub use errors::Error;
pub use index::max_cascade;
pub use index::record_fits;
pub use index::RewardIndex;
pub use manager::catchup_first_ok;
pub use manager::catchup_mid_data;
pub use manager::generated_active;
pub use manager::generated_catchup;
pub use manager::lemma_catchup_exact;
pub use manager::lemma_second_claim_zero;
pub use manager::lemma_settle_idempotent;
pub use manager::lemma_sync_now_unchanged;
pub use manager::per_share;
pub use manager::settle_ok;
pub use manager::settle_result;
pub use manager::settle_writes;
pub use manager::sync_data;
pub use manager::sync_is_active;
pub use manager::sync_is_lapsed;
pub use manager::sync_ok;
pub use manager::sync_values;
pub use manager::user_checkpoint;
pub use manager::user_reward;
pub use manager::users_map;
pub use manager::Manager;
pub use manager::PoolRewardConfig;
pub use manager::PoolRewardData;
pub use manager::UserRewardData;
pub use sums::sum_vals;
