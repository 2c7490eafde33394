//! A custodial yield ledger: deposits are split over the best venues of a
//! curated catalog, accrue rewards by whole days, and can be withdrawn or
//! claimed by their owner.

pub mod model;
pub mod allocation;
pub mod rewards;
pub mod ledger;

pub use crate::model::{
    ChainInfo, Identity, Position, ProtocolInfo, ProtocolRegistry, UserPosition,
    YieldAggregatorError,
};
pub use crate::allocation::optimize_yield_allocation;
pub use crate::rewards::{accrual_fits, calculate_rewards, pending_rewards};
pub use crate::ledger::{
    check_risk_tolerance, claim_fits, claim_rewards, deposit_funds, initialize_protocol,
    is_admin, is_owner, update_strategies, withdraw_funds,
};
