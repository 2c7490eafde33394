//! The records of the ledger and the errors its operations report.

use vstd::prelude::*;

verus! {

/// Largest risk score and risk tolerance.
pub const MAX_RISK: u8 = 10;

/// Most positions one owner can hold.
pub const MAX_POSITIONS: usize = 3;

/// The identity of an admin or an owner: thirty-two opaque bytes.
/// Two identities are the same when their bytes are.
#[derive(Clone, Copy, Debug, Default, PartialEq, Eq, Hash)]
pub struct Identity {
    pub bytes: [u8; 32],
}

impl View for Identity {
    type V = Seq<u8>;

    open spec fn view(&self) -> Seq<u8> {
        self.bytes@
    }
}

impl Identity {
    /// The identity with the given bytes.
    pub fn new(bytes: [u8; 32]) -> (id: Identity)
        ensures
            id.bytes == bytes,
            id@ == bytes@,
    {
        Identity { bytes }
    }

    /// Whether two identities hold the same bytes.
    pub fn same_as(&self, other: &Identity) -> (same: bool)
        ensures
            same == (self@ == other@),
    {
        let mut i: usize = 0;
        while i < 32
            invariant
                i <= 32,
                forall|k: int| 0 <= k < i ==> self.bytes@[k] == other.bytes@[k],
            decreases 32 - i,
        {
            if self.bytes[i] != other.bytes[i] {
                return false;
            }
            i += 1;
        }
        assert(self@ =~= other@);
        true
    }
}

/// Funds placed into one venue, with their accrual bookkeeping.
#[derive(Clone, Copy, Debug, Default, PartialEq, Eq, Structural)]
pub struct Position {
    pub chain_id: u32,
    pub protocol_id: u32,
    pub amount: u64,
    pub start_time: i64,
    pub reward_accrued: u64,
}

/// A chain that venues live on.
#[derive(Clone, Debug, Default, PartialEq, Eq)]
pub struct ChainInfo {
    pub chain_id: u32,
    pub bridge_address: String,
    pub gas_token: String,
}

/// A yield-bearing venue. `apy` is in basis points, `risk_score` runs from 0 to 10.
#[derive(Clone, Debug, Default, PartialEq, Eq)]
pub struct ProtocolInfo {
    pub protocol_id: u32,
    pub name: String,
    pub chain_id: u32,
    pub apy: u32,
    pub risk_score: u8,
}

/// The catalog of supported chains and venues, and the admin who may change it.
#[derive(Clone, Debug, Default, PartialEq, Eq)]
pub struct ProtocolRegistry {
    pub admin: Identity,
    pub supported_chains: Vec<ChainInfo>,
    pub supported_protocols: Vec<ProtocolInfo>,
    pub bump: u8,
}

/// What one owner has deposited, where it is placed and what was claimed.
#[derive(Clone, Debug, Default, PartialEq, Eq)]
pub struct UserPosition {
    pub owner: Identity,
    pub deposited_amount: u64,
    pub claimed_rewards: u64,
    pub positions: Vec<Position>,
    pub bump: u8,
}

impl UserPosition {
    /// The bound on open positions: never more than three, and at least one
    /// while any principal is recorded.
    pub open spec fn well_formed(&self) -> bool {
        &&& self.positions@.len() <= MAX_POSITIONS
        &&& self.deposited_amount > 0 ==> self.positions@.len() >= 1
    }
}

/// Why an operation was refused.
#[derive(Clone, Copy, Debug, PartialEq, Eq, Structural)]
pub enum YieldAggregatorError {
    Unauthorized,
    InsufficientFunds,
    InvalidRiskTolerance,
    NoSuitableProtocols,
}

impl YieldAggregatorError {
    /// The text of each error, as a sequence of characters.
    pub open spec fn message_text(self) -> Seq<char> {
        match self {
            YieldAggregatorError::Unauthorized => "Unauthorized access"@,
            YieldAggregatorError::InsufficientFunds => "Insufficient funds"@,
            YieldAggregatorError::InvalidRiskTolerance => "Invalid risk tolerance value (0-10)"@,
            YieldAggregatorError::NoSuitableProtocols => "No suitable protocols found"@,
        }
    }

    /// The text shown for this error.
    pub fn message(&self) -> (text: &'static str)
        ensures
            text@ == self.message_text(),
    {
        match self {
            YieldAggregatorError::Unauthorized => "Unauthorized access",
            YieldAggregatorError::InsufficientFunds => "Insufficient funds",
            YieldAggregatorError::InvalidRiskTolerance => "Invalid risk tolerance value (0-10)",
            YieldAggregatorError::NoSuitableProtocols => "No suitable protocols found",
        }
    }
}

} // verus!
