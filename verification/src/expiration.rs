use cosmwasm_std::Timestamp;
use vstd::prelude::*;

verus! {

/// The position of the chain at which a delegated right is judged.
#[derive(Clone, Copy, Debug, PartialEq, Eq, Structural)]
pub struct BlockInfo {
    /// Height of the current block.
    pub height: u64,
    /// Time of the current block, in nanoseconds since the epoch.
    pub time: u64,
}

/// The condition under which a delegated right lapses.
#[derive(Clone, Copy, Debug, PartialEq, Eq, Structural)]
pub enum Expiration {
    /// Lapses once the block height has reached the bound.
    AtHeight(u64),
    /// Lapses once the block time has reached the bound, in nanoseconds.
    AtTime(u64),
    /// Never lapses.
    Never,
}

impl Expiration {
    /// A bound has lapsed when the current value has reached it.
    pub open spec fn expired_at(self, block: BlockInfo) -> bool {
        match self {
            Expiration::AtHeight(height) => block.height >= height,
            Expiration::AtTime(time) => block.time >= time,
            Expiration::Never => false,
        }
    }

    /// Whether the bound has lapsed at `block`.
    pub fn is_expired(&self, block: &BlockInfo) -> (expired: bool)
        ensures
            expired == self.expired_at(*block),
    {
        chain_is_expired(self, block)
    }
}

/// Trusted: asks `cw_utils::Expiration::is_expired` with the bound and the
/// block written in the chain's own types, the times as nanoseconds. The
/// contract claims what that function's three arms compute: a height or
/// time bound has lapsed when the block has reached it, `Never` has not.
#[verifier::external_body]
fn chain_is_expired(expires: &Expiration, block: &BlockInfo) -> (expired: bool)
    ensures
        expired == expires.expired_at(*block),
{
    let bound = match expires {
        Expiration::AtHeight(height) => cw_utils::Expiration::AtHeight(*height),
        Expiration::AtTime(time) => cw_utils::Expiration::AtTime(Timestamp::from_nanos(*time)),
        Expiration::Never => cw_utils::Expiration::Never {},
    };
    let time = Timestamp::from_nanos(block.time);
    bound.is_expired(&cosmwasm_std::BlockInfo { height: block.height, time, chain_id: String::new() })
}

} // verus!
