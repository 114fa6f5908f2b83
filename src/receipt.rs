use vstd::prelude::*;
use crate::amount::{amount_to_bytes, be_bytes};
use crate::merkle::{merkle_pair, merkle_root_of};

verus! {

/// The logical result of a transaction that was applied.
#[derive(Clone, Copy, Debug, PartialEq, Eq, Structural)]
pub enum Status {
    Accepted,
    BalanceError,
    SolarError,
}

/// The wire tag of each status.
pub open spec fn status_tag(s: Status) -> u8 {
    match s {
        Status::Accepted => 1,
        Status::BalanceError => 2,
        Status::SolarError => 3,
    }
}

impl Status {
    /// The status as its single-byte wire form.
    pub fn to_bytes(&self) -> (r: Vec<u8>)
        ensures
            r@ == seq![status_tag(*self)],
    {
        match self {
            Status::Accepted => vec![1u8],
            Status::BalanceError => vec![2u8],
            Status::SolarError => vec![3u8],
        }
    }
}

/// The outcome of one applied transaction: the solar it consumed and its status.
#[derive(Clone, Copy, Debug, PartialEq, Eq, Structural)]
pub struct Receipt {
    pub solar_used: u128,
    pub status: Status,
}

/// The commitment to a receipt: the solar used and the status tag.
pub open spec fn receipt_root(r: Receipt) -> [u8; 32] {
    merkle_root_of(seq![be_bytes(r.solar_used as nat, 16), seq![status_tag(r.status)]])
}

impl Receipt {
    /// The commitment to this receipt.
    pub fn hash(&self) -> (r: [u8; 32])
        ensures
            r == receipt_root(*self),
    {
        merkle_pair(amount_to_bytes(self.solar_used), self.status.to_bytes())
    }
}

} // verus!
