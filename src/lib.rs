pub mod account;
pub mod address;
pub mod amount;
pub mod codec;
pub mod ledger;
pub mod merkle;
pub mod receipt;
