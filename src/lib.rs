//! A client-side session for moving tokens on a chain node: a registry of
//! named chain connections, exact conversion between decimal token amounts
//! and the chain's smallest unit, and the decisions of the transfer workflow
//! (declare two wallets, grant tokens, transfer, confirm, read balances).
pub mod amount;
pub mod registry;
pub mod session;
