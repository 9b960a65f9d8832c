//! Verified accounting core of a constant-product automated-market-maker
//! trading pair and a multi-pool yield-farming ledger.
//!
//! The pair keeps two token reserves, issues liquidity shares against
//! deposits, and enforces the fee-adjusted constant-product invariant on
//! every swap.  The farming ledger keeps a set of staking pools and accrues
//! rewards per unit staked through a lazily advanced fixed-point
//! accumulator.  Token custody, access control and event delivery belong to
//! the host environment; every operation here is a pure state transition
//! from read balances and timestamps to new engine state and transfer
//! amounts, so the whole accounting core is verified.

pub mod farming;
pub mod math;
pub mod pair;
