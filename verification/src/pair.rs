//! Constant-product pair engine: reserve, liquidity-share, protocol-fee and
//! price-oracle accounting for one traded token pair.
//!
//! The engine never moves tokens itself.  Every operation takes the pair's
//! actual token balances (as read by the host after any transfers) and the
//! current timestamp, and returns the amounts the host must transfer
//! together with the event to emit.  On an error the state is unchanged.

use vstd::prelude::*;
use vstd::arithmetic::div_mod::{
    lemma_div_is_ordered, lemma_fundamental_div_mod, lemma_multiply_divide_le,
    lemma_multiply_divide_lt,
};
use crate::math::{
    HALF_WORD,
    floor_sqrt, integer_sqrt, is_floor_sqrt, min_int, min_u128, mul_wide, wide_geq,
};

verus! {

/// Liquidity shares locked forever on the first mint.
pub const MINIMUM_LIQUIDITY: u128 = 1000;

/// Largest token balance the engine accepts: the trading-fee arithmetic
/// scales balances by 1000, which must stay inside a 128-bit word.
pub const MAX_BALANCE: u128 = u128::MAX / 1000;

/// Fixed-point scale of the spot-price ratio in the cumulative-price
/// accumulator (64 fractional bits).
pub const PRICE_SCALE: u128 = 0x1_0000_0000_0000_0000;

/// Why a pair operation was rejected; the whole call is discarded.
#[derive(Clone, Copy, Debug, PartialEq, Eq, Structural)]
pub enum PairError {
    /// First deposit too small: the computed share amount is not positive.
    InsufficientInitialLiquidity,
    /// A later deposit mints zero shares.
    InsufficientLiquidityMinted,
    /// Burning the given shares pays out zero of one of the tokens.
    InsufficientLiquidityBurned,
    /// Both requested swap outputs are zero.
    InsufficientOutputAmount,
    /// Both net swap inputs are zero.
    InsufficientInputAmount,
    /// A requested swap output exceeds the corresponding reserve.
    InsufficientLiquidity,
    /// The fee-adjusted product fell below the pre-trade product.
    KInvariantViolation,
    /// The swap recipient is one of the pair's own tokens.
    InvalidRecipient,
}

/// A completed first or later liquidity deposit.
#[derive(Clone, Copy, Debug, PartialEq, Eq, Structural)]
pub struct Mint {
    pub sender: u128,
    pub amount_0: u128,
    pub amount_1: u128,
}

/// A completed liquidity withdrawal.
#[derive(Clone, Copy, Debug, PartialEq, Eq, Structural)]
pub struct Burn {
    pub sender: u128,
    pub amount_0: u128,
    pub amount_1: u128,
    pub to: u128,
}

/// A completed trade.
#[derive(Clone, Copy, Debug, PartialEq, Eq, Structural)]
pub struct Swap {
    pub sender: u128,
    pub amount_0_in: u128,
    pub amount_1_in: u128,
    pub amount_0_out: u128,
    pub amount_1_out: u128,
    pub to: u128,
}

/// Reserve, share, fee and oracle state of one traded pair.
#[derive(Clone, Copy, Debug, PartialEq, Eq, Structural)]
pub struct PairContract {
    /// Identity of the first pooled token.
    pub token_0: u128,
    /// Identity of the second pooled token.
    pub token_1: u128,
    /// Last-synced balance of `token_0` held by the pair.
    pub reserve_0: u128,
    /// Last-synced balance of `token_1` held by the pair.
    pub reserve_1: u128,
    /// Total outstanding liquidity-share supply.
    pub total_shares: u128,
    /// `reserve_0 * reserve_1` right after the most recent fee-mint event;
    /// zero while the protocol fee is disabled.
    pub k_last: u128,
    /// Time-weighted cumulative spot price of `token_0` in `token_1`.
    pub price_0_cumulative_last: u128,
    /// Time-weighted cumulative spot price of `token_1` in `token_0`.
    pub price_1_cumulative_last: u128,
    /// Timestamp of the last accumulator update.
    pub block_timestamp_last: u64,
    /// Whether the protocol-fee dilution is enabled.
    pub fee_on: bool,
}

impl PairContract {
    /// Structural well-formedness, established by `new` and preserved by
    /// every operation.
    pub open spec fn wf(self) -> bool {
        &&& self.reserve_0 <= MAX_BALANCE
        &&& self.reserve_1 <= MAX_BALANCE
        &&& (self.total_shares == 0 ==> self.k_last == 0)
        &&& (self.total_shares != 0 ==> self.total_shares >= MINIMUM_LIQUIDITY && self.reserve_0
            > 0 && self.reserve_1 > 0)
        &&& (self.k_last != 0 ==> self.k_last <= self.reserve_0 * self.reserve_1)
    }

    /// Whether a call at time `now` advances the price accumulator.
    pub open spec fn price_update_applies(self, now: u64) -> bool {
        now > self.block_timestamp_last && self.reserve_0 > 0 && self.reserve_1 > 0
    }

    /// `price_0_cumulative_last` after an accumulator update at `now`.
    pub open spec fn new_price_0(self, now: u64) -> int {
        if self.price_update_applies(now) {
            self.price_0_cumulative_last + (self.reserve_1 * PRICE_SCALE / (self.reserve_0 as int))
                * (now - self.block_timestamp_last)
        } else {
            self.price_0_cumulative_last as int
        }
    }

    /// `price_1_cumulative_last` after an accumulator update at `now`.
    pub open spec fn new_price_1(self, now: u64) -> int {
        if self.price_update_applies(now) {
            self.price_1_cumulative_last + (self.reserve_0 * PRICE_SCALE / (self.reserve_1 as int))
                * (now - self.block_timestamp_last)
        } else {
            self.price_1_cumulative_last as int
        }
    }

    /// Machine limit: the accumulator update at `now` stays inside 128-bit
    /// words.
    pub open spec fn price_update_fits(self, now: u64) -> bool {
        self.price_update_applies(now) ==> {
            &&& self.reserve_1 * PRICE_SCALE <= u128::MAX
            &&& self.reserve_0 * PRICE_SCALE <= u128::MAX
            &&& self.new_price_0(now) <= u128::MAX
            &&& self.new_price_1(now) <= u128::MAX
        }
    }

    /// Shares minted to the protocol-fee recipient for the growth of
    /// `sqrt(reserve_0 * reserve_1)` since `k_last`: a sixth of the growth,
    /// as `total * (rk - rk_last) / (5 * rk + rk_last)`.
    pub open spec fn spec_protocol_fee(self) -> int {
        if self.fee_on && self.k_last != 0 {
            let rk = floor_sqrt(self.reserve_0 * self.reserve_1);
            let rkl = floor_sqrt(self.k_last as int);
            if rk > rkl {
                self.total_shares * (rk - rkl) / (5 * rk + rkl)
            } else {
                0
            }
        } else {
            0
        }
    }

    /// Machine limit: the protocol-fee computation stays inside 128-bit
    /// words.
    pub open spec fn fee_fits(self) -> bool {
        self.fee_on && self.k_last != 0 ==> {
            &&& self.reserve_0 * self.reserve_1 <= u128::MAX
            &&& (floor_sqrt(self.reserve_0 * self.reserve_1) > floor_sqrt(self.k_last as int)
                ==> self.total_shares * (floor_sqrt(self.reserve_0 * self.reserve_1) - floor_sqrt(
                self.k_last as int)) <= u128::MAX)
        }
    }

    /// A fresh pair: no reserves, no shares, accumulators at zero.
    pub fn new(token_0: u128, token_1: u128, fee_on: bool) -> (r: PairContract)
        ensures
            r.wf(),
            r.token_0 == token_0,
            r.token_1 == token_1,
            r.fee_on == fee_on,
            r.reserve_0 == 0,
            r.reserve_1 == 0,
            r.total_shares == 0,
            r.k_last == 0,
            r.price_0_cumulative_last == 0,
            r.price_1_cumulative_last == 0,
            r.block_timestamp_last == 0,
    {
        PairContract {
            token_0,
            token_1,
            reserve_0: 0,
            reserve_1: 0,
            total_shares: 0,
            k_last: 0,
            price_0_cumulative_last: 0,
            price_1_cumulative_last: 0,
            block_timestamp_last: 0,
            fee_on,
        }
    }

    /// Advances the time-weighted price accumulators by the spot price of
    /// the current reserves times the elapsed time; both accumulators are
    /// non-decreasing.
    fn update_accumulator(&mut self, now: u64)
        requires
            now >= old(self).block_timestamp_last,
            old(self).price_update_fits(now),
        ensures
            final(self).price_0_cumulative_last == old(self).new_price_0(now),
            final(self).price_1_cumulative_last == old(self).new_price_1(now),
            final(self).block_timestamp_last == now,
            final(self).price_0_cumulative_last >= old(self).price_0_cumulative_last,
            final(self).price_1_cumulative_last >= old(self).price_1_cumulative_last,
            final(self).token_0 == old(self).token_0,
            final(self).token_1 == old(self).token_1,
            final(self).reserve_0 == old(self).reserve_0,
            final(self).reserve_1 == old(self).reserve_1,
            final(self).total_shares == old(self).total_shares,
            final(self).k_last == old(self).k_last,
            final(self).fee_on == old(self).fee_on,
    {
        let elapsed: u64 = now - self.block_timestamp_last;
        if elapsed > 0 && self.reserve_0 > 0 && self.reserve_1 > 0 {
            let ratio_0: u128 = self.reserve_1 * PRICE_SCALE / self.reserve_0;
            let ratio_1: u128 = self.reserve_0 * PRICE_SCALE / self.reserve_1;
            proof {
                assert(ratio_0 * elapsed >= 0);
                assert(self.price_0_cumulative_last + ratio_0 * elapsed <= u128::MAX);
                assert(self.price_1_cumulative_last + ratio_1 * elapsed <= u128::MAX);
            }
            self.price_0_cumulative_last = self.price_0_cumulative_last + ratio_0 * (
            elapsed as u128);
            self.price_1_cumulative_last = self.price_1_cumulative_last + ratio_1 * (
            elapsed as u128);
        }
        self.block_timestamp_last = now;
    }

    /// Shares owed to the protocol-fee recipient for reserve-product growth
    /// since `k_last`; zero while the fee is disabled or before any mint.
    fn protocol_fee_shares(&self) -> (f: u128)
        requires
            self.wf(),
            self.fee_fits(),
        ensures
            f == self.spec_protocol_fee(),
    {
        if self.fee_on && self.k_last != 0 {
            let k: u128 = self.reserve_0 * self.reserve_1;
            let rk: u128 = integer_sqrt(k);
            let rkl: u128 = integer_sqrt(self.k_last);
            proof {
                assert(rk < HALF_WORD && rkl < HALF_WORD) by (nonlinear_arith)
                    requires
                        is_floor_sqrt(rk as int, k as int),
                        is_floor_sqrt(rkl as int, self.k_last as int),
                        k <= u128::MAX,
                        self.k_last <= u128::MAX,
                        HALF_WORD == 0x1_0000_0000_0000_0000,
                ;
            }
            if rk > rkl {
                let num: u128 = self.total_shares * (rk - rkl);
                let den: u128 = 5 * rk + rkl;
                num / den
            } else {
                0
            }
        } else {
            0
        }
    }

    /// Share supply after the protocol-fee mint that precedes a deposit or
    /// withdrawal.
    pub open spec fn spec_total_after_fee(self) -> int {
        self.total_shares + self.spec_protocol_fee()
    }

    /// Shares minted for the deposit that raised the balances to
    /// `(balance_0, balance_1)`: on the first deposit the square root of
    /// the deposited product less the locked minimum, afterwards the
    /// smaller of the two deposit ratios against the post-fee supply.
    pub open spec fn spec_mint_liquidity(self, balance_0: u128, balance_1: u128) -> int {
        let a0 = balance_0 - self.reserve_0;
        let a1 = balance_1 - self.reserve_1;
        if self.total_shares == 0 {
            floor_sqrt(a0 * a1) - MINIMUM_LIQUIDITY
        } else {
            min_int(
                a0 * self.spec_total_after_fee() / (self.reserve_0 as int),
                a1 * self.spec_total_after_fee() / (self.reserve_1 as int),
            )
        }
    }

    /// Machine limit: the share arithmetic of `mint` stays inside 128-bit
    /// words.
    pub open spec fn mint_fits(self, balance_0: u128, balance_1: u128) -> bool {
        let a0 = balance_0 - self.reserve_0;
        let a1 = balance_1 - self.reserve_1;
        let tf = self.spec_total_after_fee();
        &&& self.fee_fits()
        &&& (self.total_shares == 0 ==> a0 * a1 <= u128::MAX)
        &&& (self.total_shares != 0 ==> {
            &&& tf <= u128::MAX
            &&& a0 * tf <= u128::MAX
            &&& a1 * tf <= u128::MAX
            &&& tf + self.spec_mint_liquidity(balance_0, balance_1) <= u128::MAX
        })
        &&& (self.fee_on ==> balance_0 * balance_1 <= u128::MAX)
    }

    /// Records a liquidity deposit: the host has already transferred the
    /// deposited tokens in, so the read balances exceed the stored reserves
    /// by the deposited amounts.  Returns the shares minted to the
    /// depositor, the shares minted to the protocol-fee recipient, and the
    /// event to emit.  On the first deposit `MINIMUM_LIQUIDITY` shares are
    /// locked forever, so the supply never returns to zero.
    pub fn mint(&mut self, sender: u128, balance_0: u128, balance_1: u128, now: u64) -> (r: Result<
        (u128, u128, Mint),
        PairError,
    >)
        requires
            old(self).wf(),
            balance_0 >= old(self).reserve_0,
            balance_1 >= old(self).reserve_1,
            balance_0 <= MAX_BALANCE,
            balance_1 <= MAX_BALANCE,
            now >= old(self).block_timestamp_last,
            old(self).price_update_fits(now),
            old(self).mint_fits(balance_0, balance_1),
        ensures
            final(self).wf(),
            (r is Err) ==> *final(self) == *old(self),
            (r is Err) <==> (if old(self).total_shares == 0 {
                floor_sqrt(
                    (balance_0 - old(self).reserve_0) * (balance_1 - old(self).reserve_1),
                ) <= MINIMUM_LIQUIDITY
            } else {
                old(self).spec_mint_liquidity(balance_0, balance_1) == 0
            }),
            (r is Err) ==> r->Err_0 == (if old(self).total_shares == 0 {
                PairError::InsufficientInitialLiquidity
            } else {
                PairError::InsufficientLiquidityMinted
            }),
            (r is Ok) ==> ({
                let liq = r->Ok_0.0;
                let fee = r->Ok_0.1;
                let ev = r->Ok_0.2;
                &&& liq == old(self).spec_mint_liquidity(balance_0, balance_1)
                &&& fee == old(self).spec_protocol_fee()
                &&& ev == (Mint {
                    sender,
                    amount_0: (balance_0 - old(self).reserve_0) as u128,
                    amount_1: (balance_1 - old(self).reserve_1) as u128,
                })
                &&& final(self).total_shares == old(self).spec_total_after_fee() + liq + (if old(
                    self,
                ).total_shares == 0 {
                    MINIMUM_LIQUIDITY as int
                } else {
                    0
                })
                &&& final(self).total_shares >= MINIMUM_LIQUIDITY
                &&& final(self).reserve_0 == balance_0
                &&& final(self).reserve_1 == balance_1
                &&& final(self).k_last == (if old(self).fee_on {
                    balance_0 * balance_1
                } else {
                    0
                })
                &&& final(self).price_0_cumulative_last == old(self).new_price_0(now)
                &&& final(self).price_1_cumulative_last == old(self).new_price_1(now)
                &&& final(self).block_timestamp_last == now
                &&& final(self).token_0 == old(self).token_0
                &&& final(self).token_1 == old(self).token_1
                &&& final(self).fee_on == old(self).fee_on
            }),
    {
        let amount_0: u128 = balance_0 - self.reserve_0;
        let amount_1: u128 = balance_1 - self.reserve_1;
        let fee: u128 = self.protocol_fee_shares();
        proof {
            if self.total_shares == 0 {
                assert(fee == 0);
            }
        }
        let total_after_fee: u128 = self.total_shares + fee;
        let first: bool = self.total_shares == 0;
        let liquidity: u128;
        if first {
            let root: u128 = integer_sqrt(amount_0 * amount_1);
            if root <= MINIMUM_LIQUIDITY {
                return Err(PairError::InsufficientInitialLiquidity);
            }
            liquidity = root - MINIMUM_LIQUIDITY;
            proof {
                assert(amount_0 >= 1 && amount_1 >= 1) by (nonlinear_arith)
                    requires
                        is_floor_sqrt(root as int, (amount_0 * amount_1) as int),
                        root > 1000,
                        amount_0 >= 0,
                        amount_1 >= 0,
                ;
            }
        } else {
            let l0: u128 = amount_0 * total_after_fee / self.reserve_0;
            let l1: u128 = amount_1 * total_after_fee / self.reserve_1;
            liquidity = min_u128(l0, l1);
            if liquidity == 0 {
                return Err(PairError::InsufficientLiquidityMinted);
            }
        }
        self.update_accumulator(now);
        if first {
            self.total_shares = liquidity + MINIMUM_LIQUIDITY;
        } else {
            self.total_shares = total_after_fee + liquidity;
        }
        self.reserve_0 = balance_0;
        self.reserve_1 = balance_1;
        if self.fee_on {
            self.k_last = balance_0 * balance_1;
        } else {
            self.k_last = 0;
        }
        Ok((liquidity, fee, Mint { sender, amount_0, amount_1 }))
    }

    /// Token payout for burning `liquidity` shares against the actual
    /// balance `balance_0`: the shares' proportional claim, rounded down.
    pub open spec fn spec_burn_amount_0(self, liquidity: u128, balance_0: u128) -> int {
        liquidity * balance_0 / (self.total_shares as int)
    }

    /// Token payout for burning `liquidity` shares against the actual
    /// balance `balance_1`.
    pub open spec fn spec_burn_amount_1(self, liquidity: u128, balance_1: u128) -> int {
        liquidity * balance_1 / (self.total_shares as int)
    }

    /// Machine limit: the share arithmetic of `burn` stays inside 128-bit
    /// words.
    pub open spec fn burn_fits(self, liquidity: u128, balance_0: u128, balance_1: u128) -> bool {
        &&& self.fee_fits()
        &&& liquidity * balance_0 <= u128::MAX
        &&& liquidity * balance_1 <= u128::MAX
        &&& self.total_shares - liquidity + self.spec_protocol_fee() <= u128::MAX
        &&& (self.fee_on ==> balance_0 * balance_1 <= u128::MAX)
    }

    /// Records a liquidity withdrawal: the caller has pre-transferred
    /// `liquidity` shares to the pair, which are burned against the actual
    /// balances, so stray direct transfers are captured by the payout.
    /// Returns the two payout amounts the host must transfer to `to`, the
    /// shares minted to the protocol-fee recipient, and the event to emit.
    /// The locked `MINIMUM_LIQUIDITY` shares can never be redeemed, so the
    /// supply stays above the locked floor.
    pub fn burn(
        &mut self,
        sender: u128,
        to: u128,
        liquidity: u128,
        balance_0: u128,
        balance_1: u128,
        now: u64,
    ) -> (r: Result<(u128, u128, u128, Burn), PairError>)
        requires
            old(self).wf(),
            liquidity + MINIMUM_LIQUIDITY <= old(self).total_shares,
            balance_0 >= old(self).reserve_0,
            balance_1 >= old(self).reserve_1,
            balance_0 <= MAX_BALANCE,
            balance_1 <= MAX_BALANCE,
            now >= old(self).block_timestamp_last,
            old(self).price_update_fits(now),
            old(self).burn_fits(liquidity, balance_0, balance_1),
        ensures
            final(self).wf(),
            (r is Err) ==> *final(self) == *old(self),
            (r is Err) <==> (old(self).spec_burn_amount_0(liquidity, balance_0) == 0 || old(
                self,
            ).spec_burn_amount_1(liquidity, balance_1) == 0),
            (r is Err) ==> r->Err_0 == PairError::InsufficientLiquidityBurned,
            (r is Ok) ==> ({
                let a0 = r->Ok_0.0;
                let a1 = r->Ok_0.1;
                let fee = r->Ok_0.2;
                let ev = r->Ok_0.3;
                &&& a0 == old(self).spec_burn_amount_0(liquidity, balance_0)
                &&& a1 == old(self).spec_burn_amount_1(liquidity, balance_1)
                &&& 0 < a0 < balance_0
                &&& 0 < a1 < balance_1
                &&& fee == old(self).spec_protocol_fee()
                &&& ev == (Burn { sender, amount_0: a0 as u128, amount_1: a1 as u128, to })
                &&& final(self).total_shares == old(self).total_shares - liquidity + fee
                &&& final(self).total_shares >= MINIMUM_LIQUIDITY
                &&& final(self).reserve_0 == balance_0 - a0
                &&& final(self).reserve_1 == balance_1 - a1
                &&& final(self).k_last == (if old(self).fee_on {
                    (balance_0 - a0) * (balance_1 - a1)
                } else {
                    0
                })
                &&& final(self).price_0_cumulative_last == old(self).new_price_0(now)
                &&& final(self).price_1_cumulative_last == old(self).new_price_1(now)
                &&& final(self).block_timestamp_last == now
                &&& final(self).token_0 == old(self).token_0
                &&& final(self).token_1 == old(self).token_1
                &&& final(self).fee_on == old(self).fee_on
            }),
    {
        let amount_0: u128 = liquidity * balance_0 / self.total_shares;
        let amount_1: u128 = liquidity * balance_1 / self.total_shares;
        if amount_0 == 0 || amount_1 == 0 {
            return Err(PairError::InsufficientLiquidityBurned);
        }
        proof {
            assert(((liquidity * balance_0) as int) < (self.total_shares as int) * (
            balance_0 as int)) by (nonlinear_arith)
                requires
                    liquidity < self.total_shares,
                    balance_0 > 0,
            ;
            lemma_multiply_divide_lt(
                (liquidity * balance_0) as int,
                self.total_shares as int,
                balance_0 as int,
            );
            assert(((liquidity * balance_1) as int) < (self.total_shares as int) * (
            balance_1 as int)) by (nonlinear_arith)
                requires
                    liquidity < self.total_shares,
                    balance_1 > 0,
            ;
            lemma_multiply_divide_lt(
                (liquidity * balance_1) as int,
                self.total_shares as int,
                balance_1 as int,
            );
        }
        let fee: u128 = self.protocol_fee_shares();
        self.update_accumulator(now);
        self.total_shares = self.total_shares - liquidity + fee;
        self.reserve_0 = balance_0 - amount_0;
        self.reserve_1 = balance_1 - amount_1;
        if self.fee_on {
            proof {
                assert(self.reserve_0 * self.reserve_1 <= balance_0 * balance_1)
                    by (nonlinear_arith)
                    requires
                        0 <= self.reserve_0 <= balance_0,
                        0 <= self.reserve_1 <= balance_1,
                ;
            }
            self.k_last = self.reserve_0 * self.reserve_1;
        } else {
            self.k_last = 0;
        }
        Ok((amount_0, amount_1, fee, Burn { sender, amount_0, amount_1, to }))
    }

    /// Net amount of one token paid into the pair during a swap: how far
    /// the read balance exceeds what the optimistic payout left behind.
    pub open spec fn spec_swap_in(balance: int, reserve: int, amount_out: int) -> int {
        if balance > reserve - amount_out {
            balance - (reserve - amount_out)
        } else {
            0
        }
    }

    /// The fee-adjusted constant-product check: each net input pays a 0.3%
    /// trading fee, and the fee-adjusted product of the post-trade balances
    /// must not fall below the pre-trade reserve product.
    pub open spec fn spec_k_ok(
        balance_0: int,
        balance_1: int,
        in_0: int,
        in_1: int,
        reserve_0: int,
        reserve_1: int,
    ) -> bool {
        (balance_0 * 1000 - in_0 * 3) * (balance_1 * 1000 - in_1 * 3) >= (reserve_0 * 1000) * (
        reserve_1 * 1000)
    }

    /// The error a swap request is rejected with, in checking order, or
    /// `None` when it succeeds.
    pub open spec fn spec_swap_err(
        self,
        amount_0_out: u128,
        amount_1_out: u128,
        balance_0: u128,
        balance_1: u128,
        to: u128,
    ) -> Option<PairError> {
        let in_0 = Self::spec_swap_in(balance_0 as int, self.reserve_0 as int, amount_0_out as int);
        let in_1 = Self::spec_swap_in(balance_1 as int, self.reserve_1 as int, amount_1_out as int);
        if amount_0_out == 0 && amount_1_out == 0 {
            Some(PairError::InsufficientOutputAmount)
        } else if amount_0_out > self.reserve_0 || amount_1_out > self.reserve_1 {
            Some(PairError::InsufficientLiquidity)
        } else if to == self.token_0 || to == self.token_1 {
            Some(PairError::InvalidRecipient)
        } else if in_0 == 0 && in_1 == 0 {
            Some(PairError::InsufficientInputAmount)
        } else if !Self::spec_k_ok(
            balance_0 as int,
            balance_1 as int,
            in_0,
            in_1,
            self.reserve_0 as int,
            self.reserve_1 as int,
        ) {
            Some(PairError::KInvariantViolation)
        } else {
            None
        }
    }

    /// The checks a swap request passes before any optimistic payout: the
    /// host calls this, transfers the outputs, lets the recipient repay,
    /// then reads the balances and calls `swap`, which repeats these checks.
    pub fn validate_swap_outputs(&self, amount_0_out: u128, amount_1_out: u128, to: u128) -> (r:
        Result<(), PairError>)
        ensures
            (r is Err && r->Err_0 == PairError::InsufficientOutputAmount) <==> (amount_0_out == 0
                && amount_1_out == 0),
            (r is Err && r->Err_0 == PairError::InsufficientLiquidity) <==> (!(amount_0_out == 0
                && amount_1_out == 0) && (amount_0_out > self.reserve_0 || amount_1_out
                > self.reserve_1)),
            (r is Err && r->Err_0 == PairError::InvalidRecipient) <==> (!(amount_0_out == 0
                && amount_1_out == 0) && !(amount_0_out > self.reserve_0 || amount_1_out
                > self.reserve_1) && (to == self.token_0 || to == self.token_1)),
            (r is Ok) <==> (!(amount_0_out == 0 && amount_1_out == 0) && !(amount_0_out
                > self.reserve_0 || amount_1_out > self.reserve_1) && !(to == self.token_0 || to
                == self.token_1)),
    {
        if amount_0_out == 0 && amount_1_out == 0 {
            Err(PairError::InsufficientOutputAmount)
        } else if amount_0_out > self.reserve_0 || amount_1_out > self.reserve_1 {
            Err(PairError::InsufficientLiquidity)
        } else if to == self.token_0 || to == self.token_1 {
            Err(PairError::InvalidRecipient)
        } else {
            Ok(())
        }
    }

    /// Settles a swap after the optimistic payout: `balance_0`/`balance_1`
    /// are the balances read after the outputs left and after any repayment
    /// by the recipient came back.  Rejects the trade unless the
    /// fee-adjusted product check holds; on success the reserves are synced
    /// to the balances, so the reserve product never decreases.
    pub fn swap(
        &mut self,
        sender: u128,
        amount_0_out: u128,
        amount_1_out: u128,
        balance_0: u128,
        balance_1: u128,
        to: u128,
        now: u64,
    ) -> (r: Result<Swap, PairError>)
        requires
            old(self).wf(),
            balance_0 <= MAX_BALANCE,
            balance_1 <= MAX_BALANCE,
            now >= old(self).block_timestamp_last,
            old(self).price_update_fits(now),
        ensures
            final(self).wf(),
            (r is Err) ==> *final(self) == *old(self),
            (r is Err) <==> (old(self).spec_swap_err(
                amount_0_out,
                amount_1_out,
                balance_0,
                balance_1,
                to,
            ) is Some),
            (r is Err) ==> Some(r->Err_0) == old(self).spec_swap_err(
                amount_0_out,
                amount_1_out,
                balance_0,
                balance_1,
                to,
            ),
            (r is Ok) ==> ({
                let in_0 = Self::spec_swap_in(
                    balance_0 as int,
                    old(self).reserve_0 as int,
                    amount_0_out as int,
                );
                let in_1 = Self::spec_swap_in(
                    balance_1 as int,
                    old(self).reserve_1 as int,
                    amount_1_out as int,
                );
                &&& Self::spec_k_ok(
                    balance_0 as int,
                    balance_1 as int,
                    in_0,
                    in_1,
                    old(self).reserve_0 as int,
                    old(self).reserve_1 as int,
                )
                &&& final(self).reserve_0 == balance_0
                &&& final(self).reserve_1 == balance_1
                &&& final(self).reserve_0 * final(self).reserve_1 >= old(self).reserve_0 * old(
                    self,
                ).reserve_1
                &&& final(self).total_shares == old(self).total_shares
                &&& final(self).k_last == old(self).k_last
                &&& final(self).price_0_cumulative_last == old(self).new_price_0(now)
                &&& final(self).price_1_cumulative_last == old(self).new_price_1(now)
                &&& final(self).block_timestamp_last == now
                &&& final(self).token_0 == old(self).token_0
                &&& final(self).token_1 == old(self).token_1
                &&& final(self).fee_on == old(self).fee_on
                &&& r->Ok_0 == (Swap {
                    sender,
                    amount_0_in: in_0 as u128,
                    amount_1_in: in_1 as u128,
                    amount_0_out,
                    amount_1_out,
                    to,
                })
            }),
    {
        if amount_0_out == 0 && amount_1_out == 0 {
            return Err(PairError::InsufficientOutputAmount);
        }
        if amount_0_out > self.reserve_0 || amount_1_out > self.reserve_1 {
            return Err(PairError::InsufficientLiquidity);
        }
        if to == self.token_0 || to == self.token_1 {
            return Err(PairError::InvalidRecipient);
        }
        let hole_0: u128 = self.reserve_0 - amount_0_out;
        let hole_1: u128 = self.reserve_1 - amount_1_out;
        let in_0: u128 = if balance_0 > hole_0 {
            balance_0 - hole_0
        } else {
            0
        };
        let in_1: u128 = if balance_1 > hole_1 {
            balance_1 - hole_1
        } else {
            0
        };
        if in_0 == 0 && in_1 == 0 {
            return Err(PairError::InsufficientInputAmount);
        }
        proof {
            assert(balance_0 * 1000 <= u128::MAX && balance_1 * 1000 <= u128::MAX && self.reserve_0
                * 1000 <= u128::MAX && self.reserve_1 * 1000 <= u128::MAX);
        }
        let adjusted_0: u128 = balance_0 * 1000 - in_0 * 3;
        let adjusted_1: u128 = balance_1 * 1000 - in_1 * 3;
        let lhs: (u128, u128) = mul_wide(adjusted_0, adjusted_1);
        let rhs: (u128, u128) = mul_wide(self.reserve_0 * 1000, self.reserve_1 * 1000);
        if !wide_geq(lhs, rhs) {
            return Err(PairError::KInvariantViolation);
        }
        proof {
            lemma_swap_preserves_k(
                balance_0 as int,
                balance_1 as int,
                in_0 as int,
                in_1 as int,
                self.reserve_0 as int,
                self.reserve_1 as int,
            );
        }
        self.update_accumulator(now);
        self.reserve_0 = balance_0;
        self.reserve_1 = balance_1;
        Ok(Swap { sender, amount_0_in: in_0, amount_1_in: in_1, amount_0_out, amount_1_out, to })
    }

    /// Force-resets stored reserves to the actual token balances without
    /// any transfer; the recovery path for balances that drifted upward via
    /// direct transfers.
    pub fn sync(&mut self, balance_0: u128, balance_1: u128)
        requires
            old(self).wf(),
            balance_0 >= old(self).reserve_0,
            balance_1 >= old(self).reserve_1,
            balance_0 <= MAX_BALANCE,
            balance_1 <= MAX_BALANCE,
        ensures
            final(self).wf(),
            final(self).reserve_0 == balance_0,
            final(self).reserve_1 == balance_1,
            *final(self) == (PairContract { reserve_0: balance_0, reserve_1: balance_1, ..*old(
                self) }),
    {
        proof {
            assert(self.reserve_0 * self.reserve_1 <= balance_0 * balance_1) by (nonlinear_arith)
                requires
                    self.reserve_0 <= balance_0,
                    self.reserve_1 <= balance_1,
                    0 <= self.reserve_0,
                    0 <= self.reserve_1,
            ;
        }
        self.reserve_0 = balance_0;
        self.reserve_1 = balance_1;
    }

    /// The stored reserves and the timestamp of their last oracle update.
    pub fn get_reserves(&self) -> (r: (u128, u128, u64))
        ensures
            r == (self.reserve_0, self.reserve_1, self.block_timestamp_last),
    {
        (self.reserve_0, self.reserve_1, self.block_timestamp_last)
    }

    /// The amounts by which the actual balances exceed the stored reserves:
    /// what `skim` would pay out to recover from upward drift.  The state
    /// itself is untouched; the host transfers the returned amounts.
    pub fn skim(&self, balance_0: u128, balance_1: u128) -> (r: (u128, u128))
        requires
            balance_0 >= self.reserve_0,
            balance_1 >= self.reserve_1,
        ensures
            r.0 == balance_0 - self.reserve_0,
            r.1 == balance_1 - self.reserve_1,
    {
        (balance_0 - self.reserve_0, balance_1 - self.reserve_1)
    }
}

/// A correctly fee-paid swap never decreases the reserve product: whenever
/// the fee-adjusted product check holds for net inputs no larger than the
/// post-trade balances, the post-trade balance product is at least the
/// pre-trade reserve product, and positive reserves stay positive.
pub proof fn lemma_swap_preserves_k(b0: int, b1: int, i0: int, i1: int, r0: int, r1: int)
    requires
        0 <= i0 <= b0,
        0 <= i1 <= b1,
        0 <= r0,
        0 <= r1,
        PairContract::spec_k_ok(b0, b1, i0, i1, r0, r1),
    ensures
        b0 * b1 >= r0 * r1,
        r0 > 0 && r1 > 0 ==> b0 > 0 && b1 > 0,
{
    assert((b0 * 1000 - i0 * 3) * (b1 * 1000 - i1 * 3) <= (b0 * 1000) * (b1 * 1000))
        by (nonlinear_arith)
        requires
            0 <= i0 <= b0,
            0 <= i1 <= b1,
    ;
    assert((b0 * 1000) * (b1 * 1000) == 1000000 * (b0 * b1) && (r0 * 1000) * (r1 * 1000) == 1000000
        * (r0 * r1)) by (nonlinear_arith);
    assert(1000000 * (b0 * b1) >= 1000000 * (r0 * r1));
    if r0 > 0 && r1 > 0 {
        assert((r0 * 1000) * (r1 * 1000) > 0) by (nonlinear_arith)
            requires
                r0 > 0,
                r1 > 0,
        ;
        assert((b0 * 1000 - i0 * 3) * (b1 * 1000 - i1 * 3) > 0);
        assert(b0 > 0 && b1 > 0) by (nonlinear_arith)
            requires
                (b0 * 1000 - i0 * 3) * (b1 * 1000 - i1 * 3) > 0,
                0 <= i0 <= b0,
                0 <= i1 <= b1,
        ;
    }
}

/// Burning shares never pays out more than the backing balance: the
/// proportional payout of `liq` of `total` shares against `bal` is at most
/// `bal`.
pub proof fn lemma_burn_amount_bounded(liq: int, bal: int, total: int)
    requires
        0 <= liq <= total,
        0 < total,
        0 <= bal,
    ensures
        liq * bal / total <= bal,
{
    assert(liq * bal <= total * bal) by (nonlinear_arith)
        requires
            0 <= liq <= total,
            0 <= bal,
    ;
    lemma_multiply_divide_le(liq * bal, total, bal);
}

/// Round trip of a later deposit: minting against reserves `(r0, r1)` and
/// post-fee supply `s`, then burning exactly the minted shares with no
/// mutation in between, returns at most the deposited amounts.  `liq` is
/// the minted share amount and the burn is evaluated at the post-mint
/// balances `(r0 + a0, r1 + a1)` and supply `s + liq`.
pub proof fn lemma_mint_burn_round_trip(a0: int, a1: int, s: int, r0: int, r1: int)
    requires
        0 < r0,
        0 < r1,
        0 < s,
        0 <= a0,
        0 <= a1,
    ensures
        ({
            let liq = min_int(a0 * s / r0, a1 * s / r1);
            liq * (r0 + a0) / (s + liq) <= a0 && liq * (r1 + a1) / (s + liq) <= a1
        }),
{
    let liq = min_int(a0 * s / r0, a1 * s / r1);
    assert(a0 * s >= 0 && a1 * s >= 0) by (nonlinear_arith)
        requires
            0 <= a0,
            0 <= a1,
            0 < s,
    ;
    lemma_div_is_ordered(0, a0 * s, r0);
    lemma_div_is_ordered(0, a1 * s, r1);
    assert(liq >= 0);
    lemma_round_trip_side(a0, s, r0, liq);
    lemma_round_trip_side(a1, s, r1, liq);
}

/// One side of the round-trip bound: if `liq` is at most the deposit ratio
/// `a * s / r`, burning `liq` against balance `r + a` and supply `s + liq`
/// pays out at most `a`.
pub proof fn lemma_round_trip_side(a: int, s: int, r: int, liq: int)
    requires
        0 < r,
        0 < s,
        0 <= a,
        0 <= liq,
        liq <= a * s / r,
    ensures
        liq * (r + a) / (s + liq) <= a,
{
    lemma_fundamental_div_mod(a * s, r);
    assert((a * s / r) * r <= a * s) by (nonlinear_arith)
        requires
            a * s == r * (a * s / r) + (a * s) % r,
            0 <= (a * s) % r,
    ;
    assert(liq * r <= (a * s / r) * r) by (nonlinear_arith)
        requires
            0 <= liq <= a * s / r,
            0 < r,
    ;
    assert(liq * (r + a) <= a * (s + liq)) by (nonlinear_arith)
        requires
            liq * r <= a * s,
            0 <= liq,
            0 <= a,
    ;
    lemma_multiply_divide_le(liq * (r + a), s + liq, a);
}

/// Round trip of the first deposit: the shares minted by the first deposit
/// burn back to at most the deposited amounts, because the locked
/// `MINIMUM_LIQUIDITY` shares stay outstanding.
pub proof fn lemma_first_mint_burn_round_trip(a0: int, a1: int)
    requires
        0 <= a0,
        0 <= a1,
        floor_sqrt(a0 * a1) > MINIMUM_LIQUIDITY,
    ensures
        ({
            let liq = floor_sqrt(a0 * a1) - MINIMUM_LIQUIDITY;
            let total = floor_sqrt(a0 * a1);
            liq * a0 / total <= a0 && liq * a1 / total <= a1
        }),
{
    let liq = floor_sqrt(a0 * a1) - MINIMUM_LIQUIDITY;
    let total = floor_sqrt(a0 * a1);
    lemma_burn_amount_bounded(liq, a0, total);
    lemma_burn_amount_bounded(liq, a1, total);
}

} // verus!
