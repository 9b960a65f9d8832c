//! Pair engine scenarios: first and later mints, burns, swaps at the fee
//! boundary, recovery operations and every rejection.

use amm_farming::pair::{Burn, Mint, PairContract, PairError, Swap, MINIMUM_LIQUIDITY, PRICE_SCALE};

fn fresh_pair() -> PairContract {
    PairContract::new(1, 2, false)
}

/// Empty pair, deposit 1000/4000: mint pays `2000 - MINIMUM_LIQUIDITY`
/// shares and the reserves become (1000, 4000).
#[test]
fn first_mint_scenario() {
    let mut pair = fresh_pair();
    let (liquidity, fee, event) = pair.mint(9, 1000, 4000, 0).unwrap();
    assert_eq!(liquidity, 2000 - MINIMUM_LIQUIDITY);
    assert_eq!(fee, 0);
    assert_eq!(event, Mint { sender: 9, amount_0: 1000, amount_1: 4000 });
    assert_eq!(pair.get_reserves(), (1000, 4000, 0));
    assert_eq!(pair.total_shares, 2000);
}

#[test]
fn first_mint_too_small_is_rejected() {
    let mut pair = fresh_pair();
    // sqrt(1 * 1) == 1 <= MINIMUM_LIQUIDITY
    assert_eq!(pair.mint(9, 1, 1, 0), Err(PairError::InsufficientInitialLiquidity));
    // sqrt(1000 * 1000) == 1000 is still not strictly positive after the lock
    assert_eq!(pair.mint(9, 1000, 1000, 0), Err(PairError::InsufficientInitialLiquidity));
    assert_eq!(pair.total_shares, 0);
}

#[test]
fn later_mint_takes_smaller_ratio() {
    let mut pair = fresh_pair();
    pair.mint(9, 1000, 4000, 0).unwrap();
    // a balanced deposit: both ratios are 1000
    let (liquidity, _, _) = pair.mint(9, 1500, 6000, 0).unwrap();
    assert_eq!(liquidity, 1000);
    assert_eq!(pair.total_shares, 3000);
    assert_eq!(pair.get_reserves(), (1500, 6000, 0));
}

#[test]
fn unbalanced_mint_is_diluted_to_smaller_side() {
    let mut pair = fresh_pair();
    pair.mint(9, 1000, 4000, 0).unwrap();
    // 501 of token 0 but only the ratio of token 1 counts: min(1002, 1000)
    let (liquidity, _, _) = pair.mint(9, 1501, 6000, 0).unwrap();
    assert_eq!(liquidity, 1000);
}

#[test]
fn zero_mint_is_rejected() {
    let mut pair = fresh_pair();
    pair.mint(9, 1000, 4000, 0).unwrap();
    assert_eq!(pair.mint(9, 1000, 4000, 0), Err(PairError::InsufficientLiquidityMinted));
}

/// Minting and then burning exactly the minted shares never returns more
/// than was deposited.
#[test]
fn mint_burn_round_trip_returns_no_more() {
    let mut pair = fresh_pair();
    pair.mint(9, 1000, 4000, 0).unwrap();
    let (liquidity, _, _) = pair.mint(8, 1501, 6000, 0).unwrap();
    let (amount_0, amount_1, fee, event) = pair.burn(8, 77, liquidity, 1501, 6000, 0).unwrap();
    assert!(amount_0 <= 501 && amount_1 <= 2000);
    assert_eq!((amount_0, amount_1), (500, 2000));
    assert_eq!(fee, 0);
    assert_eq!(event, Burn { sender: 8, amount_0: 500, amount_1: 2000, to: 77 });
    assert_eq!(pair.get_reserves(), (1001, 4000, 0));
    assert_eq!(pair.total_shares, 2000);
}

#[test]
fn burn_of_dust_is_rejected() {
    let mut pair = fresh_pair();
    pair.mint(9, 1000, 4000, 0).unwrap();
    // one share claims 1 * 1000 / 2000 == 0 of token 0
    assert_eq!(pair.burn(9, 77, 1, 1000, 4000, 0), Err(PairError::InsufficientLiquidityBurned));
    assert_eq!(pair.total_shares, 2000);
}

/// Reserves (1000, 4000), requesting 1000 of token 1: an input of 335 of
/// token 0 just covers the 0.3% fee; 334 falls one unit short.
#[test]
fn swap_at_fee_boundary() {
    let mut pair = fresh_pair();
    pair.mint(9, 1000, 4000, 0).unwrap();
    // one unit short of the fee: rejected, state unchanged
    let short = pair.swap(9, 0, 1000, 1000 + 334, 3000, 7, 0);
    assert_eq!(short, Err(PairError::KInvariantViolation));
    assert_eq!(pair.get_reserves(), (1000, 4000, 0));
    // exactly covering the fee: accepted
    let done = pair.swap(9, 0, 1000, 1000 + 335, 3000, 7, 0).unwrap();
    assert_eq!(
        done,
        Swap {
            sender: 9,
            amount_0_in: 335,
            amount_1_in: 0,
            amount_0_out: 0,
            amount_1_out: 1000,
            to: 7,
        }
    );
    assert_eq!(pair.get_reserves(), (1335, 3000, 0));
    // the reserve product never decreased
    assert!(1335u128 * 3000 >= 1000 * 4000);
}

#[test]
fn swap_rejections_in_checking_order() {
    let mut pair = fresh_pair();
    pair.mint(9, 1000, 4000, 0).unwrap();
    assert_eq!(pair.swap(9, 0, 0, 1000, 4000, 7, 0), Err(PairError::InsufficientOutputAmount));
    assert_eq!(pair.swap(9, 1001, 0, 1000, 4000, 7, 0), Err(PairError::InsufficientLiquidity));
    assert_eq!(pair.swap(9, 10, 0, 1000, 4000, 1, 0), Err(PairError::InvalidRecipient));
    assert_eq!(pair.swap(9, 10, 0, 1000, 4000, 2, 0), Err(PairError::InvalidRecipient));
    // outputs leave, nothing comes back: no input
    assert_eq!(pair.swap(9, 10, 0, 990, 4000, 7, 0), Err(PairError::InsufficientInputAmount));
    assert_eq!(pair.get_reserves(), (1000, 4000, 0));
}

#[test]
fn validate_swap_outputs_mirrors_the_first_checks() {
    let mut pair = fresh_pair();
    pair.mint(9, 1000, 4000, 0).unwrap();
    assert_eq!(pair.validate_swap_outputs(0, 0, 7), Err(PairError::InsufficientOutputAmount));
    assert_eq!(pair.validate_swap_outputs(1001, 0, 7), Err(PairError::InsufficientLiquidity));
    assert_eq!(pair.validate_swap_outputs(10, 0, 1), Err(PairError::InvalidRecipient));
    assert_eq!(pair.validate_swap_outputs(10, 0, 7), Ok(()));
}

#[test]
fn flash_swap_both_outputs_repaid() {
    let mut pair = fresh_pair();
    pair.mint(9, 1000, 4000, 0).unwrap();
    // both outputs drawn, fully repaid with extra before the check
    let done = pair.swap(9, 100, 400, 1010, 4040, 7, 0).unwrap();
    assert_eq!((done.amount_0_in, done.amount_1_in), (110, 440));
    assert_eq!(pair.get_reserves(), (1010, 4040, 0));
}

#[test]
fn price_accumulator_advances_with_time() {
    let mut pair = fresh_pair();
    pair.mint(9, 1000, 4000, 0).unwrap();
    assert_eq!(pair.price_0_cumulative_last, 0);
    pair.mint(9, 2000, 8000, 10).unwrap();
    // spot price of token 0 is 4 in token 1: 4 * 2^64 per second, 10 seconds
    assert_eq!(pair.price_0_cumulative_last, 4 * PRICE_SCALE * 10);
    assert_eq!(pair.price_1_cumulative_last, (PRICE_SCALE / 4) * 10);
    assert_eq!(pair.block_timestamp_last, 10);
}

#[test]
fn protocol_fee_mints_sixth_of_growth() {
    let mut pair = PairContract::new(1, 2, true);
    pair.mint(9, 1000, 4000, 0).unwrap();
    assert_eq!(pair.k_last, 4_000_000);
    // grow k: pay 4000 of token 0 in, take 2000 of token 1 out
    pair.swap(9, 0, 2000, 5000, 2000, 7, 0).unwrap();
    assert_eq!(pair.k_last, 4_000_000);
    // next mint first dilutes by the fee on sqrt growth 2000 -> 3162
    let (_, fee, _) = pair.mint(9, 10000, 4000, 0).unwrap();
    assert_eq!(fee, 2000 * (3162 - 2000) / (5 * 3162 + 2000));
    assert_eq!(fee, 130);
    assert_eq!(pair.k_last, 10000u128 * 4000);
}

#[test]
fn sync_resets_reserves_to_balances() {
    let mut pair = fresh_pair();
    pair.mint(9, 1000, 4000, 0).unwrap();
    pair.sync(1100, 4400);
    assert_eq!(pair.get_reserves(), (1100, 4400, 0));
    assert_eq!(pair.total_shares, 2000);
}

#[test]
fn skim_reports_excess_balances() {
    let mut pair = fresh_pair();
    pair.mint(9, 1000, 4000, 0).unwrap();
    assert_eq!(pair.skim(1100, 4400), (100, 400));
    assert_eq!(pair.skim(1000, 4000), (0, 0));
    assert_eq!(pair.get_reserves(), (1000, 4000, 0));
}

/// The locked minimum keeps the supply from ever returning to zero: even
/// burning every share a holder can own leaves the lock outstanding.
#[test]
fn total_shares_never_return_to_zero() {
    let mut pair = fresh_pair();
    pair.mint(9, 1000, 4000, 0).unwrap();
    let redeemable = pair.total_shares - MINIMUM_LIQUIDITY;
    pair.burn(9, 77, redeemable, 1000, 4000, 0).unwrap();
    assert_eq!(pair.total_shares, MINIMUM_LIQUIDITY);
}
