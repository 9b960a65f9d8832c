//! Multi-pool yield-farming ledger: per-pool reward-per-share accrual and
//! per-user staking positions.
//!
//! Rewards accrue lazily: `update_pool` advances a pool's fixed-point
//! `acc_reward_per_share` accumulator by the emission earned since the last
//! update, split across pools by allocation weight.  Each position settles
//! against the accumulator through its reward debt, so exactly the newly
//! accrued share of the emission is pending at any time.  As in the pair
//! engine, token custody stays with the host: every operation returns the
//! reward or stake amount the host must transfer.

use vstd::prelude::*;
use vstd::pervasive::VecAdditionalExecFns;

verus! {

/// Fixed-point scale of `acc_reward_per_share`: reward per unit staked is
/// kept in units of one part in 10^12.
pub const REWARD_SCALE: u128 = 1_000_000_000_000;

/// Why a farming operation was rejected; the whole call is discarded.
#[derive(Clone, Copy, Debug, PartialEq, Eq, Structural)]
pub enum FarmingError {
    /// An administrative call came from a non-owner.
    Unauthorized,
    /// A withdrawal asked for more than the user has staked.
    InsufficientStakedBalance,
}

/// One staking pool: a staked token, its share of the global emission, and
/// the lazily advanced reward accumulator.
#[derive(Clone, Copy, Debug, PartialEq, Eq, Structural)]
pub struct Pool {
    /// Identity of the token users stake in this pool.
    pub staked_token: u128,
    /// This pool's share of the global emission, relative to the sum of
    /// all pools' weights.
    pub allocation_weight: u128,
    /// Cumulative reward per unit staked, scaled by `REWARD_SCALE`;
    /// non-decreasing.
    pub acc_reward_per_share: u128,
    /// Last time at which `acc_reward_per_share` was advanced.
    pub last_reward_block: u64,
    /// Sum of all user deposits in this pool.
    pub total_staked: u128,
}

/// One user's stake in one pool, keyed by `(pool_id, user)`.
#[derive(Clone, Copy, Debug, PartialEq, Eq, Structural)]
pub struct Position {
    /// Pool the stake belongs to.
    pub pool_id: u32,
    /// Identity of the staking user.
    pub user: u128,
    /// The user's current staked balance.
    pub amount: u128,
    /// Reward-per-share-scaled value already settled against the user;
    /// subtracted from `amount * acc_reward_per_share / REWARD_SCALE` to
    /// derive the pending reward.
    pub reward_debt: i128,
}

/// Whether `p` is the position of `user` in pool `pool_id`.
pub open spec fn is_key(p: Position, pool_id: u32, user: u128) -> bool {
    p.pool_id == pool_id && p.user == user
}

/// Whether some position with key `(pool_id, user)` is present.
pub open spec fn has_position(s: Seq<Position>, pool_id: u32, user: u128) -> bool {
    exists|i: int| 0 <= i < s.len() && is_key(#[trigger] s[i], pool_id, user)
}

/// Sum of the allocation weights of a sequence of pools.
pub open spec fn sum_weights(s: Seq<Pool>) -> int
    decreases s.len(),
{
    if s.len() == 0 {
        0
    } else {
        sum_weights(s.drop_last()) + s.last().allocation_weight
    }
}

/// Appending a pool grows the weight sum by that pool's weight.
pub proof fn lemma_sum_weights_push(s: Seq<Pool>, p: Pool)
    ensures
        sum_weights(s.push(p)) == sum_weights(s) + p.allocation_weight,
{
    assert(s.push(p).drop_last() =~= s);
    assert(s.push(p).last() == p);
}

/// Replacing one pool shifts the weight sum by the weight difference.
pub proof fn lemma_sum_weights_update(s: Seq<Pool>, i: int, p: Pool)
    requires
        0 <= i < s.len(),
    ensures
        sum_weights(s.update(i, p)) == sum_weights(s) - s[i].allocation_weight
            + p.allocation_weight,
    decreases s.len(),
{
    let t = s.update(i, p);
    if i == s.len() - 1 {
        assert(t.drop_last() =~= s.drop_last());
        assert(t.last() == p);
    } else {
        assert(t.drop_last() =~= s.drop_last().update(i, p));
        assert(t.last() == s.last());
        lemma_sum_weights_update(s.drop_last(), i, p);
    }
}

/// A weight sum is never negative.
pub proof fn lemma_sum_weights_nonneg(s: Seq<Pool>)
    ensures
        sum_weights(s) >= 0,
    decreases s.len(),
{
    if s.len() > 0 {
        lemma_sum_weights_nonneg(s.drop_last());
    }
}

/// One pool's weight never exceeds the weight sum.
pub proof fn lemma_sum_weights_bound(s: Seq<Pool>, i: int)
    requires
        0 <= i < s.len(),
    ensures
        s[i].allocation_weight <= sum_weights(s),
    decreases s.len(),
{
    lemma_sum_weights_nonneg(s.drop_last());
    if i < s.len() - 1 {
        lemma_sum_weights_bound(s.drop_last(), i);
    }
}

/// Sum of the staked amounts that the positions hold in pool `pool_id`.
pub open spec fn staked_sum(s: Seq<Position>, pool_id: u32) -> int
    decreases s.len(),
{
    if s.len() == 0 {
        0
    } else {
        staked_sum(s.drop_last(), pool_id) + (if s.last().pool_id == pool_id {
            s.last().amount as int
        } else {
            0
        })
    }
}

/// A staked sum is never negative.
pub proof fn lemma_staked_sum_nonneg(s: Seq<Position>, pool_id: u32)
    ensures
        staked_sum(s, pool_id) >= 0,
    decreases s.len(),
{
    if s.len() > 0 {
        lemma_staked_sum_nonneg(s.drop_last(), pool_id);
    }
}

/// Appending a position grows its own pool's staked sum by its amount and
/// leaves every other pool's sum unchanged.
pub proof fn lemma_staked_sum_push(s: Seq<Position>, p: Position, pool_id: u32)
    ensures
        staked_sum(s.push(p), pool_id) == staked_sum(s, pool_id) + (if p.pool_id == pool_id {
            p.amount as int
        } else {
            0
        }),
{
    assert(s.push(p).drop_last() =~= s);
    assert(s.push(p).last() == p);
}

/// Replacing one position shifts each pool's staked sum by the difference
/// of the contributions of the new and old entries.
pub proof fn lemma_staked_sum_update(s: Seq<Position>, i: int, p: Position, pool_id: u32)
    requires
        0 <= i < s.len(),
    ensures
        staked_sum(s.update(i, p), pool_id) == staked_sum(s, pool_id) + (if p.pool_id == pool_id {
            p.amount as int
        } else {
            0
        }) - (if s[i].pool_id == pool_id {
            s[i].amount as int
        } else {
            0
        }),
    decreases s.len(),
{
    let t = s.update(i, p);
    if i == s.len() - 1 {
        assert(t.drop_last() =~= s.drop_last());
        assert(t.last() == p);
    } else {
        assert(t.drop_last() =~= s.drop_last().update(i, p));
        assert(t.last() == s.last());
        lemma_staked_sum_update(s.drop_last(), i, p, pool_id);
    }
}

/// Removing one position lowers each pool's staked sum by exactly that
/// entry's contribution.
pub proof fn lemma_staked_sum_remove(s: Seq<Position>, i: int, pool_id: u32)
    requires
        0 <= i < s.len(),
    ensures
        staked_sum(s.remove(i), pool_id) == staked_sum(s, pool_id) - (if s[i].pool_id == pool_id {
            s[i].amount as int
        } else {
            0
        }),
    decreases s.len(),
{
    let t = s.remove(i);
    if i == s.len() - 1 {
        assert(t =~= s.drop_last());
    } else {
        assert(t.drop_last() =~= s.drop_last().remove(i));
        assert(t.last() == s.last());
        lemma_staked_sum_remove(s.drop_last(), i, pool_id);
    }
}

/// A pool with an id no position refers to has a zero staked sum.
pub proof fn lemma_staked_sum_absent(s: Seq<Position>, pool_id: u32)
    requires
        forall|i: int| 0 <= i < s.len() ==> (#[trigger] s[i]).pool_id != pool_id,
    ensures
        staked_sum(s, pool_id) == 0,
    decreases s.len(),
{
    if s.len() > 0 {
        lemma_staked_sum_nonneg(s.drop_last(), pool_id);
        lemma_staked_sum_absent(s.drop_last(), pool_id);
    }
}

/// One entry's staked amount never exceeds its pool's staked sum.
pub proof fn lemma_staked_sum_bound(s: Seq<Position>, i: int, pool_id: u32)
    requires
        0 <= i < s.len(),
        s[i].pool_id == pool_id,
    ensures
        s[i].amount <= staked_sum(s, pool_id),
    decreases s.len(),
{
    lemma_staked_sum_nonneg(s.drop_last(), pool_id);
    if i == s.len() - 1 {
    } else {
        lemma_staked_sum_bound(s.drop_last(), i, pool_id);
    }
}

/// Position keys are unique: two entries with the same key are the same
/// entry, given the pairwise-distinctness that `FarmingLedger::wf` keeps.
pub proof fn lemma_key_unique(s: Seq<Position>, i: int, j: int, pool_id: u32, user: u128)
    requires
        forall|a: int, b: int|
            0 <= a < b < s.len() ==> !is_key(#[trigger] s[a], (#[trigger] s[b]).pool_id, s[b].user),
        0 <= i < s.len(),
        0 <= j < s.len(),
        is_key(s[i], pool_id, user),
        is_key(s[j], pool_id, user),
    ensures
        i == j,
{
    if i < j {
        assert(!is_key(s[i], s[j].pool_id, s[j].user));
    }
    if j < i {
        assert(!is_key(s[j], s[i].pool_id, s[i].user));
    }
}

/// The pending reward of a position against an accumulator value: its
/// scaled claim on the accumulator less the already settled reward debt.
pub open spec fn spec_pending(amount: u128, reward_debt: i128, acc: u128) -> int {
    amount * acc / (REWARD_SCALE as int) - reward_debt
}

/// The pool state `update_pool` produces at time `now` under the global
/// emission `reward_per_block` and weight denominator `total_weight`: a
/// no-op when no time has passed, otherwise the accumulator grows by the
/// pool's scaled share of the elapsed emission per unit staked.
pub open spec fn spec_update_pool(p: Pool, now: u64, reward_per_block: u128, total_weight: u128) -> Pool {
    if now <= p.last_reward_block {
        p
    } else if p.total_staked == 0 || total_weight == 0 {
        Pool { last_reward_block: now, ..p }
    } else {
        let reward = (now - p.last_reward_block) * reward_per_block * p.allocation_weight / (
        total_weight as int);
        Pool {
            acc_reward_per_share: (p.acc_reward_per_share + reward * REWARD_SCALE / (
            p.total_staked as int)) as u128,
            last_reward_block: now,
            ..p
        }
    }
}

/// Machine limit: the accrual arithmetic of `update_pool` at `now` stays
/// inside 128-bit words.
pub open spec fn accrual_fits(p: Pool, now: u64, reward_per_block: u128, total_weight: u128) -> bool {
    (now > p.last_reward_block && p.total_staked != 0 && total_weight != 0) ==> {
        let e = now - p.last_reward_block;
        let reward = e * reward_per_block * p.allocation_weight / (total_weight as int);
        &&& e * reward_per_block <= u128::MAX
        &&& e * reward_per_block * p.allocation_weight <= u128::MAX
        &&& reward * REWARD_SCALE <= u128::MAX
        &&& p.acc_reward_per_share + reward * REWARD_SCALE / (p.total_staked as int) <= u128::MAX
    }
}

/// The accumulator never decreases across one `update_pool` step.
pub proof fn lemma_update_pool_monotone(p: Pool, now: u64, reward_per_block: u128, total_weight: u128)
    requires
        accrual_fits(p, now, reward_per_block, total_weight),
    ensures
        spec_update_pool(p, now, reward_per_block, total_weight).acc_reward_per_share
            >= p.acc_reward_per_share,
        spec_update_pool(p, now, reward_per_block, total_weight).last_reward_block
            >= p.last_reward_block,
        spec_update_pool(p, now, reward_per_block, total_weight).total_staked == p.total_staked,
        spec_update_pool(p, now, reward_per_block, total_weight).allocation_weight
            == p.allocation_weight,
        spec_update_pool(p, now, reward_per_block, total_weight).staked_token == p.staked_token,
{
    if now > p.last_reward_block && p.total_staked != 0 && total_weight != 0 {
        let e = now - p.last_reward_block;
        let emission = e * reward_per_block * p.allocation_weight;
        assert(emission >= 0) by (nonlinear_arith)
            requires
                emission == e * reward_per_block * p.allocation_weight,
                e >= 0,
                reward_per_block >= 0,
                p.allocation_weight >= 0,
        ;
        let reward = emission / (total_weight as int);
        assert(reward >= 0) by (nonlinear_arith)
            requires
                reward == emission / (total_weight as int),
                emission >= 0,
                total_weight > 0,
        ;
        let scaled = reward * REWARD_SCALE;
        assert(scaled >= 0) by (nonlinear_arith)
            requires
                scaled == reward * REWARD_SCALE,
                reward >= 0,
                REWARD_SCALE > 0,
        ;
        assert(scaled / (p.total_staked as int) >= 0) by (nonlinear_arith)
            requires
                scaled >= 0,
                p.total_staked > 0,
        ;
    }
}

/// `acc_reward_per_share` is non-decreasing across any two `update_pool`
/// steps ordered in time.
pub proof fn lemma_acc_reward_monotone(
    p: Pool,
    t1: u64,
    t2: u64,
    reward_per_block: u128,
    total_weight: u128,
)
    requires
        accrual_fits(p, t1, reward_per_block, total_weight),
        accrual_fits(
            spec_update_pool(p, t1, reward_per_block, total_weight),
            t2,
            reward_per_block,
            total_weight,
        ),
    ensures
        spec_update_pool(
            spec_update_pool(p, t1, reward_per_block, total_weight),
            t2,
            reward_per_block,
            total_weight,
        ).acc_reward_per_share >= spec_update_pool(
            p,
            t1,
            reward_per_block,
            total_weight,
        ).acc_reward_per_share,
        spec_update_pool(
            spec_update_pool(p, t1, reward_per_block, total_weight),
            t2,
            reward_per_block,
            total_weight,
        ).acc_reward_per_share >= p.acc_reward_per_share,
{
    lemma_update_pool_monotone(p, t1, reward_per_block, total_weight);
    lemma_update_pool_monotone(
        spec_update_pool(p, t1, reward_per_block, total_weight),
        t2,
        reward_per_block,
        total_weight,
    );
}

/// Owner, emission rate, pool set and user positions of one farming
/// deployment.
pub struct FarmingLedger {
    /// Account allowed to add pools and change weights.
    pub owner: u128,
    /// Global reward emission per block, split across pools by weight.
    pub reward_per_block: u128,
    /// Sum of all pools' allocation weights: the normalization denominator
    /// of the emission split.
    pub total_allocation_weight: u128,
    /// The pools, ordered by numeric pool id, sequential from zero.
    pub pools: Vec<Pool>,
    /// All user positions, one per `(pool_id, user)` key.
    pub positions: Vec<Position>,
}

impl FarmingLedger {
    /// Structural well-formedness, established by `new` and preserved by
    /// every operation.
    pub open spec fn wf(self) -> bool {
        &&& self.pools@.len() <= u32::MAX
        &&& self.total_allocation_weight == sum_weights(self.pools@)
        &&& forall|i: int|
            0 <= i < self.positions@.len() ==> (#[trigger] self.positions@[i]).pool_id
                < self.pools@.len() && self.positions@[i].reward_debt >= 0
        &&& forall|i: int, j: int|
            0 <= i < j < self.positions@.len() ==> !is_key(
                #[trigger] self.positions@[i],
                (#[trigger] self.positions@[j]).pool_id,
                self.positions@[j].user,
            )
        &&& forall|pid: int|
            0 <= pid < self.pools@.len() ==> (#[trigger] self.pools@[pid]).total_staked
                == staked_sum(self.positions@, pid as u32)
    }

    /// A fresh ledger with no pools and no positions.
    pub fn new(owner: u128, reward_per_block: u128) -> (r: FarmingLedger)
        ensures
            r.wf(),
            r.owner == owner,
            r.reward_per_block == reward_per_block,
            r.total_allocation_weight == 0,
            r.pools@.len() == 0,
            r.positions@.len() == 0,
    {
        FarmingLedger {
            owner,
            reward_per_block,
            total_allocation_weight: 0,
            pools: Vec::new(),
            positions: Vec::new(),
        }
    }

    /// Index of the position of `user` in pool `pool_id`, if any.
    fn find_position(&self, pool_id: u32, user: u128) -> (r: Option<usize>)
        ensures
            match r {
                Some(i) => i < self.positions@.len() && is_key(
                    self.positions@[i as int],
                    pool_id,
                    user,
                ),
                None => !has_position(self.positions@, pool_id, user),
            },
    {
        let mut i: usize = 0;
        while i < self.positions.len()
            invariant
                i <= self.positions@.len(),
                forall|k: int| 0 <= k < i ==> !is_key(#[trigger] self.positions@[k], pool_id, user),
            decreases self.positions@.len() - i,
        {
            if self.positions[i].pool_id == pool_id && self.positions[i].user == user {
                return Some(i);
            }
            i = i + 1;
        }
        None
    }

    /// Lazily advances one pool's reward accumulator to `now`; idempotent,
    /// callable at any time, and the accumulator never decreases.
    pub fn update_pool(&mut self, pool_id: u32, now: u64)
        requires
            old(self).wf(),
            pool_id < old(self).pools@.len(),
            accrual_fits(
                old(self).pools@[pool_id as int],
                now,
                old(self).reward_per_block,
                old(self).total_allocation_weight,
            ),
        ensures
            final(self).wf(),
            final(self).pools@ == old(self).pools@.update(
                pool_id as int,
                spec_update_pool(
                    old(self).pools@[pool_id as int],
                    now,
                    old(self).reward_per_block,
                    old(self).total_allocation_weight,
                ),
            ),
            final(self).pools@[pool_id as int].acc_reward_per_share >= old(self).pools@[pool_id as int].acc_reward_per_share,
            final(self).positions@ == old(self).positions@,
            final(self).owner == old(self).owner,
            final(self).reward_per_block == old(self).reward_per_block,
            final(self).total_allocation_weight == old(self).total_allocation_weight,
    {
        let ghost pre = self.pools@;
        let p: Pool = self.pools[pool_id as usize];
        proof {
            lemma_update_pool_monotone(
                p,
                now,
                self.reward_per_block,
                self.total_allocation_weight,
            );
        }
        if now <= p.last_reward_block {
            proof {
                assert(pre.update(pool_id as int, p) =~= pre);
                lemma_sum_weights_update(pre, pool_id as int, p);
            }
            self.pools.set(pool_id as usize, p);
            return ;
        }
        let elapsed: u64 = now - p.last_reward_block;
        if p.total_staked == 0 || self.total_allocation_weight == 0 {
            let np = Pool { last_reward_block: now, ..p };
            proof {
                lemma_sum_weights_update(pre, pool_id as int, np);
            }
            self.pools.set(pool_id as usize, np);
            return ;
        }
        let emission: u128 = (elapsed as u128) * self.reward_per_block * p.allocation_weight;
        let reward: u128 = emission / self.total_allocation_weight;
        let np = Pool {
            acc_reward_per_share: p.acc_reward_per_share + reward * REWARD_SCALE / p.total_staked,
            last_reward_block: now,
            ..p
        };
        proof {
            lemma_sum_weights_update(pre, pool_id as int, np);
        }
        self.pools.set(pool_id as usize, np);
    }

    /// The state of pool `pool_id` right after the lazy accrual that opens
    /// `deposit`, `withdraw` and `harvest`.
    pub open spec fn spec_pool_after_update(self, pool_id: u32, now: u64) -> Pool {
        spec_update_pool(
            self.pools@[pool_id as int],
            now,
            self.reward_per_block,
            self.total_allocation_weight,
        )
    }

    /// Machine limit: the settlement arithmetic of `deposit` stays inside
    /// the word sizes of the position fields.
    pub open spec fn deposit_fits(self, pool_id: u32, caller: u128, amount: u128, now: u64) -> bool {
        let up = self.spec_pool_after_update(pool_id, now);
        let acc = up.acc_reward_per_share;
        &&& accrual_fits(
            self.pools@[pool_id as int],
            now,
            self.reward_per_block,
            self.total_allocation_weight,
        )
        &&& up.total_staked + amount <= u128::MAX
        &&& amount * acc <= u128::MAX
        &&& amount * acc / (REWARD_SCALE as int) <= i128::MAX
        &&& forall|i: int|
            0 <= i < self.positions@.len() && is_key(#[trigger] self.positions@[i], pool_id, caller)
                ==> {
                &&& self.positions@[i].amount * acc <= u128::MAX
                &&& self.positions@[i].amount * acc / (REWARD_SCALE as int) <= i128::MAX
                &&& self.positions@[i].amount + amount <= u128::MAX
                &&& (self.positions@[i].amount + amount) * acc <= u128::MAX
                &&& (self.positions@[i].amount + amount) * acc / (REWARD_SCALE as int)
                    <= i128::MAX
            }
    }

    /// Stakes `amount` of the pool's token for `caller`: accrues the pool,
    /// pays out the caller's pending reward (harvest-on-deposit), adds the
    /// stake and settles the reward debt so nothing is pending afterwards.
    /// Returns the pending reward the host must transfer to the caller;
    /// the host then pulls `amount` of the staked token in.
    pub fn deposit(&mut self, caller: u128, pool_id: u32, amount: u128, now: u64) -> (pending:
        u128)
        requires
            old(self).wf(),
            pool_id < old(self).pools@.len(),
            old(self).deposit_fits(pool_id, caller, amount, now),
        ensures
            final(self).wf(),
            final(self).owner == old(self).owner,
            final(self).reward_per_block == old(self).reward_per_block,
            final(self).total_allocation_weight == old(self).total_allocation_weight,
            final(self).pools@ == old(self).pools@.update(
                pool_id as int,
                (Pool {
                    total_staked: (old(self).spec_pool_after_update(pool_id, now).total_staked
                        + amount) as u128,
                    ..old(self).spec_pool_after_update(pool_id, now)
                }),
            ),
            has_position(final(self).positions@, pool_id, caller),
            forall|j: int|
                0 <= j < final(self).positions@.len() && is_key(
                    #[trigger] final(self).positions@[j],
                    pool_id,
                    caller,
                ) ==> final(self).positions@[j].reward_debt == final(self).positions@[j].amount
                    * old(self).spec_pool_after_update(pool_id, now).acc_reward_per_share / (
                REWARD_SCALE as int) && spec_pending(
                    final(self).positions@[j].amount,
                    final(self).positions@[j].reward_debt,
                    old(self).spec_pool_after_update(pool_id, now).acc_reward_per_share,
                ) == 0,
            forall|i: int, j: int|
                (0 <= i < old(self).positions@.len() && is_key(
                    #[trigger] old(self).positions@[i],
                    pool_id,
                    caller,
                ) && 0 <= j < final(self).positions@.len() && is_key(
                    #[trigger] final(self).positions@[j],
                    pool_id,
                    caller,
                )) ==> final(self).positions@[j].amount == old(self).positions@[i].amount + amount
                    && pending == (if spec_pending(
                    old(self).positions@[i].amount,
                    old(self).positions@[i].reward_debt,
                    old(self).spec_pool_after_update(pool_id, now).acc_reward_per_share,
                ) > 0 {
                    spec_pending(
                        old(self).positions@[i].amount,
                        old(self).positions@[i].reward_debt,
                        old(self).spec_pool_after_update(pool_id, now).acc_reward_per_share,
                    )
                } else {
                    0
                }),
            !has_position(old(self).positions@, pool_id, caller) ==> pending == 0 && final(
                self).positions@.len() == old(self).positions@.len() + 1 && final(
                self).positions@.last() == (Position {
                pool_id,
                user: caller,
                amount,
                reward_debt: (amount * old(self).spec_pool_after_update(
                    pool_id,
                    now,
                ).acc_reward_per_share / (REWARD_SCALE as int)) as i128,
            }),
            has_position(old(self).positions@, pool_id, caller) ==> final(self).positions@.len()
                == old(self).positions@.len(),
            forall|j: int|
                0 <= j < old(self).positions@.len() && !is_key(
                    #[trigger] old(self).positions@[j],
                    pool_id,
                    caller,
                ) ==> final(self).positions@[j] == old(self).positions@[j],
    {
        self.update_pool(pool_id, now);
        let acc: u128 = self.pools[pool_id as usize].acc_reward_per_share;
        let idx: Option<usize> = self.find_position(pool_id, caller);
        let ghost mid_positions = self.positions@;
        let mut pending: u128 = 0;
        match idx {
            Some(i) => {
                let pos: Position = self.positions[i];
                let accrued: u128 = pos.amount * acc / REWARD_SCALE;
                let accrued_i: i128 = accrued as i128;
                if accrued_i > pos.reward_debt {
                    pending = (accrued_i - pos.reward_debt) as u128;
                }
                let new_amount: u128 = pos.amount + amount;
                let new_debt: u128 = new_amount * acc / REWARD_SCALE;
                let np = Position { amount: new_amount, reward_debt: new_debt as i128, ..pos };
                proof {
                    assert forall|pid2: int| 0 <= pid2 < self.pools@.len() implies (
                    #[trigger] self.pools@[pid2]).total_staked + (if pid2 == pool_id as int {
                        amount as int
                    } else {
                        0
                    }) == staked_sum(mid_positions.update(i as int, np), pid2 as u32) by {
                        lemma_staked_sum_update(mid_positions, i as int, np, pid2 as u32);
                    }
                }
                self.positions.set(i, np);
            },
            None => {
                let new_debt: u128 = amount * acc / REWARD_SCALE;
                let np = Position { pool_id, user: caller, amount, reward_debt: new_debt as i128 };
                proof {
                    assert forall|pid2: int| 0 <= pid2 < self.pools@.len() implies (
                    #[trigger] self.pools@[pid2]).total_staked + (if pid2 == pool_id as int {
                        amount as int
                    } else {
                        0
                    }) == staked_sum(mid_positions.push(np), pid2 as u32) by {
                        lemma_staked_sum_push(mid_positions, np, pid2 as u32);
                    }
                }
                self.positions.push(np);
            },
        }
        let pool: Pool = self.pools[pool_id as usize];
        let np = Pool { total_staked: pool.total_staked + amount, ..pool };
        proof {
            lemma_sum_weights_update(self.pools@, pool_id as int, np);
        }
        self.pools.set(pool_id as usize, np);
        proof {
            assert(self.pools@ =~= old(self).pools@.update(
                pool_id as int,
                (Pool {
                    total_staked: (old(self).spec_pool_after_update(pool_id, now).total_staked
                        + amount) as u128,
                    ..old(self).spec_pool_after_update(pool_id, now)
                }),
            ));
            match idx {
                Some(i) => {
                    assert(is_key(self.positions@[i as int], pool_id, caller));
                },
                None => {
                    assert(is_key(
                        self.positions@[self.positions@.len() - 1],
                        pool_id,
                        caller,
                    ));
                },
            }
        }
        pending
    }

    /// Machine limit: the settlement arithmetic of `withdraw` and
    /// `harvest` stays inside the word sizes of the position fields.
    pub open spec fn settle_fits(self, pool_id: u32, caller: u128, now: u64) -> bool {
        let acc = self.spec_pool_after_update(pool_id, now).acc_reward_per_share;
        &&& accrual_fits(
            self.pools@[pool_id as int],
            now,
            self.reward_per_block,
            self.total_allocation_weight,
        )
        &&& forall|i: int|
            0 <= i < self.positions@.len() && is_key(#[trigger] self.positions@[i], pool_id, caller)
                ==> self.positions@[i].amount * acc <= u128::MAX && self.positions@[i].amount * acc
                / (REWARD_SCALE as int) <= i128::MAX
    }

    /// Unstakes `amount` for `caller`: rejected when it exceeds the staked
    /// balance, otherwise the pool accrues, the pending reward is paid out,
    /// the stake shrinks and the reward debt is settled so nothing is
    /// pending afterwards.  Returns the pending reward the host must
    /// transfer; the host then returns `amount` of the staked token.
    pub fn withdraw(&mut self, caller: u128, pool_id: u32, amount: u128, now: u64) -> (r: Result<
        u128,
        FarmingError,
    >)
        requires
            old(self).wf(),
            pool_id < old(self).pools@.len(),
            old(self).settle_fits(pool_id, caller, now),
        ensures
            final(self).wf(),
            final(self).owner == old(self).owner,
            final(self).reward_per_block == old(self).reward_per_block,
            final(self).total_allocation_weight == old(self).total_allocation_weight,
            (r is Err) ==> *final(self) == *old(self) && r->Err_0
                == FarmingError::InsufficientStakedBalance,
            (r is Err) <==> ((exists|i: int|
                0 <= i < old(self).positions@.len() && is_key(
                    #[trigger] old(self).positions@[i],
                    pool_id,
                    caller,
                ) && old(self).positions@[i].amount < amount) || (!has_position(
                old(self).positions@,
                pool_id,
                caller,
            ) && amount > 0)),
            (r is Ok) ==> final(self).pools@ == old(self).pools@.update(
                pool_id as int,
                (Pool {
                    total_staked: (old(self).spec_pool_after_update(pool_id, now).total_staked
                        - amount) as u128,
                    ..old(self).spec_pool_after_update(pool_id, now)
                }),
            ),
            (r is Ok) ==> forall|j: int|
                0 <= j < final(self).positions@.len() && is_key(
                    #[trigger] final(self).positions@[j],
                    pool_id,
                    caller,
                ) ==> final(self).positions@[j].reward_debt == final(self).positions@[j].amount
                    * old(self).spec_pool_after_update(pool_id, now).acc_reward_per_share / (
                REWARD_SCALE as int) && spec_pending(
                    final(self).positions@[j].amount,
                    final(self).positions@[j].reward_debt,
                    old(self).spec_pool_after_update(pool_id, now).acc_reward_per_share,
                ) == 0,
            (r is Ok) ==> forall|i: int, j: int|
                (0 <= i < old(self).positions@.len() && is_key(
                    #[trigger] old(self).positions@[i],
                    pool_id,
                    caller,
                ) && 0 <= j < final(self).positions@.len() && is_key(
                    #[trigger] final(self).positions@[j],
                    pool_id,
                    caller,
                )) ==> final(self).positions@[j].amount == old(self).positions@[i].amount - amount
                    && r->Ok_0 == (if spec_pending(
                    old(self).positions@[i].amount,
                    old(self).positions@[i].reward_debt,
                    old(self).spec_pool_after_update(pool_id, now).acc_reward_per_share,
                ) > 0 {
                    spec_pending(
                        old(self).positions@[i].amount,
                        old(self).positions@[i].reward_debt,
                        old(self).spec_pool_after_update(pool_id, now).acc_reward_per_share,
                    )
                } else {
                    0
                }),
            (r is Ok) ==> final(self).positions@.len() == old(self).positions@.len(),
            (r is Ok && !has_position(old(self).positions@, pool_id, caller)) ==> r->Ok_0 == 0
                && final(self).positions@ == old(self).positions@,
            (r is Ok) ==> forall|j: int|
                0 <= j < old(self).positions@.len() && !is_key(
                    #[trigger] old(self).positions@[j],
                    pool_id,
                    caller,
                ) ==> final(self).positions@[j] == old(self).positions@[j],
    {
        let idx: Option<usize> = self.find_position(pool_id, caller);
        match idx {
            Some(i) => {
                if amount > self.positions[i].amount {
                    return Err(FarmingError::InsufficientStakedBalance);
                }
            },
            None => {
                if amount > 0 {
                    return Err(FarmingError::InsufficientStakedBalance);
                }
            },
        }
        proof {
            if let Some(i) = idx {
                assert forall|k: int|
                    0 <= k < self.positions@.len() && is_key(
                        #[trigger] self.positions@[k],
                        pool_id,
                        caller,
                    ) implies self.positions@[k].amount >= amount by {
                    lemma_key_unique(self.positions@, k, i as int, pool_id, caller);
                }
            }
        }
        self.update_pool(pool_id, now);
        let acc: u128 = self.pools[pool_id as usize].acc_reward_per_share;
        let ghost mid_positions = self.positions@;
        let mut pending: u128 = 0;
        match idx {
            Some(i) => {
                let pos: Position = self.positions[i];
                proof {
                    lemma_staked_sum_bound(self.positions@, i as int, pool_id);
                }
                let accrued: u128 = pos.amount * acc / REWARD_SCALE;
                let accrued_i: i128 = accrued as i128;
                if accrued_i > pos.reward_debt {
                    pending = (accrued_i - pos.reward_debt) as u128;
                }
                let new_amount: u128 = pos.amount - amount;
                proof {
                    assert(new_amount * acc <= pos.amount * acc) by (nonlinear_arith)
                        requires
                            0 <= new_amount <= pos.amount,
                            0 <= acc,
                    ;
                    vstd::arithmetic::div_mod::lemma_div_is_ordered(
                        (new_amount * acc) as int,
                        (pos.amount * acc) as int,
                        REWARD_SCALE as int,
                    );
                }
                let new_debt: u128 = new_amount * acc / REWARD_SCALE;
                let np = Position { amount: new_amount, reward_debt: new_debt as i128, ..pos };
                proof {
                    assert forall|pid2: int| 0 <= pid2 < self.pools@.len() implies (
                    #[trigger] self.pools@[pid2]).total_staked - (if pid2 == pool_id as int {
                        amount as int
                    } else {
                        0
                    }) == staked_sum(mid_positions.update(i as int, np), pid2 as u32) by {
                        lemma_staked_sum_update(mid_positions, i as int, np, pid2 as u32);
                    }
                }
                self.positions.set(i, np);
            },
            None => {
                proof {
                    assert forall|pid2: int| 0 <= pid2 < self.pools@.len() implies (
                    #[trigger] self.pools@[pid2]).total_staked - (if pid2 == pool_id as int {
                        amount as int
                    } else {
                        0
                    }) == staked_sum(mid_positions, pid2 as u32) by {}
                }
            },
        }
        let pool: Pool = self.pools[pool_id as usize];
        let np = Pool { total_staked: pool.total_staked - amount, ..pool };
        proof {
            lemma_sum_weights_update(self.pools@, pool_id as int, np);
        }
        self.pools.set(pool_id as usize, np);
        proof {
            assert(self.pools@ =~= old(self).pools@.update(
                pool_id as int,
                (Pool {
                    total_staked: (old(self).spec_pool_after_update(pool_id, now).total_staked
                        - amount) as u128,
                    ..old(self).spec_pool_after_update(pool_id, now)
                }),
            ));
        }
        Ok(pending)
    }

    /// Claims the pending reward without changing the stake: a withdrawal
    /// of zero.  Returns the pending reward the host must transfer.
    pub fn harvest(&mut self, caller: u128, pool_id: u32, now: u64) -> (pending: u128)
        requires
            old(self).wf(),
            pool_id < old(self).pools@.len(),
            old(self).settle_fits(pool_id, caller, now),
        ensures
            final(self).wf(),
            forall|j: int|
                0 <= j < final(self).positions@.len() && is_key(
                    #[trigger] final(self).positions@[j],
                    pool_id,
                    caller,
                ) ==> spec_pending(
                    final(self).positions@[j].amount,
                    final(self).positions@[j].reward_debt,
                    old(self).spec_pool_after_update(pool_id, now).acc_reward_per_share,
                ) == 0,
            forall|i: int, j: int|
                (0 <= i < old(self).positions@.len() && is_key(
                    #[trigger] old(self).positions@[i],
                    pool_id,
                    caller,
                ) && 0 <= j < final(self).positions@.len() && is_key(
                    #[trigger] final(self).positions@[j],
                    pool_id,
                    caller,
                )) ==> final(self).positions@[j].amount == old(self).positions@[i].amount
                    && pending == (if spec_pending(
                    old(self).positions@[i].amount,
                    old(self).positions@[i].reward_debt,
                    old(self).spec_pool_after_update(pool_id, now).acc_reward_per_share,
                ) > 0 {
                    spec_pending(
                        old(self).positions@[i].amount,
                        old(self).positions@[i].reward_debt,
                        old(self).spec_pool_after_update(pool_id, now).acc_reward_per_share,
                    )
                } else {
                    0
                }),
            !has_position(old(self).positions@, pool_id, caller) ==> pending == 0 && final(
                self).positions@ == old(self).positions@,
            final(self).positions@.len() == old(self).positions@.len(),
            final(self).pools@ == old(self).pools@.update(
                pool_id as int,
                old(self).spec_pool_after_update(pool_id, now),
            ),
            final(self).owner == old(self).owner,
            final(self).reward_per_block == old(self).reward_per_block,
            final(self).total_allocation_weight == old(self).total_allocation_weight,
    {
        let r = self.withdraw(caller, pool_id, 0, now);
        proof {
            assert(self.pools@ =~= old(self).pools@.update(
                pool_id as int,
                old(self).spec_pool_after_update(pool_id, now),
            ));
        }
        match r {
            Ok(p) => p,
            Err(_) => 0,
        }
    }

    /// Returns the caller's full stake immediately and deletes the
    /// position, bypassing reward accounting: any pending reward is
    /// forfeited, and a later harvest of the same key yields nothing.  The
    /// host transfers the returned amount of the staked token back.
    pub fn emergency_withdraw(&mut self, caller: u128, pool_id: u32) -> (amount: u128)
        requires
            old(self).wf(),
        ensures
            final(self).wf(),
            final(self).owner == old(self).owner,
            final(self).reward_per_block == old(self).reward_per_block,
            final(self).total_allocation_weight == old(self).total_allocation_weight,
            !has_position(final(self).positions@, pool_id, caller),
            !has_position(old(self).positions@, pool_id, caller) ==> amount == 0 && *final(self)
                == *old(self),
            has_position(old(self).positions@, pool_id, caller) ==> (exists|i: int|
                0 <= i < old(self).positions@.len() && is_key(
                    #[trigger] old(self).positions@[i],
                    pool_id,
                    caller,
                ) && amount == old(self).positions@[i].amount && final(self).positions@ == old(
                    self,
                ).positions@.remove(i) && final(self).pools@ == old(self).pools@.update(
                    pool_id as int,
                    (Pool {
                        total_staked: (old(self).pools@[pool_id as int].total_staked
                            - amount) as u128,
                        ..old(self).pools@[pool_id as int]
                    }),
                )),
    {
        let idx: Option<usize> = self.find_position(pool_id, caller);
        match idx {
            Some(i) => {
                let pos: Position = self.positions[i];
                proof {
                    lemma_staked_sum_bound(self.positions@, i as int, pool_id);
                }
                let pool: Pool = self.pools[pool_id as usize];
                let np = Pool { total_staked: pool.total_staked - pos.amount, ..pool };
                let ghost mid_positions = self.positions@;
                proof {
                    lemma_sum_weights_update(self.pools@, pool_id as int, np);
                    assert forall|pid2: int| 0 <= pid2 < self.pools@.len() implies (
                    #[trigger] self.pools@[pid2]).total_staked - (if pid2 == pool_id as int {
                        pos.amount as int
                    } else {
                        0
                    }) == staked_sum(mid_positions.remove(i as int), pid2 as u32) by {
                        lemma_staked_sum_remove(mid_positions, i as int, pid2 as u32);
                    }
                }
                self.pools.set(pool_id as usize, np);
                self.positions.remove(i);
                proof {
                    assert forall|j: int|
                        0 <= j < self.positions@.len() implies !is_key(
                        #[trigger] self.positions@[j],
                        pool_id,
                        caller,
                    ) by {
                        if j < i as int {
                            lemma_key_unique_contra(mid_positions, j, i as int, pool_id, caller);
                        } else {
                            lemma_key_unique_contra(
                                mid_positions,
                                j + 1,
                                i as int,
                                pool_id,
                                caller,
                            );
                        }
                    }
                }
                pos.amount
            },
            None => 0,
        }
    }

    /// Creates a new pool for `staked_token` with the given allocation
    /// weight; owner-only.  Returns the new sequential pool id.
    pub fn add_pool(&mut self, caller: u128, staked_token: u128, allocation_weight: u128, now: u64) -> (r:
        Result<u32, FarmingError>)
        requires
            old(self).wf(),
            old(self).pools@.len() < u32::MAX,
            old(self).total_allocation_weight + allocation_weight <= u128::MAX,
        ensures
            final(self).wf(),
            (r is Err) <==> caller != old(self).owner,
            (r is Err) ==> *final(self) == *old(self) && r->Err_0 == FarmingError::Unauthorized,
            (r is Ok) ==> r->Ok_0 == old(self).pools@.len() && final(self).pools@ == old(
                self,
            ).pools@.push(
                (Pool {
                    staked_token,
                    allocation_weight,
                    acc_reward_per_share: 0,
                    last_reward_block: now,
                    total_staked: 0,
                }),
            ) && final(self).total_allocation_weight == old(self).total_allocation_weight
                + allocation_weight && final(self).positions@ == old(self).positions@ && final(
                self).owner == old(self).owner && final(self).reward_per_block == old(
                self).reward_per_block,
    {
        if caller != self.owner {
            return Err(FarmingError::Unauthorized);
        }
        let id: u32 = self.pools.len() as u32;
        let np = Pool {
            staked_token,
            allocation_weight,
            acc_reward_per_share: 0,
            last_reward_block: now,
            total_staked: 0,
        };
        proof {
            lemma_sum_weights_push(self.pools@, np);
            lemma_staked_sum_absent(self.positions@, id);
            assert forall|pid2: int|
                0 <= pid2 < self.pools@.len() implies staked_sum(self.positions@, pid2 as u32) == (
            #[trigger] self.pools@[pid2]).total_staked by {}
        }
        self.pools.push(np);
        self.total_allocation_weight = self.total_allocation_weight + allocation_weight;
        Ok(id)
    }

    /// Changes one pool's share of the global emission; owner-only.
    pub fn set_allocation_weight(&mut self, caller: u128, pool_id: u32, allocation_weight: u128) -> (r:
        Result<(), FarmingError>)
        requires
            old(self).wf(),
            pool_id < old(self).pools@.len(),
            old(self).total_allocation_weight - old(
                self,
            ).pools@[pool_id as int].allocation_weight + allocation_weight <= u128::MAX,
        ensures
            final(self).wf(),
            (r is Err) <==> caller != old(self).owner,
            (r is Err) ==> *final(self) == *old(self) && r->Err_0 == FarmingError::Unauthorized,
            (r is Ok) ==> final(self).pools@ == old(self).pools@.update(
                pool_id as int,
                (Pool {
                    allocation_weight,
                    ..old(self).pools@[pool_id as int]
                }),
            ) && final(self).total_allocation_weight == old(self).total_allocation_weight - old(
                self).pools@[pool_id as int].allocation_weight + allocation_weight && final(
                self).positions@ == old(self).positions@ && final(self).owner == old(self).owner
                && final(self).reward_per_block == old(self).reward_per_block,
    {
        if caller != self.owner {
            return Err(FarmingError::Unauthorized);
        }
        let pool: Pool = self.pools[pool_id as usize];
        proof {
            lemma_sum_weights_bound(self.pools@, pool_id as int);
            lemma_sum_weights_nonneg(self.pools@);
        }
        let np = Pool { allocation_weight, ..pool };
        proof {
            lemma_sum_weights_update(self.pools@, pool_id as int, np);
        }
        self.pools.set(pool_id as usize, np);
        self.total_allocation_weight = self.total_allocation_weight - pool.allocation_weight
            + allocation_weight;
        Ok(())
    }
}

/// Read-only views over a farming ledger: pool count, pool records, user
/// positions and staked tokens.
pub trait FarmingGetters {
    /// The pools, ordered by id.
    spec fn pools_view(&self) -> Seq<Pool>;

    /// The user positions.
    spec fn positions_view(&self) -> Seq<Position>;

    /// Number of pools.
    fn pool_length(&self) -> (n: u32)
        requires
            self.pools_view().len() <= u32::MAX,
        ensures
            n == self.pools_view().len(),
    ;

    /// The pool with id `pool_id`, if one exists.
    fn get_pool_infos(&self, pool_id: u32) -> (r: Option<Pool>)
        ensures
            r == (if pool_id < self.pools_view().len() {
                Some(self.pools_view()[pool_id as int])
            } else {
                Option::<Pool>::None
            }),
    ;

    /// Staked amount and reward debt of `user` in pool `pool_id`, if the
    /// user holds a position there.
    fn get_user_info(&self, pool_id: u32, user: u128) -> (r: Option<(u128, i128)>)
        ensures
            (r is Some) <==> has_position(self.positions_view(), pool_id, user),
            (r is Some) ==> exists|i: int|
                0 <= i < self.positions_view().len() && is_key(
                    #[trigger] self.positions_view()[i],
                    pool_id,
                    user,
                ) && r == Some(
                    (self.positions_view()[i].amount, self.positions_view()[i].reward_debt),
                ),
    ;

    /// The token staked in pool `pool_id`, if the pool exists.
    fn get_lp_token(&self, pool_id: u32) -> (r: Option<u128>)
        ensures
            r == (if pool_id < self.pools_view().len() {
                Some(self.pools_view()[pool_id as int].staked_token)
            } else {
                Option::<u128>::None
            }),
    ;
}

impl FarmingGetters for FarmingLedger {
    open spec fn pools_view(&self) -> Seq<Pool> {
        self.pools@
    }

    open spec fn positions_view(&self) -> Seq<Position> {
        self.positions@
    }

    fn pool_length(&self) -> (n: u32) {
        self.pools.len() as u32
    }

    fn get_pool_infos(&self, pool_id: u32) -> (r: Option<Pool>) {
        if (pool_id as usize) < self.pools.len() {
            Some(self.pools[pool_id as usize])
        } else {
            None
        }
    }

    fn get_user_info(&self, pool_id: u32, user: u128) -> (r: Option<(u128, i128)>) {
        match self.find_position(pool_id, user) {
            Some(i) => {
                let p: Position = self.positions[i];
                proof {
                    assert(is_key(self.positions_view()[i as int], pool_id, user));
                }
                Some((p.amount, p.reward_debt))
            },
            None => None,
        }
    }

    fn get_lp_token(&self, pool_id: u32) -> (r: Option<u128>) {
        if (pool_id as usize) < self.pools.len() {
            Some(self.pools[pool_id as usize].staked_token)
        } else {
            None
        }
    }
}

/// Contrapositive form of key uniqueness: beside one key entry, no other
/// index holds the same key.
pub proof fn lemma_key_unique_contra(s: Seq<Position>, j: int, i: int, pool_id: u32, user: u128)
    requires
        forall|a: int, b: int|
            0 <= a < b < s.len() ==> !is_key(#[trigger] s[a], (#[trigger] s[b]).pool_id, s[b].user),
        0 <= i < s.len(),
        0 <= j < s.len(),
        i != j,
        is_key(s[i], pool_id, user),
    ensures
        !is_key(s[j], pool_id, user),
{
    if is_key(s[j], pool_id, user) {
        lemma_key_unique(s, i, j, pool_id, user);
    }
}

} // verus!
