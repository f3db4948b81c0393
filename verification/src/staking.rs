//! Staking with continuously compounding rewards whose emission rate decays
//! per epoch.
//!
//! Accounts (users, the owner and the two tokens) are identified by integer
//! handles; the host that runs the contract maps them to its addresses.
use crate::fixed::{lemma_fixed_exp_ge_one, lemma_fixed_mul_nonneg, spec_fixed_exp, spec_fixed_mul, Fixed, SCALE};
use crate::wide::{mul_div, spec_mul_div};
use std::collections::HashMap;
use vstd::prelude::*;

verus! {

broadcast use vstd::std_specs::hash::group_hash_axioms;

/// Errors returned by the staking contract.
#[derive(Copy, Clone, Debug, PartialEq, Eq, Structural)]
pub enum ContractError {
    AlreadyInitialized,
    NotInitialized,
    InvalidInput,
    Overflow,
    Paused,
    InsufficientBalance,
}

/// Contract configuration.
#[derive(Copy, Clone, Debug, PartialEq, Eq, Structural)]
pub struct StakingConfig {
    pub owner: u64,
    pub staking_token: u64,
    pub reward_token: u64,
    /// Emission rate at epoch 0.
    pub initial_rate: Fixed,
    /// Fraction by which the rate drops each epoch (0.1 is 10%).
    pub epoch_decay_percent: Fixed,
    /// Blocks per epoch.
    pub epoch_length: u32,
    pub start_block: u32,
    pub is_paused: bool,
}

/// The emission rate of one epoch and the block it starts at.
#[derive(Copy, Clone, Debug, PartialEq, Eq, Structural)]
pub struct EpochSnapshot {
    pub rate: Fixed,
    pub start_block: u32,
}

/// A user's staking position.
#[derive(Copy, Clone, Debug, PartialEq, Eq, Structural)]
pub struct UserStakingState {
    pub staked_amount: i128,
    pub accrued_rewards: i128,
    pub last_update_block: u32,
}

/// Published when a user stakes.
#[derive(Copy, Clone, Debug, PartialEq, Eq, Structural)]
pub struct StakeEvent {
    pub user: u64,
    pub amount: i128,
}

/// Published when a user withdraws principal.
#[derive(Copy, Clone, Debug, PartialEq, Eq, Structural)]
pub struct WithdrawEvent {
    pub user: u64,
    pub amount: i128,
}

/// Published when a user claims rewards.
#[derive(Copy, Clone, Debug, PartialEq, Eq, Structural)]
pub struct ClaimEvent {
    pub user: u64,
    pub amount: i128,
}

/// Published when a user pulls out principal and forfeits rewards.
#[derive(Copy, Clone, Debug, PartialEq, Eq, Structural)]
pub struct EmergencyWithdrawEvent {
    pub user: u64,
    pub amount: i128,
}

/// Published when the owner pauses or resumes the contract.
#[derive(Copy, Clone, Debug, PartialEq, Eq, Structural)]
pub struct PausedEvent {
    pub paused: bool,
}

// ── Epoch arithmetic ──────────────────────────────────────────

pub open spec fn spec_epoch_for_block(start_block: u32, epoch_length: u32, block: u32) -> u32 {
    if block <= start_block {
        0
    } else {
        ((block - start_block) / (epoch_length as int)) as u32
    }
}

/// The epoch that `block` falls in; blocks up to `start_block` are in epoch 0.
pub fn epoch_for_block(start_block: u32, epoch_length: u32, block: u32) -> (e: u32)
    requires
        epoch_length > 0,
    ensures
        e == spec_epoch_for_block(start_block, epoch_length, block),
{
    if block <= start_block {
        return 0;
    }
    (block - start_block) / epoch_length
}

/// The first block of `epoch`.
pub fn epoch_start_block(start_block: u32, epoch_length: u32, epoch: u32) -> (b: u32)
    requires
        start_block + epoch * epoch_length <= u32::MAX,
    ensures
        b == start_block + epoch * epoch_length,
{
    start_block + epoch * epoch_length
}

/// Epochs up to the one that holds `block` start no later than `block`.
proof fn lemma_epoch_start_le_block(start_block: u32, epoch_length: u32, block: u32, epoch: u32)
    requires
        epoch_length > 0,
        epoch <= spec_epoch_for_block(start_block, epoch_length, block),
    ensures
        start_block + epoch * epoch_length <= (if block <= start_block { start_block } else { block }),
        epoch * epoch_length >= 0,
{
    assert(epoch * epoch_length >= 0) by (nonlinear_arith)
        requires epoch >= 0, epoch_length >= 0;
    if block > start_block {
        let diff = (block - start_block) as int;
        let e2 = diff / (epoch_length as int);
        vstd::arithmetic::div_mod::lemma_fundamental_div_mod(diff, epoch_length as int);
        vstd::arithmetic::div_mod::lemma_div_is_ordered_by_denominator(diff, 1, epoch_length as int);
        vstd::arithmetic::div_mod::lemma_div_pos_is_pos(diff, epoch_length as int);
        assert(epoch <= e2);
        assert(epoch * epoch_length <= e2 * epoch_length) by (nonlinear_arith)
            requires epoch <= e2, epoch_length > 0;
        assert(e2 * epoch_length <= diff) by (nonlinear_arith)
            requires diff == epoch_length * e2 + diff % (epoch_length as int), diff % (epoch_length as int) >= 0;
    } else {
        assert(epoch == 0);
        assert(epoch * epoch_length == 0);
    }
}

// ── Rates ─────────────────────────────────────────────────────

/// Square-and-multiply exponentiation in fixed point, as `fixed_pow_int`
/// runs it: `ans` collects `temp` for each set bit of `exp`, and `temp` is
/// squared at each step, every product rounded toward zero.
pub open spec fn spec_pow_steps(temp: i128, ans: i128, exp: nat) -> Option<i128>
    decreases exp,
{
    if exp == 0 {
        Some(ans)
    } else {
        let next_ans = if exp % 2 == 1 { spec_fixed_mul(ans, temp) } else { Some(ans) };
        match next_ans {
            None => None,
            Some(a) => match spec_fixed_mul(temp, temp) {
                None => None,
                Some(t) => spec_pow_steps(t, a, exp / 2),
            },
        }
    }
}

/// `base^exp` in fixed point.
pub open spec fn spec_fixed_pow_int(base: i128, exp: u32) -> Option<i128> {
    spec_pow_steps(base, SCALE, exp as nat)
}

fn fixed_pow_int(base: Fixed, exp: u32) -> (r: Result<Fixed, ContractError>)
    requires
        base.0 != i128::MIN,
    ensures
        r == (match spec_fixed_pow_int(base.0, exp) {
            Some(v) => Ok(Fixed(v)),
            None => Err(ContractError::Overflow),
        }),
        r matches Ok(v) ==> v.0 != i128::MIN,
{
    let mut e = exp;
    let mut temp = base;
    let mut ans = Fixed::one();
    while e > 0
        invariant
            temp.0 != i128::MIN,
            ans.0 != i128::MIN,
            spec_fixed_pow_int(base.0, exp) == spec_pow_steps(temp.0, ans.0, e as nat),
        decreases e,
    {
        assert(e & 1 == e % 2) by (bit_vector);
        assert(e >> 1 == e / 2) by (bit_vector);
        if e & 1 == 1 {
            ans = match ans.mul(temp) {
                Some(v) => v,
                None => {
                    return Err(ContractError::Overflow);
                },
            };
        }
        temp = match temp.mul(temp) {
            Some(v) => v,
            None => {
                return Err(ContractError::Overflow);
            },
        };
        e >>= 1;
    }
    Ok(ans)
}


/// Parameters that `initialize` accepts: a positive epoch length, a decay
/// between 0 and 1, and a non-negative initial rate.
pub open spec fn valid_rate_params(c: StakingConfig) -> bool {
    &&& c.epoch_length > 0
    &&& 0 <= c.epoch_decay_percent.0 <= SCALE
    &&& c.initial_rate.0 >= 0
}

/// The emission rate of `epoch`: `initial_rate * (1 - decay)^epoch`.
pub open spec fn spec_epoch_rate(initial_rate: i128, decay: i128, epoch: u32) -> Result<i128, ContractError> {
    if epoch == 0 {
        Ok(initial_rate)
    } else {
        let base = SCALE - decay;
        if base < i128::MIN || base > i128::MAX {
            Err(ContractError::Overflow)
        } else if base < 0 || base > SCALE {
            Err(ContractError::InvalidInput)
        } else {
            match spec_fixed_pow_int(base as i128, epoch) {
                None => Err(ContractError::Overflow),
                Some(f) => match spec_fixed_mul(initial_rate, f) {
                    None => Err(ContractError::Overflow),
                    Some(r) => Ok(r),
                },
            }
        }
    }
}

/// The emission rate of `epoch` (see `spec_epoch_rate`).
pub fn compute_epoch_rate(initial_rate: &Fixed, epoch_decay_percent: &Fixed, epoch: u32) -> (r: Result<Fixed, ContractError>)
    requires
        initial_rate.0 != i128::MIN,
    ensures
        r == (match spec_epoch_rate(initial_rate.0, epoch_decay_percent.0, epoch) {
            Ok(v) => Ok(Fixed(v)),
            Err(e) => Err(e),
        }),
{
    if epoch == 0 {
        return Ok(*initial_rate);
    }
    let base = match Fixed::one().sub(*epoch_decay_percent) {
        Some(b) => b,
        None => {
            return Err(ContractError::Overflow);
        },
    };
    if base.0 < 0 || base.0 > SCALE {
        return Err(ContractError::InvalidInput);
    }
    let decay_factor = fixed_pow_int(base, epoch)?;
    match initial_rate.mul(decay_factor) {
        Some(v) => Ok(v),
        None => Err(ContractError::Overflow),
    }
}

proof fn lemma_pow_steps_unit(temp: i128, ans: i128, exp: nat)
    requires
        0 <= temp <= SCALE,
        0 <= ans <= SCALE,
    ensures
        spec_pow_steps(temp, ans, exp) matches Some(v) && 0 <= v <= SCALE,
    decreases exp,
{
    if exp > 0 {
        lemma_fixed_mul_nonneg(ans, temp);
        lemma_fixed_mul_nonneg(temp, temp);
        let a = if exp % 2 == 1 { spec_fixed_mul(ans, temp)->0 } else { ans };
        let t = spec_fixed_mul(temp, temp)->0;
        lemma_pow_steps_unit(t, a, exp / 2);
    }
}

/// With valid parameters every epoch has a rate, between 0 and the initial
/// rate.
pub proof fn lemma_epoch_rate_valid(c: StakingConfig, epoch: u32)
    requires
        valid_rate_params(c),
    ensures
        spec_epoch_rate(c.initial_rate.0, c.epoch_decay_percent.0, epoch) matches Ok(r) && 0 <= r
            <= c.initial_rate.0,
{
    if epoch != 0 {
        let base = (SCALE - c.epoch_decay_percent.0) as i128;
        lemma_pow_steps_unit(base, SCALE, epoch as nat);
        let f = spec_fixed_pow_int(base, epoch)->0;
        lemma_fixed_mul_nonneg(c.initial_rate.0, f);
    }
}

proof fn lemma_fixed_mul_mono(a1: i128, a2: i128, b1: i128, b2: i128)
    requires
        0 <= a1 <= a2,
        0 <= b1 <= b2,
        spec_fixed_mul(a2, b2) is Some,
    ensures
        spec_fixed_mul(a1, b1) matches Some(v) && 0 <= v <= spec_fixed_mul(a2, b2)->0,
{
    let p1 = a1 as int * b1 as int;
    let p2 = a2 as int * b2 as int;
    assert(0 <= p1 <= p2) by (nonlinear_arith)
        requires 0 <= a1 <= a2, 0 <= b1 <= b2, p1 == a1 as int * b1 as int, p2 == a2 as int * b2 as int;
    vstd::arithmetic::div_mod::lemma_div_is_ordered(p1, p2, SCALE as int);
    vstd::arithmetic::div_mod::lemma_div_pos_is_pos(p1, SCALE as int);
}

proof fn lemma_fixed_mul_one_left(t: i128)
    requires
        0 <= t,
    ensures
        spec_fixed_mul(SCALE, t) == Some(t),
{
    vstd::arithmetic::div_mod::lemma_div_multiples_vanish(t as int, SCALE as int);
}

/// Square-and-multiply with a larger starting product gives a larger result.
proof fn lemma_pow_steps_mono_ans(t: i128, a1: i128, a2: i128, e: nat)
    requires
        0 <= t <= SCALE,
        0 <= a1 <= a2 <= SCALE,
    ensures
        spec_pow_steps(t, a1, e) matches Some(v1) && spec_pow_steps(t, a2, e) matches Some(v2) && v1 <= v2,
    decreases e,
{
    lemma_pow_steps_unit(t, a1, e);
    lemma_pow_steps_unit(t, a2, e);
    if e > 0 {
        lemma_fixed_mul_nonneg(a1, t);
        lemma_fixed_mul_nonneg(a2, t);
        lemma_fixed_mul_nonneg(t, t);
        if e % 2 == 1 {
            lemma_fixed_mul_mono(a1, a2, t, t);
        }
        let n1 = if e % 2 == 1 { spec_fixed_mul(a1, t)->0 } else { a1 };
        let n2 = if e % 2 == 1 { spec_fixed_mul(a2, t)->0 } else { a2 };
        lemma_pow_steps_mono_ans(spec_fixed_mul(t, t)->0, n1, n2, e / 2);
    }
}

/// With `T` the square of `t` and `t * t <= c`: the product over `k + 1`
/// more bits starting afresh is at most the product over `k` bits starting
/// from `c`.
proof fn lemma_pow_steps_shift(t: i128, c: i128, k: nat)
    requires
        0 <= t <= SCALE,
        0 <= c <= SCALE,
        spec_fixed_mul(t, t) matches Some(sq) && sq <= c,
    ensures
        ({
            let big_t = spec_fixed_mul(t, t)->0;
            spec_pow_steps(big_t, SCALE, k + 1) matches Some(v1) && spec_pow_steps(big_t, c, k) matches Some(v2)
                && v1 <= v2
        }),
    decreases k,
{
    lemma_fixed_mul_nonneg(t, t);
    let big_t = spec_fixed_mul(t, t)->0;
    lemma_fixed_mul_nonneg(big_t, big_t);
    lemma_fixed_mul_nonneg(c, big_t);
    lemma_fixed_mul_one_left(big_t);
    lemma_pow_steps_unit(big_t, SCALE, k + 1);
    lemma_pow_steps_unit(big_t, c, k);
    let t2 = spec_fixed_mul(big_t, big_t)->0;
    if k % 2 == 0 {
        assert((k + 1) % 2 == 1 && (k + 1) / 2 == k / 2);
        if k > 0 {
            lemma_pow_steps_mono_ans(t2, big_t, c, k / 2);
        }
    } else {
        assert((k + 1) % 2 == 0 && (k + 1) / 2 == k / 2 + 1);
        let c2 = spec_fixed_mul(c, big_t)->0;
        lemma_fixed_mul_mono(big_t, c, big_t, big_t);
        lemma_pow_steps_shift(big_t, c2, k / 2);
    }
}

/// The fixed-point power of a base between 0 and 1 never grows with the
/// exponent.
proof fn lemma_pow_decreasing(b: i128, e: nat)
    requires
        0 <= b <= SCALE,
    ensures
        spec_pow_steps(b, SCALE, e + 1) matches Some(v1) && spec_pow_steps(b, SCALE, e) matches Some(v2) && v1 <= v2,
{
    lemma_pow_steps_unit(b, SCALE, e + 1);
    lemma_pow_steps_unit(b, SCALE, e);
    lemma_fixed_mul_nonneg(b, b);
    lemma_fixed_mul_one_left(b);
    let sq = spec_fixed_mul(b, b)->0;
    if e % 2 == 0 {
        assert((e + 1) % 2 == 1 && (e + 1) / 2 == e / 2);
        if e > 0 {
            lemma_pow_steps_mono_ans(sq, b, SCALE, e / 2);
        }
    } else {
        assert((e + 1) % 2 == 0 && (e + 1) / 2 == e / 2 + 1);
        lemma_pow_steps_shift(b, b, e / 2);
    }
}

proof fn lemma_epoch_rate_step(c: StakingConfig, epoch: u32)
    requires
        valid_rate_params(c),
        epoch < u32::MAX,
    ensures
        spec_rate_value(c, (epoch + 1) as u32) <= spec_rate_value(c, epoch),
{
    lemma_epoch_rate_valid(c, epoch);
    lemma_epoch_rate_valid(c, (epoch + 1) as u32);
    let base = (SCALE - c.epoch_decay_percent.0) as i128;
    lemma_pow_decreasing(base, epoch as nat);
    let next = (epoch + 1) as u32;
    assert(next as nat == epoch as nat + 1);
    assert(spec_fixed_pow_int(base, next) == spec_pow_steps(base, SCALE, epoch as nat + 1));
    assert(spec_fixed_pow_int(base, epoch) == spec_pow_steps(base, SCALE, epoch as nat));
    assert(0 <= base <= SCALE);
    lemma_pow_steps_unit(base, SCALE, epoch as nat + 1);
    lemma_pow_steps_unit(base, SCALE, epoch as nat);
    let p1 = spec_fixed_pow_int(base, next)->0;
    assert(0 <= p1 <= SCALE);
    if epoch == 0 {
        lemma_fixed_mul_nonneg(c.initial_rate.0, p1);
    } else {
        let p0 = spec_fixed_pow_int(base, epoch)->0;
        lemma_fixed_mul_mono(c.initial_rate.0, c.initial_rate.0, p1, p0);
    }
}

/// Epoch rates never grow: with valid parameters a later epoch's rate is at
/// most an earlier one's.
pub proof fn lemma_epoch_rate_monotone(c: StakingConfig, e1: u32, e2: u32)
    requires
        valid_rate_params(c),
        e1 <= e2,
    ensures
        0 <= spec_rate_value(c, e2) <= spec_rate_value(c, e1) <= c.initial_rate.0,
    decreases e2 - e1,
{
    lemma_epoch_rate_valid(c, e1);
    lemma_epoch_rate_valid(c, e2);
    if e1 < e2 {
        lemma_epoch_rate_monotone(c, e1, (e2 - 1) as u32);
        lemma_epoch_rate_step(c, (e2 - 1) as u32);
    }
}

/// The rate of `epoch` under valid parameters.
pub open spec fn spec_rate_value(c: StakingConfig, epoch: u32) -> i128 {
    match spec_epoch_rate(c.initial_rate.0, c.epoch_decay_percent.0, epoch) {
        Ok(r) => r,
        Err(_) => 0,
    }
}

// ── Compounding multiplier ────────────────────────────────────

/// The compounding factor accumulated over epochs `epoch..=e2`, for the
/// blocks of `(t1e, t2e]` that fall in each: the running product is multiplied
/// by `exp(rate * blocks)` per epoch, every step in fixed point.
pub open spec fn spec_mult_from(c: StakingConfig, t1e: u32, t2e: u32, epoch: int, e2: int, mult: i128) -> Result<i128, ContractError>
    decreases e2 + 1 - epoch,
{
    if epoch > e2 || epoch < 0 || epoch > u32::MAX {
        Ok(mult)
    } else {
        match spec_epoch_rate(c.initial_rate.0, c.epoch_decay_percent.0, epoch as u32) {
            Err(e) => Err(e),
            Ok(rate) => {
                let es = c.start_block + epoch * c.epoch_length;
                let ee = es + c.epoch_length;
                let os = if t1e > es { t1e as int } else { es };
                let oe = if t2e < ee { t2e as int } else { ee };
                if oe > os {
                    let blocks_fixed = (oe - os) * SCALE;
                    match spec_fixed_mul(rate, blocks_fixed as i128) {
                        None => Err(ContractError::Overflow),
                        Some(x) => match spec_fixed_exp(x) {
                            None => Err(ContractError::Overflow),
                            Some(f) => match spec_fixed_mul(mult, f) {
                                None => Err(ContractError::Overflow),
                                Some(m2) => spec_mult_from(c, t1e, t2e, epoch + 1, e2, m2),
                            },
                        },
                    }
                } else {
                    spec_mult_from(c, t1e, t2e, epoch + 1, e2, mult)
                }
            },
        }
    }
}

pub open spec fn max_u32(a: u32, b: u32) -> u32 {
    if a > b { a } else { b }
}

/// The factor by which a position grows between blocks `t1` and `t2`: one
/// before `t2` passes `t1` or the start block, else the product over the
/// epochs that `(max(t1, start), max(t2, start)]` meets.
pub open spec fn spec_multiplier(c: StakingConfig, t1: u32, t2: u32) -> Result<i128, ContractError> {
    if t2 <= t1 {
        Ok(SCALE)
    } else {
        let t1e = max_u32(t1, c.start_block);
        let t2e = max_u32(t2, c.start_block);
        if t2e <= t1e {
            Ok(SCALE)
        } else {
            let e1 = spec_epoch_for_block(c.start_block, c.epoch_length, t1e);
            let e2 = spec_epoch_for_block(c.start_block, c.epoch_length, t2e);
            spec_mult_from(c, t1e, t2e, e1 as int, e2 as int, SCALE)
        }
    }
}

/// Computing the multiplier over `(t1, t2]` runs past the largest block
/// number: the epoch that holds `t2` is the last `u32` epoch, so numbering
/// the epoch after it overflows; or the end of that epoch does not fit in a
/// `u32`, which is reached only when every earlier epoch's factor was
/// computed.
pub open spec fn spec_multiplier_panics(c: StakingConfig, t1: u32, t2: u32) -> bool {
    let t1e = max_u32(t1, c.start_block);
    let t2e = max_u32(t2, c.start_block);
    let e1 = spec_epoch_for_block(c.start_block, c.epoch_length, t1e);
    let e2 = spec_epoch_for_block(c.start_block, c.epoch_length, t2e);
    &&& t2 > t1
    &&& t2e > t1e
    &&& (e2 == u32::MAX || (c.start_block + e2 * c.epoch_length + c.epoch_length > u32::MAX
        && spec_mult_from(c, t1e, t2e, e1 as int, e2 - 1, SCALE) is Ok))
}

fn multiply_amount(amount: i128, multiplier: Fixed) -> (r: Result<i128, ContractError>)
    requires
        amount != i128::MIN,
        multiplier.0 != i128::MIN,
    ensures
        r == (match spec_mul_div(amount as int, multiplier.0 as int, SCALE as int) {
            Some(v) => Ok(v),
            None => Err(ContractError::Overflow),
        }),
{
    match mul_div(amount, multiplier.0, SCALE) {
        Some(v) => Ok(v),
        None => Err(ContractError::Overflow),
    }
}

// ── Positions ─────────────────────────────────────────────────

/// The entry for `key`, if any.
pub open spec fn lookup(m: Map<u64, UserStakingState>, key: u64) -> Option<UserStakingState> {
    if m.contains_key(key) {
        Some(m[key])
    } else {
        None
    }
}

/// Principal staked by `user`; zero without a position.
pub open spec fn staked_of(m: Map<u64, UserStakingState>, user: u64) -> int {
    if m.contains_key(user) {
        m[user].staked_amount as int
    } else {
        0
    }
}

/// The stored position, or a fresh empty one whose clock starts at
/// `max(t, start_block)`.
pub open spec fn position_or_new(c: StakingConfig, st: Option<UserStakingState>, t: u32) -> UserStakingState {
    match st {
        Some(s) => s,
        None => UserStakingState {
            staked_amount: 0,
            accrued_rewards: 0,
            last_update_block: max_u32(t, c.start_block),
        },
    }
}

/// Brings a position up to block `t`: a position with stake grows as the
/// virtual balance `stake + rewards` times the multiplier since its last
/// update, the growth going to rewards; its clock moves to `max(t, start)`.
pub open spec fn spec_accrue(c: StakingConfig, st: UserStakingState, t: u32) -> Result<UserStakingState, ContractError> {
    let accrued: Result<i128, ContractError> = if st.staked_amount > 0 && t > st.last_update_block {
        match spec_multiplier(c, st.last_update_block, t) {
            Err(e) => Err(e),
            Ok(m) => {
                let v_old = st.staked_amount + st.accrued_rewards;
                if v_old > i128::MAX || v_old < i128::MIN {
                    Err(ContractError::Overflow)
                } else {
                    match spec_mul_div(v_old, m as int, SCALE as int) {
                        None => Err(ContractError::Overflow),
                        Some(v_new) => if v_new - st.staked_amount > i128::MAX || v_new - st.staked_amount < i128::MIN {
                            Err(ContractError::Overflow)
                        } else {
                            Ok((v_new - st.staked_amount) as i128)
                        },
                    }
                }
            },
        }
    } else {
        Ok(st.accrued_rewards)
    };
    match accrued {
        Err(e) => Err(e),
        Ok(a) => Ok(UserStakingState {
            staked_amount: st.staked_amount,
            accrued_rewards: a,
            last_update_block: max_u32(t, c.start_block),
        }),
    }
}

/// A user's position brought up to block `t`.
pub open spec fn spec_update(c: StakingConfig, st: Option<UserStakingState>, t: u32) -> Result<UserStakingState, ContractError> {
    spec_accrue(c, position_or_new(c, st, t), t)
}

/// Bringing the position up to block `t` runs past the largest block number.
pub open spec fn spec_accrual_panics(c: StakingConfig, st: Option<UserStakingState>, t: u32) -> bool {
    let p = position_or_new(c, st, t);
    &&& p.staked_amount > 0
    &&& t > p.last_update_block
    &&& spec_multiplier_panics(c, p.last_update_block, t)
}

// ── Entry points ──────────────────────────────────────────────

/// The configuration `initialize` stores, or why it refuses.
pub open spec fn spec_initialize(
    current: Option<StakingConfig>,
    owner: u64,
    staking_token: u64,
    reward_token: u64,
    initial_rate: i128,
    epoch_decay_percent: i128,
    epoch_length: u32,
    start_block: u32,
) -> Result<StakingConfig, ContractError> {
    if current is Some {
        Err(ContractError::AlreadyInitialized)
    } else if epoch_decay_percent < 0 || epoch_decay_percent > SCALE {
        Err(ContractError::InvalidInput)
    } else if epoch_length == 0 {
        Err(ContractError::InvalidInput)
    } else if initial_rate < 0 {
        Err(ContractError::InvalidInput)
    } else {
        Ok(StakingConfig {
            owner,
            staking_token,
            reward_token,
            initial_rate: Fixed(initial_rate),
            epoch_decay_percent: Fixed(epoch_decay_percent),
            epoch_length,
            start_block,
            is_paused: false,
        })
    }
}

/// Positions and total stake after `user` stakes `amount` at block `t`.
pub open spec fn spec_stake(
    config: Option<StakingConfig>,
    users: Map<u64, UserStakingState>,
    total: i128,
    user: u64,
    amount: i128,
    t: u32,
) -> Result<(Map<u64, UserStakingState>, i128), ContractError> {
    match config {
        None => Err(ContractError::NotInitialized),
        Some(c) => if c.is_paused {
            Err(ContractError::Paused)
        } else if amount <= 0 {
            Err(ContractError::InvalidInput)
        } else {
            match spec_update(c, lookup(users, user), t) {
                Err(e) => Err(e),
                Ok(st) => if st.staked_amount + amount > i128::MAX {
                    Err(ContractError::Overflow)
                } else if total + amount > i128::MAX {
                    Err(ContractError::Overflow)
                } else {
                    Ok((
                        users.insert(user, UserStakingState { staked_amount: (st.staked_amount + amount) as i128, ..st }),
                        (total + amount) as i128,
                    ))
                },
            }
        },
    }
}

/// Positions and total stake after `user` withdraws `amount` at block `t`;
/// a position left with neither stake nor rewards is removed.
pub open spec fn spec_withdraw(
    config: Option<StakingConfig>,
    users: Map<u64, UserStakingState>,
    total: i128,
    user: u64,
    amount: i128,
    t: u32,
) -> Result<(Map<u64, UserStakingState>, i128), ContractError> {
    match config {
        None => Err(ContractError::NotInitialized),
        Some(c) => if c.is_paused {
            Err(ContractError::Paused)
        } else if amount <= 0 {
            Err(ContractError::InvalidInput)
        } else {
            match spec_update(c, lookup(users, user), t) {
                Err(e) => Err(e),
                Ok(st) => if st.staked_amount < amount {
                    Err(ContractError::InsufficientBalance)
                } else if total - amount < i128::MIN {
                    Err(ContractError::Overflow)
                } else {
                    let left = UserStakingState { staked_amount: (st.staked_amount - amount) as i128, ..st };
                    Ok((
                        if left.staked_amount == 0 && left.accrued_rewards == 0 {
                            users.remove(user)
                        } else {
                            users.insert(user, left)
                        },
                        (total - amount) as i128,
                    ))
                },
            }
        },
    }
}

/// Positions after `user` claims at block `t`, and the rewards paid out.
/// Nothing is paid, and nothing stored, when no rewards have accrued.
pub open spec fn spec_claim(
    config: Option<StakingConfig>,
    users: Map<u64, UserStakingState>,
    user: u64,
    t: u32,
) -> Result<(Map<u64, UserStakingState>, i128), ContractError> {
    match config {
        None => Err(ContractError::NotInitialized),
        Some(c) => if c.is_paused {
            Err(ContractError::Paused)
        } else {
            match spec_update(c, lookup(users, user), t) {
                Err(e) => Err(e),
                Ok(st) => if st.accrued_rewards <= 0 {
                    Ok((users, 0))
                } else {
                    Ok((
                        if st.staked_amount == 0 {
                            users.remove(user)
                        } else {
                            users.insert(user, UserStakingState { accrued_rewards: 0, ..st })
                        },
                        st.accrued_rewards,
                    ))
                },
            }
        },
    }
}

/// Positions, total stake and the principal returned when `user` pulls out
/// all principal and forfeits all rewards: the position is removed, the
/// total drops by its stake, and that stake is paid out when positive.
pub open spec fn spec_emergency_withdraw(
    config: Option<StakingConfig>,
    users: Map<u64, UserStakingState>,
    total: i128,
    user: u64,
) -> Result<(Map<u64, UserStakingState>, i128, i128), ContractError> {
    match config {
        None => Err(ContractError::NotInitialized),
        Some(c) => if !users.contains_key(user) {
            Ok((users, total, 0))
        } else {
            let staked = users[user].staked_amount;
            if total - staked < i128::MIN || total - staked > i128::MAX {
                Err(ContractError::Overflow)
            } else if staked <= 0 {
                Ok((users.remove(user), (total - staked) as i128, 0))
            } else {
                Ok((users.remove(user), (total - staked) as i128, staked))
            }
        },
    }
}

/// Rewards `user` would hold if brought up to block `t`; the stored rewards
/// when that cannot be computed.
pub open spec fn spec_pending_rewards(config: Option<StakingConfig>, users: Map<u64, UserStakingState>, user: u64, t: u32) -> i128 {
    match config {
        None => 0,
        Some(c) => if !users.contains_key(user) {
            0
        } else {
            let st = users[user];
            if st.staked_amount > 0 && t > st.last_update_block {
                match spec_multiplier(c, st.last_update_block, t) {
                    Err(_) => st.accrued_rewards,
                    Ok(m) => {
                        let v_old = st.staked_amount + st.accrued_rewards;
                        if v_old > i128::MAX || v_old < i128::MIN {
                            st.accrued_rewards
                        } else {
                            match spec_mul_div(v_old, m as int, SCALE as int) {
                                None => st.accrued_rewards,
                                Some(v_new) => if v_new - st.staked_amount > i128::MAX || v_new - st.staked_amount < i128::MIN {
                                    st.accrued_rewards
                                } else {
                                    (v_new - st.staked_amount) as i128
                                },
                            }
                        }
                    },
                }
            } else {
                st.accrued_rewards
            }
        },
    }
}

// ── Laws ──────────────────────────────────────────────────────

/// Every position holds non-negative principal and rewards.
pub open spec fn positions_nonneg(users: Map<u64, UserStakingState>) -> bool {
    forall|u: u64| #[trigger] users.contains_key(u) ==> users[u].staked_amount >= 0 && users[u].accrued_rewards >= 0
}

/// Staking changes the total exactly as much as the staker's principal, by
/// `amount`, and leaves every other position as it was.
pub proof fn lemma_stake_conserves_total(
    config: Option<StakingConfig>,
    users: Map<u64, UserStakingState>,
    total: i128,
    user: u64,
    amount: i128,
    t: u32,
)
    requires
        spec_stake(config, users, total, user, amount, t) is Ok,
    ensures
        ({
            let (users2, total2) = spec_stake(config, users, total, user, amount, t)->Ok_0;
            &&& total2 - total == amount
            &&& staked_of(users2, user) - staked_of(users, user) == amount
            &&& forall|other: u64| other != user ==> #[trigger] lookup(users2, other) == lookup(users, other)
        }),
{
}

/// Withdrawing changes the total exactly as much as the user's principal,
/// by `-amount`, and leaves every other position as it was.
pub proof fn lemma_withdraw_conserves_total(
    config: Option<StakingConfig>,
    users: Map<u64, UserStakingState>,
    total: i128,
    user: u64,
    amount: i128,
    t: u32,
)
    requires
        spec_withdraw(config, users, total, user, amount, t) is Ok,
    ensures
        ({
            let (users2, total2) = spec_withdraw(config, users, total, user, amount, t)->Ok_0;
            &&& total2 - total == -amount
            &&& staked_of(users2, user) - staked_of(users, user) == -amount
            &&& forall|other: u64| other != user ==> #[trigger] lookup(users2, other) == lookup(users, other)
        }),
{
}

/// Claiming moves no principal: every position keeps its stake.
pub proof fn lemma_claim_keeps_stakes(config: Option<StakingConfig>, users: Map<u64, UserStakingState>, user: u64, t: u32)
    requires
        spec_claim(config, users, user, t) is Ok,
    ensures
        ({
            let (users2, _) = spec_claim(config, users, user, t)->Ok_0;
            &&& forall|u: u64| #[trigger] staked_of(users2, u) == staked_of(users, u)
            &&& forall|other: u64| other != user ==> #[trigger] lookup(users2, other) == lookup(users, other)
        }),
{
}

/// An emergency withdrawal pays out exactly the principal it removes from
/// the total and from the position, and leaves every other position as it
/// was.
pub proof fn lemma_emergency_withdraw_conserves_total(
    config: Option<StakingConfig>,
    users: Map<u64, UserStakingState>,
    total: i128,
    user: u64,
)
    requires
        positions_nonneg(users),
        spec_emergency_withdraw(config, users, total, user) is Ok,
    ensures
        ({
            let (users2, total2, paid) = spec_emergency_withdraw(config, users, total, user)->Ok_0;
            &&& total2 - total == -paid
            &&& staked_of(users2, user) - staked_of(users, user) == -paid
            &&& lookup(users2, user) is None
            &&& forall|other: u64| other != user ==> #[trigger] lookup(users2, other) == lookup(users, other)
        }),
{
}

/// Principal summed over all positions of a finite map.
pub open spec fn stake_sum(m: Map<u64, UserStakingState>) -> int
    decreases m.dom().len(),
{
    if m.dom().finite() && m.dom().len() > 0 {
        let k = m.dom().choose();
        proof {
            vstd::set_lib::lemma_set_empty_equivalency_len(m.dom());
        }
        m[k].staked_amount + stake_sum(m.remove(k))
    } else {
        0
    }
}

proof fn lemma_stake_sum_remove(m: Map<u64, UserStakingState>, k: u64)
    requires
        m.dom().finite(),
        m.contains_key(k),
    ensures
        stake_sum(m) == m[k].staked_amount + stake_sum(m.remove(k)),
    decreases m.dom().len(),
{
    vstd::set_lib::lemma_set_empty_equivalency_len(m.dom());
    let c = m.dom().choose();
    if c != k {
        lemma_stake_sum_remove(m.remove(c), k);
        lemma_stake_sum_remove(m.remove(k), c);
        assert(m.remove(c).remove(k) =~= m.remove(k).remove(c));
    }
}

proof fn lemma_stake_sum_insert(m: Map<u64, UserStakingState>, k: u64, v: UserStakingState)
    requires
        m.dom().finite(),
    ensures
        m.insert(k, v).dom().finite(),
        stake_sum(m.insert(k, v)) == stake_sum(m) - staked_of(m, k) + v.staked_amount,
{
    let m2 = m.insert(k, v);
    lemma_stake_sum_remove(m2, k);
    if m.contains_key(k) {
        lemma_stake_sum_remove(m, k);
        assert(m2.remove(k) =~= m.remove(k));
    } else {
        assert(m2.remove(k) =~= m);
    }
}

proof fn lemma_stake_sum_remove_any(m: Map<u64, UserStakingState>, k: u64)
    requires
        m.dom().finite(),
    ensures
        m.remove(k).dom().finite(),
        stake_sum(m.remove(k)) == stake_sum(m) - staked_of(m, k),
{
    if m.contains_key(k) {
        lemma_stake_sum_remove(m, k);
    } else {
        assert(m.remove(k) =~= m);
    }
}

proof fn lemma_update_keeps_stake(c: StakingConfig, st: Option<UserStakingState>, t: u32)
    ensures
        spec_update(c, st, t) matches Ok(s) ==> s.staked_amount == (match st {
            Some(p) => p.staked_amount,
            None => 0,
        }),
{
}

/// The total staked is the principal summed over all positions, and every
/// operation keeps it so: starting from a total equal to that sum, a
/// successful stake, withdrawal, claim or emergency withdrawal leaves a total
/// equal to the new sum.
pub proof fn lemma_total_tracks_positions(
    config: Option<StakingConfig>,
    users: Map<u64, UserStakingState>,
    total: i128,
    user: u64,
    amount: i128,
    t: u32,
)
    requires
        users.dom().finite(),
        positions_nonneg(users),
        total == stake_sum(users),
    ensures
        stake_sum(Map::<u64, UserStakingState>::empty()) == 0,
        spec_stake(config, users, total, user, amount, t) matches Ok((users2, total2)) ==> users2.dom().finite()
            && total2 == stake_sum(users2),
        spec_withdraw(config, users, total, user, amount, t) matches Ok((users2, total2)) ==> users2.dom().finite()
            && total2 == stake_sum(users2),
        spec_claim(config, users, user, t) matches Ok((users2, _)) ==> users2.dom().finite() && total == stake_sum(
            users2,
        ),
        spec_emergency_withdraw(config, users, total, user) matches Ok((users2, total2, _)) ==> users2.dom().finite()
            && total2 == stake_sum(users2),
{
    assert(Map::<u64, UserStakingState>::empty().dom() =~= Set::<u64>::empty());
    if let Some(c) = config {
        lemma_update_keeps_stake(c, lookup(users, user), t);
        if let Ok(st) = spec_update(c, lookup(users, user), t) {
            let staked = UserStakingState { staked_amount: (st.staked_amount + amount) as i128, ..st };
            lemma_stake_sum_insert(users, user, staked);
            let left = UserStakingState { staked_amount: (st.staked_amount - amount) as i128, ..st };
            lemma_stake_sum_insert(users, user, left);
            lemma_stake_sum_insert(users, user, UserStakingState { accrued_rewards: 0, ..st });
            lemma_stake_sum_remove_any(users, user);
        }
        lemma_stake_sum_remove_any(users, user);
    }
}

/// Rewards stored for `user`; zero without a position.
pub open spec fn accrued_of(m: Map<u64, UserStakingState>, user: u64) -> int {
    if m.contains_key(user) {
        m[user].accrued_rewards as int
    } else {
        0
    }
}

/// Withdrawing what was just staked, at the same block, undoes the stake:
/// the withdrawal succeeds, the total and the user's principal are back to
/// what they were, the user keeps the rewards the stake brought up to date
/// (the pending rewards before the stake), and every other position is as
/// it was.
pub proof fn lemma_stake_then_withdraw(
    config: Option<StakingConfig>,
    users: Map<u64, UserStakingState>,
    total: i128,
    user: u64,
    amount: i128,
    t: u32,
)
    requires
        positions_nonneg(users),
        spec_stake(config, users, total, user, amount, t) is Ok,
    ensures
        ({
            let (users1, total1) = spec_stake(config, users, total, user, amount, t)->Ok_0;
            spec_withdraw(config, users1, total1, user, amount, t) matches Ok((users2, total2)) && {
                &&& total2 == total
                &&& staked_of(users2, user) == staked_of(users, user)
                &&& accrued_of(users2, user) == accrued_of(users1, user)
                &&& accrued_of(users2, user) == spec_pending_rewards(config, users, user, t)
                &&& forall|other: u64| other != user ==> #[trigger] lookup(users2, other) == lookup(users, other)
            }
        }),
{
    let c = config->0;
    lemma_update_keeps_stake(c, lookup(users, user), t);
    let st = spec_update(c, lookup(users, user), t)->Ok_0;
    let st1 = UserStakingState { staked_amount: (st.staked_amount + amount) as i128, ..st };
    let (users1, total1) = spec_stake(config, users, total, user, amount, t)->Ok_0;
    assert(users1 == users.insert(user, st1));
    assert(lookup(users1, user) == Some(st1));
    assert(st1.last_update_block == max_u32(t, c.start_block));
    assert(spec_update(c, lookup(users1, user), t) == Ok::<UserStakingState, ContractError>(st1));
    assert(accrued_of(users1, user) == st.accrued_rewards);
    if users.contains_key(user) {
        assert(spec_update(c, lookup(users, user), t) == spec_accrue(c, users[user], t));
    }
    assert(st.accrued_rewards == spec_pending_rewards(config, users, user, t));
    let left = UserStakingState { staked_amount: st.staked_amount, ..st1 };
    let users2 = if left.staked_amount == 0 && left.accrued_rewards == 0 {
        users1.remove(user)
    } else {
        users1.insert(user, left)
    };
    assert(spec_withdraw(config, users1, total1, user, amount, t) == Ok::<(Map<u64, UserStakingState>, i128), ContractError>((users2, total)));
    assert(staked_of(users, user) == st.staked_amount);
    assert(staked_of(users2, user) == st.staked_amount);
    assert(accrued_of(users2, user) == st.accrued_rewards);
    assert forall|other: u64| other != user implies #[trigger] lookup(users2, other) == lookup(users, other) by {
        assert(lookup(users1, other) == lookup(users, other));
    }
}

/// Claiming twice at the same block pays nothing the second time and
/// changes nothing.
pub proof fn lemma_claim_idempotent(config: Option<StakingConfig>, users: Map<u64, UserStakingState>, user: u64, t: u32)
    requires
        spec_claim(config, users, user, t) is Ok,
    ensures
        ({
            let (users1, _) = spec_claim(config, users, user, t)->Ok_0;
            spec_claim(config, users1, user, t) == Ok::<(Map<u64, UserStakingState>, i128), ContractError>((users1, 0))
        }),
{
}

/// A claim pays out exactly the pending rewards when they are positive, and
/// nothing otherwise.
pub proof fn lemma_claim_pays_pending(config: Option<StakingConfig>, users: Map<u64, UserStakingState>, user: u64, t: u32)
    requires
        spec_claim(config, users, user, t) is Ok,
    ensures
        ({
            let (_, paid) = spec_claim(config, users, user, t)->Ok_0;
            let pending = spec_pending_rewards(config, users, user, t);
            paid == if pending > 0 { pending } else { 0 }
        }),
{
}

proof fn lemma_mult_from_ge_one(c: StakingConfig, t1e: u32, t2e: u32, epoch: int, e2: int, mult: i128)
    requires
        valid_rate_params(c),
        mult >= SCALE,
    ensures
        spec_mult_from(c, t1e, t2e, epoch, e2, mult) matches Ok(m) ==> m >= SCALE,
    decreases e2 + 1 - epoch,
{
    if !(epoch > e2 || epoch < 0 || epoch > u32::MAX) {
        lemma_epoch_rate_valid(c, epoch as u32);
        let rate = spec_rate_value(c, epoch as u32);
        let es = c.start_block + epoch * c.epoch_length;
        let ee = es + c.epoch_length;
        let os = if t1e > es { t1e as int } else { es };
        let oe = if t2e < ee { t2e as int } else { ee };
        if oe > os {
            let blocks_fixed = (oe - os) * SCALE;
            assert(0 < blocks_fixed <= i128::MAX) by (nonlinear_arith)
                requires blocks_fixed == (oe - os) * SCALE, oe - os > 0, oe - os <= 0x1_0000_0000int;
            lemma_fixed_mul_nonneg(rate, blocks_fixed as i128);
            match spec_fixed_mul(rate, blocks_fixed as i128) {
                None => {},
                Some(x) => {
                    lemma_fixed_exp_ge_one(x);
                    match spec_fixed_exp(x) {
                        None => {},
                        Some(f) => {
                            lemma_fixed_mul_nonneg(mult, f);
                            match spec_fixed_mul(mult, f) {
                                None => {},
                                Some(m2) => {
                                    lemma_mult_from_ge_one(c, t1e, t2e, epoch + 1, e2, m2);
                                },
                            }
                        },
                    }
                },
            }
        } else {
            lemma_mult_from_ge_one(c, t1e, t2e, epoch + 1, e2, mult);
        }
    }
}

/// One epoch's contribution to the multiplier fold (see `spec_mult_from`).
spec fn mult_step(c: StakingConfig, t1e: u32, t2e: u32, epoch: int, mult: i128) -> Result<i128, ContractError> {
    match spec_epoch_rate(c.initial_rate.0, c.epoch_decay_percent.0, epoch as u32) {
        Err(e) => Err(e),
        Ok(rate) => {
            let es = c.start_block + epoch * c.epoch_length;
            let ee = es + c.epoch_length;
            let os = if t1e > es { t1e as int } else { es };
            let oe = if t2e < ee { t2e as int } else { ee };
            if oe > os {
                let blocks_fixed = (oe - os) * SCALE;
                match spec_fixed_mul(rate, blocks_fixed as i128) {
                    None => Err(ContractError::Overflow),
                    Some(x) => match spec_fixed_exp(x) {
                        None => Err(ContractError::Overflow),
                        Some(f) => match spec_fixed_mul(mult, f) {
                            None => Err(ContractError::Overflow),
                            Some(m2) => Ok(m2),
                        },
                    },
                }
            } else {
                Ok(mult)
            }
        },
    }
}

proof fn lemma_mult_from_unfold(c: StakingConfig, t1e: u32, t2e: u32, lo: int, hi: int, m: i128)
    requires
        0 <= lo <= hi,
        lo <= u32::MAX,
    ensures
        spec_mult_from(c, t1e, t2e, lo, hi, m) == (match mult_step(c, t1e, t2e, lo, m) {
            Err(e) => Err(e),
            Ok(m2) => spec_mult_from(c, t1e, t2e, lo + 1, hi, m2),
        }),
{
}

proof fn lemma_mult_from_last(c: StakingConfig, t1e: u32, t2e: u32, lo: int, hi: int, m: i128)
    requires
        0 <= lo <= hi <= u32::MAX,
    ensures
        spec_mult_from(c, t1e, t2e, lo, hi, m) == (match spec_mult_from(c, t1e, t2e, lo, hi - 1, m) {
            Err(e) => Err(e),
            Ok(m1) => mult_step(c, t1e, t2e, hi, m1),
        }),
    decreases hi - lo,
{
    lemma_mult_from_unfold(c, t1e, t2e, lo, hi, m);
    if lo == hi {
        match mult_step(c, t1e, t2e, hi, m) {
            Err(_) => {},
            Ok(m2) => {
                assert(spec_mult_from(c, t1e, t2e, hi + 1, hi, m2) == Ok::<i128, ContractError>(m2));
            },
        }
    } else {
        lemma_mult_from_unfold(c, t1e, t2e, lo, hi - 1, m);
        match mult_step(c, t1e, t2e, lo, m) {
            Err(_) => {},
            Ok(m2) => {
                lemma_mult_from_last(c, t1e, t2e, lo + 1, hi, m2);
            },
        }
    }
}

proof fn lemma_mult_step_same_end(c: StakingConfig, t1e: u32, t2a: u32, t2b: u32, epoch: int, m: i128)
    requires
        0 <= epoch,
        c.start_block + (epoch + 1) * c.epoch_length <= t2a,
        c.start_block + (epoch + 1) * c.epoch_length <= t2b,
    ensures
        mult_step(c, t1e, t2a, epoch, m) == mult_step(c, t1e, t2b, epoch, m),
{
    assert((epoch + 1) * c.epoch_length == epoch * c.epoch_length + c.epoch_length) by (nonlinear_arith);
}

proof fn lemma_mult_from_same_end(c: StakingConfig, t1e: u32, t2a: u32, t2b: u32, lo: int, hi: int, m: i128)
    requires
        0 <= lo,
        hi <= u32::MAX,
        c.start_block + (hi + 1) * c.epoch_length <= t2a,
        c.start_block + (hi + 1) * c.epoch_length <= t2b,
    ensures
        spec_mult_from(c, t1e, t2a, lo, hi, m) == spec_mult_from(c, t1e, t2b, lo, hi, m),
    decreases hi + 1 - lo,
{
    if lo <= hi {
        lemma_mult_from_unfold(c, t1e, t2a, lo, hi, m);
        lemma_mult_from_unfold(c, t1e, t2b, lo, hi, m);
        assert((lo + 1) * c.epoch_length <= (hi + 1) * c.epoch_length) by (nonlinear_arith)
            requires lo <= hi;
        lemma_mult_step_same_end(c, t1e, t2a, t2b, lo, m);
        match mult_step(c, t1e, t2a, lo, m) {
            Err(_) => {},
            Ok(m2) => {
                lemma_mult_from_same_end(c, t1e, t2a, t2b, lo + 1, hi, m2);
            },
        }
    }
}

/// Blocks from the start block on fall in the epoch `spec_epoch_for_block`
/// gives: that epoch starts at or before the block and ends after it.
proof fn lemma_epoch_bounds(c: StakingConfig, t: u32)
    requires
        c.epoch_length > 0,
        t >= c.start_block,
    ensures
        ({
            let e = spec_epoch_for_block(c.start_block, c.epoch_length, t);
            &&& c.start_block + e * c.epoch_length <= t
            &&& t < c.start_block + e * c.epoch_length + c.epoch_length
        }),
{
    if t > c.start_block {
        let x = (t - c.start_block) as int;
        let len = c.epoch_length as int;
        vstd::arithmetic::div_mod::lemma_fundamental_div_mod(x, len);
        assert(len * (x / len) == (x / len) * len) by (nonlinear_arith);
    }
}

/// e^(rate · blocks) in fixed point, as an epoch's factor is computed.
pub open spec fn growth(rate: i128, blocks: int) -> Option<i128> {
    match spec_fixed_mul(rate, (blocks * SCALE) as i128) {
        None => None,
        Some(x) => spec_fixed_exp(x),
    }
}

/// Within one epoch the multiplier is the exponential growth at that
/// epoch's own rate: when `(t1, t2]` (both moved up to the start block)
/// lies inside epoch `e`, the multiplier is e^(rate(e) · (t2 - t1)).
pub proof fn lemma_multiplier_within_epoch(c: StakingConfig, t1: u32, t2: u32)
    requires
        valid_rate_params(c),
        max_u32(t1, c.start_block) < max_u32(t2, c.start_block),
        spec_epoch_for_block(c.start_block, c.epoch_length, max_u32(t1, c.start_block)) == spec_epoch_for_block(
            c.start_block,
            c.epoch_length,
            max_u32(t2, c.start_block),
        ),
    ensures
        ({
            let t1e = max_u32(t1, c.start_block);
            let t2e = max_u32(t2, c.start_block);
            let e = spec_epoch_for_block(c.start_block, c.epoch_length, t2e);
            spec_multiplier(c, t1, t2) == (match growth(spec_rate_value(c, e), t2e - t1e) {
                Some(f) => Ok(f),
                None => Err(ContractError::Overflow),
            })
        }),
{
    let t1e = max_u32(t1, c.start_block);
    let t2e = max_u32(t2, c.start_block);
    let e = spec_epoch_for_block(c.start_block, c.epoch_length, t2e);
    lemma_epoch_bounds(c, t1e);
    lemma_epoch_bounds(c, t2e);
    lemma_epoch_rate_valid(c, e);
    lemma_mult_from_unfold(c, t1e, t2e, e as int, e as int, SCALE);
    let rate = spec_rate_value(c, e);
    let blocks = t2e - t1e;
    assert(0 < blocks * SCALE <= i128::MAX) by (nonlinear_arith)
        requires 0 < blocks <= 0xffff_ffffint;
    lemma_fixed_mul_nonneg(rate, (blocks * SCALE) as i128);
    match growth(rate, blocks) {
        None => {},
        Some(f) => {
            lemma_fixed_exp_ge_one(spec_fixed_mul(rate, (blocks * SCALE) as i128)->0);
            lemma_fixed_mul_one_left(f);
            assert(spec_mult_from(c, t1e, t2e, e + 1, e as int, f) == Ok::<i128, ContractError>(f));
        },
    }
}

/// The multiplier carries across epoch boundaries with each epoch's own
/// rate: when `(t1, t2]` reaches past the start `b` of the epoch that holds
/// `t2`, the multiplier is the one up to `b`, times e^(rate · (t2 - b)) at
/// the rate of that last epoch.
pub proof fn lemma_multiplier_last_epoch(c: StakingConfig, t1: u32, t2: u32)
    requires
        valid_rate_params(c),
        ({
            let t1e = max_u32(t1, c.start_block);
            let t2e = max_u32(t2, c.start_block);
            let e2 = spec_epoch_for_block(c.start_block, c.epoch_length, t2e);
            t1e < c.start_block + e2 * c.epoch_length < t2e
        }),
    ensures
        ({
            let t1e = max_u32(t1, c.start_block);
            let t2e = max_u32(t2, c.start_block);
            let e2 = spec_epoch_for_block(c.start_block, c.epoch_length, t2e);
            let b = c.start_block + e2 * c.epoch_length;
            spec_multiplier(c, t1, t2) == (match spec_multiplier(c, t1, b as u32) {
                Err(err) => Err(err),
                Ok(m) => match growth(spec_rate_value(c, e2), t2e - b) {
                    None => Err(ContractError::Overflow),
                    Some(f) => match spec_fixed_mul(m, f) {
                        None => Err(ContractError::Overflow),
                        Some(m2) => Ok(m2),
                    },
                },
            })
        }),
{
    let start = c.start_block;
    let len = c.epoch_length;
    let t1e = max_u32(t1, start);
    let t2e = max_u32(t2, start);
    let e1 = spec_epoch_for_block(start, len, t1e);
    let e2 = spec_epoch_for_block(start, len, t2e);
    let b = start + e2 * len;
    let bu = b as u32;
    lemma_epoch_bounds(c, t1e);
    lemma_epoch_bounds(c, t2e);
    assert(e1 < e2) by (nonlinear_arith)
        requires start + e1 * len <= t1e, t1e < start + e2 * len;
    assert(bu > start);
    assert(spec_epoch_for_block(start, len, bu) == e2) by {
        vstd::arithmetic::div_mod::lemma_div_multiples_vanish(e2 as int, len as int);
        assert(len * e2 == e2 * len) by (nonlinear_arith);
    }
    assert(max_u32(bu, start) == bu);
    lemma_epoch_rate_valid(c, e2);
    // The fold up to t2 is the fold up to the epoch before e2, then e2's step.
    lemma_mult_from_last(c, t1e, t2e, e1 as int, e2 as int, SCALE);
    lemma_mult_from_last(c, t1e, bu, e1 as int, e2 as int, SCALE);
    lemma_mult_from_same_end(c, t1e, t2e, bu, e1 as int, e2 - 1, SCALE);
    let rate = spec_rate_value(c, e2);
    let blocks = t2e - b;
    assert(0 < blocks * SCALE <= i128::MAX) by (nonlinear_arith)
        requires 0 < blocks <= 0xffff_ffffint;
}

/// With valid parameters positions only grow: the multiplier is at least one.
pub proof fn lemma_multiplier_at_least_one(c: StakingConfig, t1: u32, t2: u32)
    requires
        valid_rate_params(c),
    ensures
        spec_multiplier(c, t1, t2) matches Ok(m) ==> m >= SCALE,
{
    let t1e = max_u32(t1, c.start_block);
    let t2e = max_u32(t2, c.start_block);
    let e1 = spec_epoch_for_block(c.start_block, c.epoch_length, t1e);
    let e2 = spec_epoch_for_block(c.start_block, c.epoch_length, t2e);
    lemma_mult_from_ge_one(c, t1e, t2e, e1 as int, e2 as int, SCALE);
}

/// Rewards never shrink: the pending rewards of a position with
/// non-negative principal and rewards are at least its stored rewards.
pub proof fn lemma_pending_at_least_accrued(config: Option<StakingConfig>, users: Map<u64, UserStakingState>, user: u64, t: u32)
    requires
        config matches Some(c) && valid_rate_params(c),
        positions_nonneg(users),
        users.contains_key(user),
    ensures
        spec_pending_rewards(config, users, user, t) >= users[user].accrued_rewards,
{
    let c = config->0;
    let st = users[user];
    if st.staked_amount > 0 && t > st.last_update_block {
        lemma_multiplier_at_least_one(c, st.last_update_block, t);
        match spec_multiplier(c, st.last_update_block, t) {
            Err(_) => {},
            Ok(m) => {
                let v_old = st.staked_amount + st.accrued_rewards;
                if !(v_old > i128::MAX || v_old < i128::MIN) {
                    lemma_fixed_mul_nonneg(v_old as i128, m);
                }
            },
        }
    }
}

// ── Stored state ──────────────────────────────────────────────

/// The contract's state as the host stores it between calls; epoch
/// snapshots are a cache and are rebuilt on demand.
pub struct StakingState {
    pub config: Option<StakingConfig>,
    pub total_staked: i128,
    pub users: Vec<(u64, UserStakingState)>,
}

/// The positions listed in `pairs`, a later entry for a user replacing an
/// earlier one.
pub open spec fn pairs_to_map(pairs: Seq<(u64, UserStakingState)>) -> Map<u64, UserStakingState>
    decreases pairs.len(),
{
    if pairs.len() == 0 {
        Map::empty()
    } else {
        pairs_to_map(pairs.drop_last()).insert(pairs.last().0, pairs.last().1)
    }
}

/// A stored state the contract can resume from: a configuration with valid
/// parameters, or none with no positions and no stake; no negative position.
pub open spec fn restorable(config: Option<StakingConfig>, total_staked: i128, users: Map<u64, UserStakingState>) -> bool {
    &&& match config {
        None => users.dom().is_empty() && total_staked == 0,
        Some(c) => valid_rate_params(c),
    }
    &&& positions_nonneg(users)
}

// ── Contract state ────────────────────────────────────────────

/// The staking contract's stored state.
pub struct StakingRewards {
    config: Option<StakingConfig>,
    total_staked: i128,
    /// Cached epoch snapshots; entry `i` is epoch `i`.
    snapshots: Vec<EpochSnapshot>,
    users: HashMap<u64, UserStakingState>,
}

impl StakingRewards {
    pub closed spec fn config_view(&self) -> Option<StakingConfig> {
        self.config
    }

    pub closed spec fn total_staked_view(&self) -> i128 {
        self.total_staked
    }

    pub closed spec fn users_view(&self) -> Map<u64, UserStakingState> {
        self.users@
    }

    /// The cached epoch snapshots; entry `i` is epoch `i`.
    pub closed spec fn snapshots_view(&self) -> Seq<EpochSnapshot> {
        self.snapshots@
    }

    /// Epoch snapshots cache the rate and start block of each epoch from 0 on.
    closed spec fn snapshots_wf(&self) -> bool {
        match self.config {
            None => self.snapshots@.len() == 0,
            Some(c) => {
                &&& self.snapshots@.len() >= 1
                &&& forall|i: int|
                    0 <= i < self.snapshots@.len() ==> {
                        &&& #[trigger] self.snapshots@[i].rate.0 == spec_rate_value(c, i as u32)
                        &&& self.snapshots@[i].start_block == c.start_block + i * c.epoch_length
                        &&& i <= u32::MAX
                    }
            },
        }
    }

    /// The state's invariant: a configuration only with valid parameters, no
    /// positions before it, and no position with negative stake or rewards.
    pub closed spec fn wf(&self) -> bool {
        &&& self.snapshots_wf()
        &&& match self.config {
            None => self.users@.dom().is_empty() && self.total_staked == 0,
            Some(c) => valid_rate_params(c),
        }
        &&& forall|u: u64| #[trigger]
            self.users@.contains_key(u) ==> self.users@[u].staked_amount >= 0
                && self.users@[u].accrued_rewards >= 0
    }

    /// An empty, uninitialized contract.
    pub fn new() -> (s: Self)
        ensures
            s.wf(),
            s.config_view() is None,
            s.total_staked_view() == 0,
            s.users_view().is_empty(),
    {
        StakingRewards { config: None, total_staked: 0, snapshots: Vec::new(), users: HashMap::new() }
    }

    /// Caches the snapshots of every epoch up to the one that holds
    /// `up_to_block`; snapshots already cached stay as they are, so a repeated
    /// call changes nothing.
    pub fn ensure_epoch_snapshots(&mut self, config: &StakingConfig, up_to_block: u32) -> (r: Result<(), ContractError>)
        requires
            old(self).wf(),
            old(self).config_view() == Some(*config),
            spec_epoch_for_block(config.start_block, config.epoch_length, up_to_block) < u32::MAX,
        ensures
            final(self).wf(),
            final(self).config_view() == old(self).config_view(),
            final(self).total_staked_view() == old(self).total_staked_view(),
            final(self).users_view() == old(self).users_view(),
            final(self).snapshots_view().len() == (if old(self).snapshots_view().len() > spec_epoch_for_block(
                config.start_block,
                config.epoch_length,
                up_to_block,
            ) {
                old(self).snapshots_view().len() as int
            } else {
                spec_epoch_for_block(config.start_block, config.epoch_length, up_to_block) + 1
            }),
            forall|i: int| 0 <= i < old(self).snapshots_view().len() ==> #[trigger] final(self).snapshots_view()[i] == old(self).snapshots_view()[i],
            forall|i: int|
                0 <= i < final(self).snapshots_view().len() ==> {
                    &&& #[trigger] final(self).snapshots_view()[i].rate.0 == spec_rate_value(*config, i as u32)
                    &&& final(self).snapshots_view()[i].start_block == config.start_block + i * config.epoch_length
                },
            r == Ok::<(), ContractError>(()),
    {
        let up_to_epoch = epoch_for_block(config.start_block, config.epoch_length, up_to_block);
        let mut epoch = 0u32;
        while epoch <= up_to_epoch
            invariant
                self.wf(),
                self.config == Some(*config),
                self.total_staked == old(self).total_staked,
                self.users@ == old(self).users@,
                up_to_epoch == spec_epoch_for_block(config.start_block, config.epoch_length, up_to_block),
                up_to_epoch < u32::MAX,
                epoch <= up_to_epoch + 1,
                self.snapshots@.len() >= epoch,
                self.snapshots@.len() == (if old(self).snapshots@.len() > epoch {
                    old(self).snapshots@.len() as int
                } else {
                    epoch as int
                }),
                forall|i: int| 0 <= i < old(self).snapshots@.len() ==> #[trigger] self.snapshots@[i] == old(self).snapshots@[i],
            decreases up_to_epoch + 1 - epoch,
        {
            if (epoch as usize) >= self.snapshots.len() {
                proof {
                    lemma_epoch_rate_valid(*config, epoch);
                    lemma_epoch_start_le_block(config.start_block, config.epoch_length, up_to_block, epoch);
                }
                let rate = compute_epoch_rate(&config.initial_rate, &config.epoch_decay_percent, epoch)?;
                let start = epoch_start_block(config.start_block, config.epoch_length, epoch);
                let ghost before = self.snapshots@;
                self.snapshots.push(EpochSnapshot { rate, start_block: start });
                proof {
                    assert(before.len() == epoch);
                    assert forall|i: int| 0 <= i < self.snapshots@.len() implies {
                        &&& #[trigger] self.snapshots@[i].rate.0 == spec_rate_value(*config, i as u32)
                        &&& self.snapshots@[i].start_block == config.start_block + i * config.epoch_length
                        &&& i <= u32::MAX
                    } by {
                        if i < before.len() {
                            assert(self.snapshots@[i] == before[i]);
                        }
                    }
                }
            }
            epoch += 1;
        }
        proof {
            assert forall|i: int| 0 <= i < self.snapshots@.len() implies {
                &&& #[trigger] self.snapshots@[i].rate.0 == spec_rate_value(*config, i as u32)
                &&& self.snapshots@[i].start_block == config.start_block + i * config.epoch_length
            } by {
                assert(self.snapshots_wf());
            }
            assert forall|i: int| 0 <= i < self.snapshots_view().len() implies {
                &&& #[trigger] self.snapshots_view()[i].rate.0 == spec_rate_value(*config, i as u32)
                &&& self.snapshots_view()[i].start_block == config.start_block + i * config.epoch_length
            } by {
                assert(self.snapshots_view()[i] == self.snapshots@[i]);
            }
        }
        Ok(())
    }

    fn get_epoch_rate(&self, epoch: u32) -> (r: Result<Fixed, ContractError>)
        requires
            self.wf(),
            self.config is Some,
        ensures
            (epoch as int) < self.snapshots@.len() ==> r == Ok::<Fixed, ContractError>(Fixed(spec_rate_value(self.config->0, epoch))),
    {
        if (epoch as usize) < self.snapshots.len() {
            let snap = self.snapshots[epoch as usize];
            assert(snap.rate.0 == spec_rate_value(self.config->0, epoch));
            Ok(snap.rate)
        } else {
            Err(ContractError::NotInitialized)
        }
    }

    /// The multiplier over `(t1, t2]` (see `spec_multiplier`), computed with
    /// the cached epoch rates; `None` where the computation runs past the
    /// largest block number (see `spec_multiplier_panics`).
    fn calculate_multiplier(&mut self, config: &StakingConfig, t1: u32, t2: u32) -> (r: Option<Result<Fixed, ContractError>>)
        requires
            old(self).wf(),
            old(self).config == Some(*config),
        ensures
            final(self).wf(),
            final(self).config == old(self).config,
            final(self).total_staked == old(self).total_staked,
            final(self).users@ == old(self).users@,
            r == (if spec_multiplier_panics(*config, t1, t2) {
                None
            } else {
                Some(
                    match spec_multiplier(*config, t1, t2) {
                        Ok(v) => Ok(Fixed(v)),
                        Err(e) => Err(e),
                    },
                )
            }),
            r matches Some(Ok(m)) ==> m.0 >= SCALE,
    {
        if t2 <= t1 {
            return Some(Ok(Fixed::one()));
        }
        let t_start = config.start_block;
        let t1_eff = if t1 > t_start { t1 } else { t_start };
        let t2_eff = if t2 > t_start { t2 } else { t_start };
        if t2_eff <= t1_eff {
            return Some(Ok(Fixed::one()));
        }
        let e1 = epoch_for_block(t_start, config.epoch_length, t1_eff);
        let e2 = epoch_for_block(t_start, config.epoch_length, t2_eff);
        proof {
            assert(e2 * config.epoch_length >= 0) by (nonlinear_arith)
                requires e2 >= 0, config.epoch_length >= 0;
        }
        if e2 == u32::MAX {
            return None;
        }
        match self.ensure_epoch_snapshots(config, t2_eff) {
            Ok(()) => {},
            Err(e) => {
                return Some(Err(e));
            },
        }
        proof {
            if t1_eff > t_start {
                vstd::arithmetic::div_mod::lemma_div_is_ordered(
                    (t1_eff - t_start) as int, (t2_eff - t_start) as int, config.epoch_length as int);
            }
            lemma_epoch_start_le_block(t_start, config.epoch_length, t2_eff, e2);
        }
        let mut mult = Fixed::one();
        let mut epoch = e1;
        let ghost prefix = spec_mult_from(*config, t1_eff, t2_eff, e1 as int, e2 - 1, SCALE);
        while epoch <= e2
            invariant
                self.wf(),
                self.config == Some(*config),
                old(self).config == Some(*config),
                self.total_staked == old(self).total_staked,
                self.users@ == old(self).users@,
                self.snapshots@.len() > e2,
                e2 == spec_epoch_for_block(t_start, config.epoch_length, t2_eff),
                e1 == spec_epoch_for_block(t_start, config.epoch_length, t1_eff),
                e2 < u32::MAX,
                config.start_block + e2 * config.epoch_length <= t2_eff,
                e1 <= epoch <= e2 + 1,
                t1 < t2,
                t1_eff < t2_eff,
                t1_eff == max_u32(t1, config.start_block),
                t2_eff == max_u32(t2, config.start_block),
                t_start == config.start_block,
                mult.0 >= SCALE,
                spec_multiplier(*config, t1, t2) == spec_mult_from(*config, t1_eff, t2_eff, epoch as int, e2 as int, mult.0),
                prefix == spec_mult_from(*config, t1_eff, t2_eff, e1 as int, e2 - 1, SCALE),
                epoch <= e2 ==> prefix == spec_mult_from(*config, t1_eff, t2_eff, epoch as int, e2 - 1, mult.0),
                epoch > e2 ==> config.start_block + e2 * config.epoch_length + config.epoch_length <= u32::MAX,
            decreases e2 + 1 - epoch,
        {
            proof {
                lemma_epoch_rate_valid(*config, epoch);
                assert(epoch * config.epoch_length <= e2 * config.epoch_length) by (nonlinear_arith)
                    requires epoch <= e2, config.epoch_length >= 0;
                assert(epoch * config.epoch_length >= 0) by (nonlinear_arith)
                    requires epoch >= 0, config.epoch_length >= 0;
                if epoch < e2 {
                    assert((epoch + 1) * config.epoch_length <= e2 * config.epoch_length) by (nonlinear_arith)
                        requires epoch + 1 <= e2, config.epoch_length >= 0;
                    assert((epoch + 1) * config.epoch_length == epoch * config.epoch_length + config.epoch_length)
                        by (nonlinear_arith);
                }
            }
            let rate = match self.get_epoch_rate(epoch) {
                Ok(r) => r,
                Err(e) => {
                    return Some(Err(e));
                },
            };
            let epoch_start = epoch_start_block(t_start, config.epoch_length, epoch);
            let epoch_end = match epoch_start.checked_add(config.epoch_length) {
                Some(v) => v,
                None => {
                    return None;
                },
            };
            let overlap_start = if t1_eff > epoch_start { t1_eff } else { epoch_start };
            let overlap_end = if t2_eff < epoch_end { t2_eff } else { epoch_end };
            if overlap_end > overlap_start {
                let blocks = (overlap_end - overlap_start) as i128;
                let blocks_fixed = match Fixed::from_int(blocks) {
                    Some(v) => v,
                    None => {
                        return Some(Err(ContractError::Overflow));
                    },
                };
                proof {
                    lemma_fixed_mul_nonneg(rate.0, blocks_fixed.0);
                }
                let exponent = match rate.mul(blocks_fixed) {
                    Some(v) => v,
                    None => {
                        return Some(Err(ContractError::Overflow));
                    },
                };
                proof {
                    lemma_fixed_exp_ge_one(exponent.0);
                }
                let factor = match exponent.exp() {
                    Some(v) => v,
                    None => {
                        return Some(Err(ContractError::Overflow));
                    },
                };
                proof {
                    lemma_fixed_mul_nonneg(mult.0, factor.0);
                }
                mult = match mult.mul(factor) {
                    Some(v) => v,
                    None => {
                        return Some(Err(ContractError::Overflow));
                    },
                };
            }
            epoch += 1;
        }
        Some(Ok(mult))
    }

    /// Accruing `user`'s position at block `ledger` stays within block
    /// numbers (see `spec_accrual_panics`).
    pub open spec fn accrual_fits(&self, user: u64, ledger: u32) -> bool {
        match self.config_view() {
            None => true,
            Some(c) => !spec_accrual_panics(c, lookup(self.users_view(), user), ledger),
        }
    }

    /// Whether accruing `user`'s position at block `ledger` stays within
    /// block numbers; the entry points that accrue require it.
    pub fn accrual_in_range(&mut self, user: u64, ledger: u32) -> (b: bool)
        requires
            old(self).wf(),
        ensures
            final(self).wf(),
            final(self).config_view() == old(self).config_view(),
            final(self).users_view() == old(self).users_view(),
            final(self).total_staked_view() == old(self).total_staked_view(),
            b == old(self).accrual_fits(user, ledger),
    {
        let config = match self.config {
            None => {
                return true;
            },
            Some(c) => c,
        };
        let state = match self.users.get(&user) {
            Some(s) => *s,
            None => UserStakingState {
                staked_amount: 0,
                accrued_rewards: 0,
                last_update_block: if ledger > config.start_block { ledger } else { config.start_block },
            },
        };
        if !(state.staked_amount > 0 && ledger > state.last_update_block) {
            return true;
        }
        self.calculate_multiplier(&config, state.last_update_block, ledger).is_some()
    }

    fn update_user_rewards_internal(&mut self, config: &StakingConfig, user: u64, ledger: u32) -> (r: Result<UserStakingState, ContractError>)
        requires
            old(self).wf(),
            old(self).config == Some(*config),
            !spec_accrual_panics(*config, lookup(old(self).users@, user), ledger),
        ensures
            final(self).wf(),
            final(self).config == old(self).config,
            final(self).total_staked == old(self).total_staked,
            final(self).users@ == old(self).users@,
            r == spec_update(*config, lookup(old(self).users@, user), ledger),
            r matches Ok(st) ==> st.staked_amount >= 0 && st.accrued_rewards >= 0,
    {
        let mut state = match self.users.get(&user) {
            Some(s) => *s,
            None => UserStakingState {
                staked_amount: 0,
                accrued_rewards: 0,
                last_update_block: if ledger > config.start_block { ledger } else { config.start_block },
            },
        };
        let t_curr = ledger;
        if state.staked_amount > 0 && t_curr > state.last_update_block {
            let multiplier = match self.calculate_multiplier(config, state.last_update_block, t_curr) {
                Some(Ok(m)) => m,
                Some(Err(e)) => {
                    return Err(e);
                },
                None => {
                    return Err(ContractError::Overflow);
                },
            };
            let v_old = match state.staked_amount.checked_add(state.accrued_rewards) {
                Some(v) => v,
                None => {
                    return Err(ContractError::Overflow);
                },
            };
            proof {
                lemma_fixed_mul_nonneg(v_old, multiplier.0);
            }
            let v_new = multiply_amount(v_old, multiplier)?;
            let r_new = match v_new.checked_sub(state.staked_amount) {
                Some(v) => v,
                None => {
                    return Err(ContractError::Overflow);
                },
            };
            state.accrued_rewards = r_new;
        }
        state.last_update_block = if t_curr > config.start_block { t_curr } else { config.start_block };
        Ok(state)
    }

    /// Stores the configuration and the epoch-0 snapshot.
    pub fn initialize(
        &mut self,
        owner: u64,
        staking_token: u64,
        reward_token: u64,
        initial_rate: i128,
        epoch_decay_percent: i128,
        epoch_length: u32,
        start_block: u32,
    ) -> (r: Result<(), ContractError>)
        requires
            old(self).wf(),
        ensures
            final(self).wf(),
            final(self).users_view() == old(self).users_view(),
            match spec_initialize(old(self).config_view(), owner, staking_token, reward_token, initial_rate, epoch_decay_percent, epoch_length, start_block) {
                Ok(c) => r is Ok && final(self).config_view() == Some(c) && final(self).total_staked_view() == 0,
                Err(e) => r == Err::<(), ContractError>(e) && final(self).config_view() == old(self).config_view()
                    && final(self).total_staked_view() == old(self).total_staked_view(),
            },
    {
        if self.config.is_some() {
            return Err(ContractError::AlreadyInitialized);
        }
        if epoch_decay_percent < 0 || epoch_decay_percent > SCALE {
            return Err(ContractError::InvalidInput);
        }
        if epoch_length == 0 {
            return Err(ContractError::InvalidInput);
        }
        if initial_rate < 0 {
            return Err(ContractError::InvalidInput);
        }
        let config = StakingConfig {
            owner,
            staking_token,
            reward_token,
            initial_rate: Fixed(initial_rate),
            epoch_decay_percent: Fixed(epoch_decay_percent),
            epoch_length,
            start_block,
            is_paused: false,
        };
        let rate0 = compute_epoch_rate(&config.initial_rate, &config.epoch_decay_percent, 0)?;
        self.snapshots.push(EpochSnapshot { rate: rate0, start_block });
        self.config = Some(config);
        self.total_staked = 0;
        proof {
            assert(self.snapshots@.len() == 1);
            assert forall|i: int| 0 <= i < self.snapshots@.len() implies {
                &&& #[trigger] self.snapshots@[i].rate.0 == spec_rate_value(config, i as u32)
                &&& self.snapshots@[i].start_block == config.start_block + i * config.epoch_length
                &&& i <= u32::MAX
            } by {
                assert(i == 0);
            }
            assert(self.snapshots_wf());
        }
        Ok(())
    }

    /// Stakes `amount` for `user` at block `ledger`, after accruing the
    /// position. The caller moves `amount` of the staking token from `user`
    /// to the contract.
    pub fn stake(&mut self, user: u64, amount: i128, ledger: u32) -> (r: Result<(), ContractError>)
        requires
            old(self).wf(),
            old(self).config_view() matches Some(c) && !c.is_paused && amount > 0 ==> old(self).accrual_fits(user, ledger),
        ensures
            final(self).wf(),
            final(self).config_view() == old(self).config_view(),
            match spec_stake(old(self).config_view(), old(self).users_view(), old(self).total_staked_view(), user, amount, ledger) {
                Ok((users, total)) => r is Ok && final(self).users_view() == users && final(self).total_staked_view() == total,
                Err(e) => r == Err::<(), ContractError>(e) && final(self).users_view() == old(self).users_view()
                    && final(self).total_staked_view() == old(self).total_staked_view(),
            },
    {
        let config = self.get_config()?;
        if config.is_paused {
            return Err(ContractError::Paused);
        }
        if amount <= 0 {
            return Err(ContractError::InvalidInput);
        }
        let mut state = self.update_user_rewards_internal(&config, user, ledger)?;
        state.staked_amount = match state.staked_amount.checked_add(amount) {
            Some(v) => v,
            None => {
                return Err(ContractError::Overflow);
            },
        };
        let total_staked = match self.total_staked.checked_add(amount) {
            Some(v) => v,
            None => {
                return Err(ContractError::Overflow);
            },
        };
        self.total_staked = total_staked;
        self.users.insert(user, state);
        Ok(())
    }

    /// Withdraws `amount` of `user`'s principal at block `ledger`, after
    /// accruing the position. The caller moves `amount` of the staking token
    /// from the contract to `user`.
    pub fn withdraw(&mut self, user: u64, amount: i128, ledger: u32) -> (r: Result<(), ContractError>)
        requires
            old(self).wf(),
            old(self).config_view() matches Some(c) && !c.is_paused && amount > 0 ==> old(self).accrual_fits(user, ledger),
        ensures
            final(self).wf(),
            final(self).config_view() == old(self).config_view(),
            match spec_withdraw(old(self).config_view(), old(self).users_view(), old(self).total_staked_view(), user, amount, ledger) {
                Ok((users, total)) => r is Ok && final(self).users_view() == users && final(self).total_staked_view() == total,
                Err(e) => r == Err::<(), ContractError>(e) && final(self).users_view() == old(self).users_view()
                    && final(self).total_staked_view() == old(self).total_staked_view(),
            },
    {
        let config = self.get_config()?;
        if config.is_paused {
            return Err(ContractError::Paused);
        }
        if amount <= 0 {
            return Err(ContractError::InvalidInput);
        }
        let mut state = self.update_user_rewards_internal(&config, user, ledger)?;
        if state.staked_amount < amount {
            return Err(ContractError::InsufficientBalance);
        }
        state.staked_amount = match state.staked_amount.checked_sub(amount) {
            Some(v) => v,
            None => {
                return Err(ContractError::Overflow);
            },
        };
        let total_staked = match self.total_staked.checked_sub(amount) {
            Some(v) => v,
            None => {
                return Err(ContractError::Overflow);
            },
        };
        self.total_staked = total_staked;
        if state.staked_amount == 0 && state.accrued_rewards == 0 {
            self.users.remove(&user);
        } else {
            self.users.insert(user, state);
        }
        Ok(())
    }

    /// Pays out `user`'s rewards accrued up to block `ledger`, returning the
    /// amount; zero, with nothing stored, when there are none. The caller
    /// moves a positive amount of the reward token to `user`.
    pub fn claim(&mut self, user: u64, ledger: u32) -> (r: Result<i128, ContractError>)
        requires
            old(self).wf(),
            old(self).config_view() matches Some(c) && !c.is_paused ==> old(self).accrual_fits(user, ledger),
        ensures
            final(self).wf(),
            final(self).config_view() == old(self).config_view(),
            final(self).total_staked_view() == old(self).total_staked_view(),
            match spec_claim(old(self).config_view(), old(self).users_view(), user, ledger) {
                Ok((users, paid)) => r == Ok::<i128, ContractError>(paid) && final(self).users_view() == users,
                Err(e) => r == Err::<i128, ContractError>(e) && final(self).users_view() == old(self).users_view(),
            },
    {
        let config = self.get_config()?;
        if config.is_paused {
            return Err(ContractError::Paused);
        }
        let mut state = self.update_user_rewards_internal(&config, user, ledger)?;
        let reward_amount = state.accrued_rewards;
        if reward_amount <= 0 {
            return Ok(0);
        }
        state.accrued_rewards = 0;
        if state.staked_amount == 0 {
            self.users.remove(&user);
        } else {
            self.users.insert(user, state);
        }
        Ok(reward_amount)
    }

    /// Returns all of `user`'s principal, forfeiting rewards; allowed while
    /// paused. The caller moves a positive amount of the staking token to
    /// `user`.
    pub fn emergency_withdraw(&mut self, user: u64) -> (r: Result<i128, ContractError>)
        requires
            old(self).wf(),
        ensures
            final(self).wf(),
            final(self).config_view() == old(self).config_view(),
            match spec_emergency_withdraw(old(self).config_view(), old(self).users_view(), old(self).total_staked_view(), user) {
                Ok((users, total, paid)) => r == Ok::<i128, ContractError>(paid) && final(self).users_view() == users
                    && final(self).total_staked_view() == total,
                Err(e) => r == Err::<i128, ContractError>(e) && final(self).users_view() == old(self).users_view()
                    && final(self).total_staked_view() == old(self).total_staked_view(),
            },
    {
        let _config = self.get_config()?;
        let state = match self.users.get(&user) {
            None => {
                return Ok(0);
            },
            Some(s) => *s,
        };
        let staked_amount = state.staked_amount;
        let total_staked = match self.total_staked.checked_sub(staked_amount) {
            Some(v) => v,
            None => {
                return Err(ContractError::Overflow);
            },
        };
        self.total_staked = total_staked;
        self.users.remove(&user);
        if staked_amount <= 0 {
            return Ok(0);
        }
        Ok(staked_amount)
    }

    /// Pauses or resumes staking, withdrawing and claiming.
    pub fn set_paused(&mut self, paused: bool) -> (r: Result<(), ContractError>)
        requires
            old(self).wf(),
        ensures
            final(self).wf(),
            final(self).users_view() == old(self).users_view(),
            final(self).total_staked_view() == old(self).total_staked_view(),
            match old(self).config_view() {
                None => r == Err::<(), ContractError>(ContractError::NotInitialized) && final(self).config_view() is None,
                Some(c) => r is Ok && final(self).config_view() == Some(StakingConfig { is_paused: paused, ..c }),
            },
    {
        let mut config = self.get_config()?;
        let ghost before = config;
        config.is_paused = paused;
        self.config = Some(config);
        proof {
            assert forall|i: int| 0 <= i < self.snapshots@.len() implies {
                &&& #[trigger] self.snapshots@[i].rate.0 == spec_rate_value(config, i as u32)
                &&& self.snapshots@[i].start_block == config.start_block + i * config.epoch_length
                &&& i <= u32::MAX
            } by {
                assert(spec_rate_value(config, i as u32) == spec_rate_value(before, i as u32));
            }
        }
        Ok(())
    }

    /// Principal staked by `user`.
    pub fn get_staked_balance(&self, user: u64) -> (b: i128)
        ensures
            b == staked_of(self.users_view(), user),
    {
        match self.users.get(&user) {
            Some(s) => s.staked_amount,
            None => 0,
        }
    }

    /// Rewards stored for `user` at its last update.
    pub fn get_accrued_rewards(&self, user: u64) -> (b: i128)
        ensures
            b == (if self.users_view().contains_key(user) { self.users_view()[user].accrued_rewards } else { 0 }),
    {
        match self.users.get(&user) {
            Some(s) => s.accrued_rewards,
            None => 0,
        }
    }

    /// Rewards `user` holds at block `ledger`, including those accrued since
    /// its last update (see `spec_pending_rewards`).
    pub fn get_pending_rewards(&mut self, user: u64, ledger: u32) -> (b: i128)
        requires
            old(self).wf(),
            old(self).accrual_fits(user, ledger),
        ensures
            final(self).wf(),
            final(self).config_view() == old(self).config_view(),
            final(self).users_view() == old(self).users_view(),
            final(self).total_staked_view() == old(self).total_staked_view(),
            b == spec_pending_rewards(old(self).config_view(), old(self).users_view(), user, ledger),
    {
        let config = match self.get_config() {
            Ok(c) => c,
            Err(_) => {
                return 0;
            },
        };
        let state = match self.users.get(&user) {
            None => {
                return 0;
            },
            Some(s) => *s,
        };
        let t_curr = ledger;
        if state.staked_amount > 0 && t_curr > state.last_update_block {
            if let Some(Ok(multiplier)) = self.calculate_multiplier(&config, state.last_update_block, t_curr) {
                if let Some(v_old) = state.staked_amount.checked_add(state.accrued_rewards) {
                    proof {
                        lemma_fixed_mul_nonneg(v_old, multiplier.0);
                    }
                    if let Ok(v_new) = multiply_amount(v_old, multiplier) {
                        if let Some(r_new) = v_new.checked_sub(state.staked_amount) {
                            return r_new;
                        }
                    }
                }
            }
        }
        state.accrued_rewards
    }

    /// The configuration, once initialized.
    pub fn get_config(&self) -> (r: Result<StakingConfig, ContractError>)
        ensures
            r == (match self.config_view() {
                Some(c) => Ok(c),
                None => Err(ContractError::NotInitialized),
            }),
    {
        match self.config {
            Some(c) => Ok(c),
            None => Err(ContractError::NotInitialized),
        }
    }

    /// The cached epoch snapshots, epoch `i` at index `i`: each holds that
    /// epoch's rate and first block.
    pub fn epoch_snapshots(&self) -> (v: Vec<EpochSnapshot>)
        requires
            self.wf(),
        ensures
            v@ == self.snapshots_view(),
            self.config_view() is None ==> v@.len() == 0,
            self.config_view() matches Some(c) ==> forall|i: int|
                0 <= i < v@.len() ==> {
                    &&& #[trigger] v@[i].rate.0 == spec_rate_value(c, i as u32)
                    &&& v@[i].start_block == c.start_block + i * c.epoch_length
                },
    {
        let mut v: Vec<EpochSnapshot> = Vec::new();
        let mut i: usize = 0;
        while i < self.snapshots.len()
            invariant
                i <= self.snapshots@.len(),
                v@ == self.snapshots@.take(i as int),
            decreases self.snapshots.len() - i,
        {
            v.push(self.snapshots[i]);
            i += 1;
            assert(self.snapshots@.take(i as int) =~= self.snapshots@.take(i - 1).push(self.snapshots@[i - 1]));
        }
        proof {
            assert(self.snapshots@.take(self.snapshots@.len() as int) =~= self.snapshots@);
            if let Some(c) = self.config {
                assert forall|k: int| 0 <= k < v@.len() implies {
                    &&& #[trigger] v@[k].rate.0 == spec_rate_value(c, k as u32)
                    &&& v@[k].start_block == c.start_block + k * c.epoch_length
                } by {
                    assert(self.snapshots_wf());
                    assert(v@[k] == self.snapshots@[k]);
                }
            }
        }
        v
    }

    /// Principal staked over all positions.
    pub fn total_staked(&self) -> (t: i128)
        ensures
            t == self.total_staked_view(),
    {
        self.total_staked
    }

    /// What a contract exports can always be restored: its configuration,
    /// total and positions meet `restorable`, so `restore(export())` gives
    /// back a contract with the same configuration, total and positions.
    pub proof fn lemma_export_restorable(&self)
        requires
            self.wf(),
        ensures
            restorable(self.config_view(), self.total_staked_view(), self.users_view()),
    {
    }

    /// The state to store between calls.
    pub fn export(&self) -> (s: StakingState)
        requires
            self.wf(),
        ensures
            s.config == self.config_view(),
            s.total_staked == self.total_staked_view(),
            pairs_to_map(s.users@) == self.users_view(),
            forall|i: int, j: int| 0 <= i < j < s.users@.len() ==> s.users@[i].0 != s.users@[j].0,
    {
        let mut users: Vec<(u64, UserStakingState)> = Vec::new();
        let ghost m = self.users@;
        for (user, state) in it: self.users.iter()
            invariant
                m == self.users@,
                it.seq().no_duplicates(),
                it.seq().len() == m.dom().len(),
                forall|i: int| 0 <= i < it.seq().len() ==> m.contains_key(*it.seq()[i].0) && m[*it.seq()[i].0] == *it.seq()[i].1,
                forall|k: u64| #[trigger] m.contains_key(k) ==> it.seq().contains((&k, &m[k])),
                users@.len() == it.index(),
                forall|i: int| 0 <= i < it.index() ==> #[trigger] users@[i] == (*it.seq()[i].0, *it.seq()[i].1),
                pairs_to_map(users@) == Map::new(
                    |k: u64| exists|i: int| 0 <= i < it.index() && *it.seq()[i].0 == k,
                    |k: u64| m[k],
                ),
                forall|i: int, j: int| 0 <= i < j < users@.len() ==> users@[i].0 != users@[j].0,
                it.index() == m.dom().len() ==> pairs_to_map(users@) == m,
        {
            let ghost before = users@;
            users.push((*user, *state));
            proof {
                let j = it.index();
                assert(users@.drop_last() =~= before);
                assert forall|i: int| 0 <= i < j implies users@[i].0 != users@[j as int].0 by {
                    assert(it.seq()[i] != it.seq()[j]);
                }
                let target = Map::new(
                    |k: u64| exists|i: int| 0 <= i < j + 1 && *it.seq()[i].0 == k,
                    |k: u64| m[k],
                );
                assert(pairs_to_map(users@) =~= target) by {
                    assert forall|k: u64| #[trigger] target.contains_key(k) implies pairs_to_map(users@).contains_key(k) && pairs_to_map(users@)[k] == target[k] by {
                        if k != *user {
                            let i = choose|i: int| 0 <= i < j + 1 && *it.seq()[i].0 == k;
                            assert(i != j);
                        }
                    }
                    assert forall|k: u64| #[trigger] pairs_to_map(users@).contains_key(k) implies target.contains_key(k) by {
                        if k == *user {
                            assert(*it.seq()[j].0 == k);
                        }
                    }
                }
                if j + 1 == m.dom().len() {
                    assert(pairs_to_map(users@) =~= m) by {
                        assert forall|k: u64| #[trigger] m.contains_key(k) implies pairs_to_map(users@).contains_key(k) by {
                            assert(it.seq().contains((&k, &m[k])));
                            let i = choose|i: int| 0 <= i < it.seq().len() && it.seq()[i] == (&k, &m[k]);
                            assert(target.contains_key(k));
                        }
                    }
                }
            }
        }
        StakingState { config: self.config, total_staked: self.total_staked, users }
    }

    /// Resumes from a stored state; `None` when it is not `restorable`.
    pub fn restore(state: StakingState) -> (r: Option<StakingRewards>)
        ensures
            r is Some <==> restorable(state.config, state.total_staked, pairs_to_map(state.users@)),
            r matches Some(c) ==> {
                &&& c.wf()
                &&& c.config_view() == state.config
                &&& c.total_staked_view() == state.total_staked
                &&& c.users_view() == pairs_to_map(state.users@)
            },
    {
        let mut users: HashMap<u64, UserStakingState> = HashMap::new();
        let mut i: usize = 0;
        while i < state.users.len()
            invariant
                i <= state.users@.len(),
                users@ == pairs_to_map(state.users@.take(i as int)),
            decreases state.users.len() - i,
        {
            let (user, position) = state.users[i];
            users.insert(user, position);
            proof {
                assert(state.users@.take(i + 1).drop_last() =~= state.users@.take(i as int));
            }
            i += 1;
        }
        proof {
            assert(state.users@.take(state.users@.len() as int) =~= state.users@);
        }
        let mut all_nonneg = true;
        for (_user, position) in it: users.iter()
            invariant
                it.seq().len() == users@.dom().len(),
                forall|i: int| 0 <= i < it.seq().len() ==> users@.contains_key(*it.seq()[i].0) && users@[*it.seq()[i].0] == *it.seq()[i].1,
                forall|k: u64| #[trigger] users@.contains_key(k) ==> it.seq().contains((&k, &users@[k])),
                all_nonneg <==> forall|i: int| 0 <= i < it.index() ==> (*it.seq()[i].1).staked_amount >= 0 && (*it.seq()[i].1).accrued_rewards >= 0,
                it.index() == users@.dom().len() ==> (all_nonneg <==> positions_nonneg(users@)),
        {
            all_nonneg = all_nonneg && position.staked_amount >= 0 && position.accrued_rewards >= 0;
            proof {
                if it.index() + 1 == users@.dom().len() {
                    if all_nonneg {
                        assert forall|u: u64| #[trigger] users@.contains_key(u) implies users@[u].staked_amount >= 0 && users@[u].accrued_rewards >= 0 by {
                            assert(it.seq().contains((&u, &users@[u])));
                            let i = choose|i: int| 0 <= i < it.seq().len() && it.seq()[i] == (&u, &users@[u]);
                        }
                    } else {
                        let i = choose|i: int| 0 <= i < it.index() + 1 && !((*it.seq()[i].1).staked_amount >= 0 && (*it.seq()[i].1).accrued_rewards >= 0);
                        assert(users@.contains_key(*it.seq()[i].0));
                    }
                }
            }
        }
        if !all_nonneg {
            return None;
        }
        match state.config {
            None => {
                if users.len() != 0 || state.total_staked != 0 {
                    return None;
                }
                proof {
                    assert(users@.dom().len() == 0);
                    assert(users@.dom().finite());
                    vstd::set_lib::lemma_set_empty_equivalency_len(users@.dom());
                }
                Some(StakingRewards { config: None, total_staked: 0, snapshots: Vec::new(), users })
            },
            Some(config) => {
                if config.epoch_length == 0 || config.epoch_decay_percent.0 < 0 || config.epoch_decay_percent.0 > SCALE
                    || config.initial_rate.0 < 0 {
                    return None;
                }
                let mut snapshots: Vec<EpochSnapshot> = Vec::new();
                snapshots.push(EpochSnapshot { rate: config.initial_rate, start_block: config.start_block });
                let c = StakingRewards { config: Some(config), total_staked: state.total_staked, snapshots, users };
                proof {
                    assert forall|i: int| 0 <= i < c.snapshots@.len() implies {
                        &&& #[trigger] c.snapshots@[i].rate.0 == spec_rate_value(config, i as u32)
                        &&& c.snapshots@[i].start_block == config.start_block + i * config.epoch_length
                        &&& i <= u32::MAX
                    } by {
                        assert(i == 0);
                    }
                    assert(c.snapshots_wf());
                }
                Some(c)
            },
        }
    }
}

}
