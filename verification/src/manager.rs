//! The reward-accrual engine: the pool accrual state machine and the
//! user settlement and claim protocol, built on the aggregation index.

use std::collections::HashMap;

use vstd::prelude::*;

use crate::errors::Error;
use crate::index::record_fits;
use crate::index::RewardIndex;
use crate::sums::sum_vals;

verus! {

broadcast use vstd::std_specs::hash::group_hash_axioms;

/// Relies on cast::u128: for a `u64` argument the cast is an
/// infallible widening promotion, returning the same value.
#[verifier::external_body]
fn to_u128(x: u64) -> (r: u128)
    ensures
        r == x as u128,
{
    cast::u128(x)
}

/// The active reward campaign of a pool: emission rate in tokens per
/// unit time, and the instant emission stops.  Written by the pool's
/// configuration entry point between syncs; the engine only reads it.
#[derive(Clone, Copy, Debug, PartialEq, Eq, Structural)]
pub struct PoolRewardConfig {
    pub tps: u64,
    pub expired_at: u64,
}

/// The pool-level accrual state: the accrual epoch counter, the total
/// tokens generated over the pool's life, and the instant of the last
/// accrual computation.
#[derive(Clone, Copy, Debug, PartialEq, Eq, Structural)]
pub struct PoolRewardData {
    pub block: u64,
    pub accumulated: u128,
    pub last_time: u64,
}

/// One user's settlement checkpoint: the pool epoch and accumulated
/// total as of their last settlement, and the amount owed but not yet
/// claimed.
#[derive(Clone, Copy, Debug, PartialEq, Eq, Structural)]
pub struct UserRewardData {
    pub last_block: u64,
    pub pool_accumulated: u128,
    pub to_claim: u128,
}

/// Tokens generated by a still-active campaign since the last sync.
pub open spec fn generated_active(c: PoolRewardConfig, d: PoolRewardData, now: u64) -> int {
    (now - d.last_time) * c.tps
}

/// Tokens generated when a campaign lapses: emission stops at expiry.
pub open spec fn generated_catchup(c: PoolRewardConfig, d: PoolRewardData) -> int {
    (c.expired_at - d.last_time) * c.tps
}

/// The per-share value recorded for one accrual epoch: the tokens the
/// epoch generated divided over the outstanding shares, or zero while
/// nobody holds shares.
pub open spec fn per_share(generated: int, total_shares: u128) -> int {
    if total_shares == 0 {
        0
    } else {
        generated / (total_shares as int)
    }
}

/// The sync transition for a campaign that has not expired.
pub open spec fn sync_is_active(c: PoolRewardConfig, now: u64) -> bool {
    now < c.expired_at
}

/// The sync transition for a campaign that an earlier sync already
/// closed out.
pub open spec fn sync_is_lapsed(c: PoolRewardConfig, d: PoolRewardData, now: u64) -> bool {
    !sync_is_active(c, now) && d.last_time > c.expired_at
}

/// The pool state after one sync at `now`.
pub open spec fn sync_data(c: PoolRewardConfig, d: PoolRewardData, now: u64) -> PoolRewardData {
    if sync_is_active(c, now) {
        PoolRewardData {
            block: (d.block + 1) as u64,
            accumulated: (d.accumulated + generated_active(c, d, now)) as u128,
            last_time: now,
        }
    } else if sync_is_lapsed(c, d, now) {
        PoolRewardData { block: (d.block + 1) as u64, accumulated: d.accumulated, last_time: now }
    } else {
        PoolRewardData {
            block: (d.block + 2) as u64,
            accumulated: (d.accumulated + generated_catchup(c, d)) as u128,
            last_time: now,
        }
    }
}

/// The pool state after the first half of a newly-lapsed sync: the
/// campaign closed exactly at its expiry, the trailing zero-generation
/// epoch not yet appended.
pub open spec fn catchup_mid_data(c: PoolRewardConfig, d: PoolRewardData) -> PoolRewardData {
    PoolRewardData {
        block: (d.block + 1) as u64,
        accumulated: (d.accumulated + generated_catchup(c, d)) as u128,
        last_time: c.expired_at,
    }
}

/// The per-share values one sync appends to the index.
pub open spec fn sync_values(
    c: PoolRewardConfig,
    d: PoolRewardData,
    now: u64,
    total_shares: u128,
) -> Seq<u64> {
    if sync_is_active(c, now) {
        seq![per_share(generated_active(c, d, now), total_shares) as u64]
    } else if sync_is_lapsed(c, d, now) {
        seq![0u64]
    } else {
        seq![per_share(generated_catchup(c, d), total_shares) as u64, 0u64]
    }
}

/// Whether the first half of a newly-lapsed sync stays within the
/// representable range.
pub open spec fn catchup_first_ok(
    c: PoolRewardConfig,
    d: PoolRewardData,
    vals: Seq<u64>,
    b: int,
    total_shares: u128,
) -> bool {
    let g = generated_catchup(c, d);
    let ps = per_share(g, total_shares);
    &&& d.accumulated + g <= u128::MAX
    &&& ps <= u64::MAX
    &&& record_fits(vals, b, ps as u64)
}

/// Whether a whole sync stays within the representable range: the
/// accumulated total, the per-share value, and every index aggregate
/// must fit.
pub open spec fn sync_ok(
    c: PoolRewardConfig,
    d: PoolRewardData,
    vals: Seq<u64>,
    b: int,
    now: u64,
    total_shares: u128,
) -> bool {
    if sync_is_active(c, now) {
        let g = generated_active(c, d, now);
        let ps = per_share(g, total_shares);
        &&& d.accumulated + g <= u128::MAX
        &&& ps <= u64::MAX
        &&& record_fits(vals, b, ps as u64)
    } else if sync_is_lapsed(c, d, now) {
        record_fits(vals, b, 0u64)
    } else {
        let ps = per_share(generated_catchup(c, d), total_shares);
        &&& catchup_first_ok(c, d, vals, b, total_shares)
        &&& record_fits(vals.push(ps as u64), b, 0u64)
    }
}

/// The stored checkpoint of one user, if they ever settled.
pub open spec fn user_checkpoint(users: Map<u64, UserRewardData>, user: u64) -> Option<
    UserRewardData,
> {
    if users.contains_key(user) {
        Some(users[user])
    } else {
        None
    }
}

/// The reward newly owed to a user holding `shares` shares over the
/// closed epoch range `start..=end` of per-share values.
pub open spec fn user_reward(vals: Seq<u64>, start: int, end: int, shares: u128) -> int {
    sum_vals(vals, start, end + 1) * shares
}

/// Whether settlement stores a new checkpoint: it does unless the
/// pool generated nothing since the user's last settlement.
pub open spec fn settle_writes(prev: Option<UserRewardData>, d: PoolRewardData) -> bool {
    match prev {
        Some(ud) => ud.pool_accumulated != d.accumulated,
        None => true,
    }
}

/// The user state after one settlement against pool state `d` and
/// recorded values `vals`.
pub open spec fn settle_result(
    prev: Option<UserRewardData>,
    d: PoolRewardData,
    vals: Seq<u64>,
    shares: u128,
) -> UserRewardData {
    match prev {
        None => UserRewardData { last_block: d.block, pool_accumulated: d.accumulated, to_claim: 0 },
        Some(ud) => {
            if ud.pool_accumulated == d.accumulated {
                ud
            } else if shares == 0 {
                UserRewardData {
                    last_block: d.block,
                    pool_accumulated: d.accumulated,
                    to_claim: ud.to_claim,
                }
            } else {
                UserRewardData {
                    last_block: d.block,
                    pool_accumulated: d.accumulated,
                    to_claim: (ud.to_claim + user_reward(
                        vals,
                        ud.last_block + 1,
                        d.block as int,
                        shares,
                    )) as u128,
                }
            }
        },
    }
}

/// Whether one settlement stays within the representable range.
pub open spec fn settle_ok(
    prev: Option<UserRewardData>,
    d: PoolRewardData,
    vals: Seq<u64>,
    shares: u128,
) -> bool {
    match prev {
        None => true,
        Some(ud) => {
            ||| ud.pool_accumulated == d.accumulated
            ||| shares == 0
            ||| {
                let s = sum_vals(vals, ud.last_block + 1, d.block + 1);
                &&& s <= u64::MAX
                &&& s * shares <= u128::MAX
                &&& ud.to_claim + s * shares <= u128::MAX
            }
        },
    }
}

/// A sync performed at the very instant of the previous one generates
/// nothing: the accumulated total is unchanged, and under an active
/// campaign the epoch counter still advances by exactly one, recording
/// a zero per-share value.
pub proof fn lemma_sync_now_unchanged(
    c: PoolRewardConfig,
    d: PoolRewardData,
    now: u64,
    total_shares: u128,
)
    requires
        now == d.last_time,
        sync_is_active(c, now),
        d.block + 1 <= u64::MAX,
    ensures
        sync_data(c, d, now).block == d.block + 1,
        sync_data(c, d, now).accumulated == d.accumulated,
        sync_values(c, d, now, total_shares) == seq![0u64],
{
    vstd::arithmetic::mul::lemma_mul_basics(c.tps as int);
    assert(generated_active(c, d, now) == 0);
    if total_shares > 0 {
        vstd::arithmetic::div_mod::lemma_div_basics(total_shares as int);
    }
    assert(per_share(0, total_shares) == 0);
    assert(sync_values(c, d, now, total_shares) =~= seq![0u64]);
}

/// A sync at the instant of the previous one never changes the
/// accumulated total, whichever transition it dispatches to.
proof fn lemma_sync_same_instant(c: PoolRewardConfig, d: PoolRewardData, now: u64)
    requires
        now == d.last_time,
    ensures
        sync_data(c, d, now).accumulated == d.accumulated,
{
    vstd::arithmetic::mul::lemma_mul_basics(c.tps as int);
    if sync_is_active(c, now) {
        assert(generated_active(c, d, now) == 0);
    } else if !sync_is_lapsed(c, d, now) {
        // newly lapsed with last_time == now >= expired_at forces
        // last_time == expired_at, so the catch-up spans no time
        assert(d.last_time == c.expired_at);
        assert(generated_catchup(c, d) == 0);
    }
}

/// Every settlement leaves the user's checkpoint at the pool's
/// accumulated total.
proof fn lemma_settle_checkpoint_current(
    prev: Option<UserRewardData>,
    d: PoolRewardData,
    vals: Seq<u64>,
    shares: u128,
)
    ensures
        settle_result(prev, d, vals, shares).pool_accumulated == d.accumulated,
{
}

/// Settlement idempotence: running the settlement pipeline twice in a
/// row, with `now` and the share balances unchanged, leaves the user
/// record bit-identical.  The second sync generates nothing, so the
/// second settlement finds the checkpoint current, performs no range
/// query, and cannot fail.
pub proof fn lemma_settle_idempotent(
    c: PoolRewardConfig,
    d0: PoolRewardData,
    v0: Seq<u64>,
    prev: Option<UserRewardData>,
    now: u64,
    total_shares: u128,
    user_balance_shares: u128,
)
    ensures
        ({
            let d1 = sync_data(c, d0, now);
            let v1 = v0 + sync_values(c, d0, now, total_shares);
            let ud1 = settle_result(prev, d1, v1, user_balance_shares);
            let d2 = sync_data(c, d1, now);
            let v2 = v1 + sync_values(c, d1, now, total_shares);
            &&& settle_ok(Some(ud1), d2, v2, user_balance_shares)
            &&& settle_result(Some(ud1), d2, v2, user_balance_shares) == ud1
            &&& !settle_writes(Some(ud1), d2)
        }),
{
    let d1 = sync_data(c, d0, now);
    let v1 = v0 + sync_values(c, d0, now, total_shares);
    let ud1 = settle_result(prev, d1, v1, user_balance_shares);
    lemma_settle_checkpoint_current(prev, d1, v1, user_balance_shares);
    lemma_sync_same_instant(c, d1, now);
    assert(ud1.pool_accumulated == sync_data(c, d1, now).accumulated);
}

/// An immediate second claim pays nothing: the first claim stored a
/// zeroed balance checkpointed at the pool's accumulated total, the
/// second sync generates nothing, and the second settlement returns
/// that zeroed record untouched.
pub proof fn lemma_second_claim_zero(
    c: PoolRewardConfig,
    d0: PoolRewardData,
    v0: Seq<u64>,
    prev: Option<UserRewardData>,
    now: u64,
    total_shares: u128,
    user_balance_shares: u128,
)
    ensures
        ({
            let d1 = sync_data(c, d0, now);
            let v1 = v0 + sync_values(c, d0, now, total_shares);
            let ud1 = settle_result(prev, d1, v1, user_balance_shares);
            let zeroed = UserRewardData {
                last_block: ud1.last_block,
                pool_accumulated: ud1.pool_accumulated,
                to_claim: 0,
            };
            let d2 = sync_data(c, d1, now);
            let v2 = v1 + sync_values(c, d1, now, total_shares);
            &&& settle_ok(Some(zeroed), d2, v2, user_balance_shares)
            &&& settle_result(Some(zeroed), d2, v2, user_balance_shares) == zeroed
        }),
{
    let d1 = sync_data(c, d0, now);
    let v1 = v0 + sync_values(c, d0, now, total_shares);
    let ud1 = settle_result(prev, d1, v1, user_balance_shares);
    lemma_settle_checkpoint_current(prev, d1, v1, user_balance_shares);
    lemma_sync_same_instant(c, d1, now);
}

/// Expiry-catchup exactness: when the campaign expired after the last
/// sync and before `now`, the transition generates exactly
/// `tps * (expires_at - last_sync)` tokens, however far past expiry
/// `now` lies.  The overflow inputs, on which the engine aborts
/// instead, are excluded.
pub proof fn lemma_catchup_exact(c: PoolRewardConfig, d: PoolRewardData, now: u64)
    requires
        d.last_time < c.expired_at,
        c.expired_at < now,
        d.accumulated + generated_catchup(c, d) <= u128::MAX,
    ensures
        sync_data(c, d, now).accumulated == d.accumulated + c.tps * (c.expired_at - d.last_time),
        forall|now2: u64|
            c.expired_at < now2 ==> sync_data(c, d, now2).accumulated == sync_data(
                c,
                d,
                now,
            ).accumulated,
{
    vstd::arithmetic::mul::lemma_mul_is_commutative(
        c.expired_at - d.last_time,
        c.tps as int,
    );
}

/// The user checkpoints a sequence of records denotes, later entries
/// overriding earlier ones with the same id.
pub open spec fn users_map(s: Seq<(u64, UserRewardData)>) -> Map<u64, UserRewardData>
    decreases s.len(),
{
    if s.len() == 0 {
        Map::empty()
    } else {
        users_map(s.drop_last()).insert(s.last().0, s.last().1)
    }
}

/// Every checkpoint bound carried by the records carries over to the
/// map they denote.
proof fn lemma_users_map_bound(s: Seq<(u64, UserRewardData)>, blk: u64)
    requires
        forall|i: int| 0 <= i < s.len() ==> (#[trigger] s[i]).1.last_block <= blk,
    ensures
        forall|u: u64|
            users_map(s).contains_key(u) ==> (#[trigger] users_map(s)[u]).last_block <= blk,
    decreases s.len(),
{
    if s.len() > 0 {
        assert(forall|i: int|
            0 <= i < s.drop_last().len() ==> (#[trigger] s.drop_last()[i]).1.last_block <= blk);
        lemma_users_map_bound(s.drop_last(), blk);
        assert forall|u: u64| users_map(s).contains_key(u) implies (#[trigger] users_map(
            s,
        )[u]).last_block <= blk by {
            if u == s.last().0 {
                assert(s[s.len() - 1].1.last_block <= blk);
            } else {
                assert(users_map(s)[u] == users_map(s.drop_last())[u]);
            }
        }
    }
}

/// The reward-accrual engine of one pool: the campaign it reads, the
/// pool accrual state, the per-user checkpoints, and the aggregation
/// index of per-share values.
pub struct Manager {
    config: PoolRewardConfig,
    data: PoolRewardData,
    users: HashMap<u64, UserRewardData>,
    index: RewardIndex,
}

impl Manager {
    /// The campaign the engine currently reads.
    pub closed spec fn config(self) -> PoolRewardConfig {
        self.config
    }

    /// The pool accrual state.
    pub closed spec fn data(self) -> PoolRewardData {
        self.data
    }

    /// The stored user checkpoints.
    pub closed spec fn users(self) -> Map<u64, UserRewardData> {
        self.users@
    }

    /// The per-share values recorded so far, one per accrual epoch.
    pub closed spec fn values(self) -> Seq<u64> {
        self.index.values()
    }

    /// The fan-out of the aggregation index.
    pub closed spec fn fan_out(self) -> int {
        self.index.fan_out()
    }

    /// Well-formedness: the index is sound, holds exactly one value
    /// per epoch up to the current block, and no stored checkpoint is
    /// ahead of the pool.
    pub closed spec fn wf(self) -> bool {
        &&& self.index.wf()
        &&& self.index.values().len() as int == self.data.block + 1
        &&& forall|u: u64|
            self.users@.contains_key(u) ==> (#[trigger] self.users@[u]).last_block
                <= self.data.block
    }

    /// A freshly initialized engine: no campaign configured, pool
    /// state all zero, and a zero value recorded at epoch 0.
    pub fn new(fan_out: u64) -> (m: Manager)
        requires
            2 <= fan_out,
        ensures
            m.wf(),
            m.fan_out() == fan_out,
            m.config() == (PoolRewardConfig { tps: 0, expired_at: 0 }),
            m.data() == (PoolRewardData { block: 0, accumulated: 0, last_time: 0 }),
            m.values() == seq![0u64],
            m.users() == Map::<u64, UserRewardData>::empty(),
    {
        let mut m = Manager {
            config: PoolRewardConfig { tps: 0, expired_at: 0 },
            data: PoolRewardData { block: 0, accumulated: 0, last_time: 0 },
            users: HashMap::new(),
            index: RewardIndex::new(fan_out),
        };
        m.initialize();
        m
    }

    /// Reset the engine to its initial state: an unset campaign
    /// generates nothing, and epoch 0 carries a zero per-share value.
    pub fn initialize(&mut self)
        requires
            2 <= old(self).fan_out(),
        ensures
            final(self).wf(),
            final(self).fan_out() == old(self).fan_out(),
            final(self).config() == (PoolRewardConfig { tps: 0, expired_at: 0 }),
            final(self).data() == (PoolRewardData { block: 0, accumulated: 0, last_time: 0 }),
            final(self).values() == seq![0u64],
            final(self).users() == Map::<u64, UserRewardData>::empty(),
    {
        self.index.reset();
        match self.index.record(0, 0) {
            Ok(()) => {}
            Err(_) => {
                proof {
                    // recording a zero at epoch 0 completes no block,
                    // so nothing can overflow
                    let b = old(self).fan_out();
                    vstd::arithmetic::div_mod::lemma_small_mod(1nat, b as nat);
                    vstd::arithmetic::power::lemma_pow0(b);
                    assert(crate::index::max_cascade(b, 1) == 0);
                    crate::sums::lemma_sum_single(Seq::<u64>::empty().push(0u64), 0);
                    assert(record_fits(Seq::<u64>::empty(), b, 0u64));
                    assert(false);
                }
            }
        }
        self.data = PoolRewardData { block: 0, accumulated: 0, last_time: 0 };
        self.config = PoolRewardConfig { tps: 0, expired_at: 0 };
        self.users = HashMap::new();
        proof {
            assert(self.values() =~= seq![0u64]);
        }
    }

    /// Rebuild an engine from externally persisted state.  The
    /// per-share values are replayed through the index, which
    /// re-derives its aggregation levels, and the engine's invariants
    /// are checked against the handed state.
    /// `IndexConsistencyViolation` names a state whose pieces do not
    /// fit together; `ArithmeticOverflow` a value history whose
    /// aggregates cannot fit, which no history the engine itself
    /// produced contains.
    pub fn restore(
        fan_out: u64,
        config: PoolRewardConfig,
        data: PoolRewardData,
        users: Vec<(u64, UserRewardData)>,
        values: Vec<u64>,
    ) -> (r: Result<Manager, Error>)
        requires
            2 <= fan_out,
        ensures
            r is Ok <==> ({
                &&& values@.len() as int == data.block + 1
                &&& (forall|i: int|
                    0 <= i < users@.len() ==> (#[trigger] users@[i]).1.last_block <= data.block)
                &&& (forall|i: int|
                    0 <= i < values@.len() ==> record_fits(
                        values@.take(i),
                        fan_out as int,
                        #[trigger] values@[i],
                    ))
            }),
            r is Ok ==> ({
                let m = r->Ok_0;
                &&& m.wf()
                &&& m.config() == config
                &&& m.data() == data
                &&& m.fan_out() == fan_out
                &&& m.values() == values@
                &&& m.users() == users_map(users@)
            }),
    {
        let value_count: usize = values.len();
        if data.block == u64::MAX || (value_count as u64) != data.block + 1 {
            return Err(Error::IndexConsistencyViolation);
        }
        let mut index = RewardIndex::new(fan_out);
        let mut epoch: usize = 0;
        while epoch < values.len()
            invariant
                2 <= fan_out,
                epoch <= values@.len(),
                index.wf(),
                index.fan_out() == fan_out,
                index.values() == values@.take(epoch as int),
                forall|i: int|
                    0 <= i < epoch ==> record_fits(
                        values@.take(i),
                        fan_out as int,
                        #[trigger] values@[i],
                    ),
                values@.len() as int == data.block + 1,
                data.block < u64::MAX,
            decreases values@.len() - epoch,
        {
            let value: u64 = values[epoch];
            match index.record(epoch as u64, value) {
                Ok(()) => {
                    proof {
                        assert(index.values() =~= values@.take(epoch as int + 1));
                    }
                    epoch = epoch + 1;
                }
                Err(e) => {
                    return Err(e);
                }
            }
        }
        proof {
            assert(values@.take(values@.len() as int) =~= values@);
        }
        let mut stored: HashMap<u64, UserRewardData> = HashMap::new();
        let mut i: usize = 0;
        while i < users.len()
            invariant
                i <= users@.len(),
                stored@ == users_map(users@.take(i as int)),
                forall|j: int| 0 <= j < i ==> (#[trigger] users@[j]).1.last_block <= data.block,
            decreases users@.len() - i,
        {
            let pair: (u64, UserRewardData) = users[i];
            if pair.1.last_block > data.block {
                return Err(Error::IndexConsistencyViolation);
            }
            stored.insert(pair.0, pair.1);
            proof {
                assert(users@.take(i as int + 1).drop_last() =~= users@.take(i as int));
                assert(users@.take(i as int + 1).last() == users@[i as int]);
            }
            i = i + 1;
        }
        proof {
            assert(users@.take(users@.len() as int) =~= users@);
            lemma_users_map_bound(users@, data.block);
        }
        Ok(Manager { config, data, users: stored, index })
    }

    /// The recorded per-share value of one accrual epoch, up to the
    /// current block.
    pub fn recorded_value(&self, epoch: u64) -> (r: Option<u64>)
        requires
            self.wf(),
        ensures
            r is Some <==> epoch <= self.data().block,
            r is Some ==> r->0 == self.values()[epoch as int],
    {
        self.index.value_at(epoch)
    }

    /// Overwrite the campaign.  The caller must have flushed the
    /// outgoing campaign's accrual with a sync first, or time already
    /// elapsed will be accounted at the new rate and expiry.
    pub fn set_pool_reward_config(&mut self, config: PoolRewardConfig)
        requires
            old(self).wf(),
        ensures
            final(self).wf(),
            final(self).config() == config,
            final(self).data() == old(self).data(),
            final(self).users() == old(self).users(),
            final(self).values() == old(self).values(),
            final(self).fan_out() == old(self).fan_out(),
    {
        self.config = config;
    }

    /// The campaign the engine currently reads.
    pub fn get_pool_reward_config(&self) -> (c: PoolRewardConfig)
        ensures
            c == self.config(),
    {
        self.config
    }

    /// The pool accrual state.
    pub fn get_pool_reward_data(&self) -> (d: PoolRewardData)
        ensures
            d == self.data(),
    {
        self.data
    }

    /// Divide one epoch's generated tokens over the outstanding
    /// shares and record the result in the index at `block`.
    fn update_reward_inv(&mut self, accumulated: u128, total_shares: u128, block: u64) -> (r:
        Result<(), Error>)
        requires
            old(self).index.wf(),
            block as int == old(self).index.values().len(),
            block < u64::MAX,
        ensures
            final(self).config == old(self).config,
            final(self).data == old(self).data,
            final(self).users == old(self).users,
            final(self).index.wf(),
            final(self).index.fan_out() == old(self).index.fan_out(),
            r is Ok <==> (per_share(accumulated as int, total_shares) <= u64::MAX && record_fits(
                old(self).index.values(),
                old(self).index.fan_out(),
                per_share(accumulated as int, total_shares) as u64,
            )),
            r is Ok ==> final(self).index.values() == old(self).index.values().push(
                per_share(accumulated as int, total_shares) as u64,
            ),
            r is Err ==> *final(self) == *old(self),
            r is Err ==> r == Err::<(), Error>(Error::ArithmeticOverflow),
    {
        let reward_per_share: u128 = if total_shares > 0 {
            accumulated / total_shares
        } else {
            0
        };
        if reward_per_share > u64::MAX as u128 {
            return Err(Error::ArithmeticOverflow);
        }
        self.index.record(block, reward_per_share as u64)
    }

    /// Persist one accrual transition: record its per-share value at
    /// the transition's block, then adopt the new pool state.
    fn create_new_rewards_data(
        &mut self,
        generated_tokens: u128,
        total_shares: u128,
        new_data: PoolRewardData,
    ) -> (r: Result<PoolRewardData, Error>)
        requires
            old(self).index.wf(),
            new_data.block as int == old(self).index.values().len(),
            new_data.block < u64::MAX,
        ensures
            final(self).config == old(self).config,
            final(self).users == old(self).users,
            final(self).index.wf(),
            final(self).index.fan_out() == old(self).index.fan_out(),
            r is Ok <==> (per_share(generated_tokens as int, total_shares) <= u64::MAX
                && record_fits(
                old(self).index.values(),
                old(self).index.fan_out(),
                per_share(generated_tokens as int, total_shares) as u64,
            )),
            r is Ok ==> final(self).data == new_data && final(self).index.values() == old(
                self,
            ).index.values().push(per_share(generated_tokens as int, total_shares) as u64) && r
                == Ok::<PoolRewardData, Error>(new_data),
            r is Err ==> *final(self) == *old(self),
            r is Err ==> r == Err::<PoolRewardData, Error>(Error::ArithmeticOverflow),
    {
        match self.update_reward_inv(generated_tokens, total_shares, new_data.block) {
            Ok(()) => {
                self.data = new_data;
                Ok(new_data)
            }
            Err(e) => Err(e),
        }
    }

    /// The active-campaign transition: tokens generated since the last
    /// sync at the configured rate, one new epoch.
    fn update_rewards_data_snapshot(
        &mut self,
        now: u64,
        config: &PoolRewardConfig,
        data: &PoolRewardData,
        total_shares: u128,
    ) -> (r: Result<PoolRewardData, Error>)
        requires
            old(self).index.wf(),
            *config == old(self).config,
            *data == old(self).data,
            data.block as int + 1 == old(self).index.values().len(),
            data.block + 1 < u64::MAX,
            data.last_time <= now,
            sync_is_active(*config, now),
        ensures
            final(self).config == old(self).config,
            final(self).users == old(self).users,
            final(self).index.wf(),
            final(self).index.fan_out() == old(self).index.fan_out(),
            r is Ok <==> sync_ok(
                *config,
                *data,
                old(self).index.values(),
                old(self).index.fan_out(),
                now,
                total_shares,
            ),
            r is Ok ==> final(self).data == sync_data(*config, *data, now) && final(self).index.values() == old(self).index.values() + sync_values(
                *config,
                *data,
                now,
                total_shares,
            ) && r == Ok::<PoolRewardData, Error>(sync_data(*config, *data, now)),
            r is Err ==> *final(self) == *old(self),
            r is Err ==> r == Err::<PoolRewardData, Error>(Error::ArithmeticOverflow),
    {
        let ghost vals0 = self.index.values();
        let reward_timestamp: u64 = now;
        let elapsed: u64 = reward_timestamp - data.last_time;
        proof {
            vstd::arithmetic::mul::lemma_mul_upper_bound(
                elapsed as int,
                u64::MAX as int,
                config.tps as int,
                u64::MAX as int,
            );
        }
        let generated_tokens: u128 = to_u128(elapsed) * to_u128(config.tps);
        match data.accumulated.checked_add(generated_tokens) {
            Some(accumulated) => {
                let new_data = PoolRewardData {
                    block: data.block + 1,
                    accumulated,
                    last_time: now,
                };
                let r = self.create_new_rewards_data(generated_tokens, total_shares, new_data);
                proof {
                    if r is Ok {
                        assert(self.index.values() =~= vals0 + sync_values(
                            *config,
                            *data,
                            now,
                            total_shares,
                        ));
                    }
                }
                r
            }
            None => Err(Error::ArithmeticOverflow),
        }
    }

    /// The newly-lapsed transition: close the campaign exactly at its
    /// expiry, then append a zero-generation epoch up to `now`, so time
    /// past expiry never generates reward.
    fn update_rewards_data_catchup(
        &mut self,
        now: u64,
        config: &PoolRewardConfig,
        data: &PoolRewardData,
        total_shares: u128,
    ) -> (r: Result<PoolRewardData, Error>)
        requires
            old(self).index.wf(),
            *config == old(self).config,
            *data == old(self).data,
            data.block as int + 1 == old(self).index.values().len(),
            data.block + 2 < u64::MAX,
            data.last_time <= now,
            !sync_is_active(*config, now),
            !sync_is_lapsed(*config, *data, now),
        ensures
            final(self).config == old(self).config,
            final(self).users == old(self).users,
            final(self).index.wf(),
            final(self).index.fan_out() == old(self).index.fan_out(),
            r is Ok <==> sync_ok(
                *config,
                *data,
                old(self).index.values(),
                old(self).index.fan_out(),
                now,
                total_shares,
            ),
            r is Ok ==> final(self).data == sync_data(*config, *data, now) && final(self).index.values() == old(self).index.values() + sync_values(
                *config,
                *data,
                now,
                total_shares,
            ) && r == Ok::<PoolRewardData, Error>(sync_data(*config, *data, now)),
            r is Err ==> r == Err::<PoolRewardData, Error>(Error::ArithmeticOverflow),
            r is Err && !catchup_first_ok(
                *config,
                *data,
                old(self).index.values(),
                old(self).index.fan_out(),
                total_shares,
            ) ==> *final(self) == *old(self),
            r is Err && catchup_first_ok(
                *config,
                *data,
                old(self).index.values(),
                old(self).index.fan_out(),
                total_shares,
            ) ==> final(self).data == catchup_mid_data(*config, *data) && final(self).index.values() == old(self).index.values().push(
                per_share(generated_catchup(*config, *data), total_shares) as u64,
            ),
    {
        let ghost vals0 = self.index.values();
        let reward_timestamp: u64 = config.expired_at;
        let elapsed: u64 = reward_timestamp - data.last_time;
        proof {
            vstd::arithmetic::mul::lemma_mul_upper_bound(
                elapsed as int,
                u64::MAX as int,
                config.tps as int,
                u64::MAX as int,
            );
        }
        let generated_tokens: u128 = to_u128(elapsed) * to_u128(config.tps);
        let accumulated = match data.accumulated.checked_add(generated_tokens) {
            Some(v) => v,
            None => {
                return Err(Error::ArithmeticOverflow);
            }
        };
        let catchup_data = PoolRewardData {
            block: data.block + 1,
            accumulated,
            last_time: config.expired_at,
        };
        match self.create_new_rewards_data(generated_tokens, total_shares, catchup_data) {
            Ok(_) => {}
            Err(e) => {
                return Err(e);
            }
        }
        // the trailing zero-generation epoch up to now
        let final_data = PoolRewardData {
            block: catchup_data.block + 1,
            accumulated: catchup_data.accumulated,
            last_time: now,
        };
        let r = self.create_new_rewards_data(0, total_shares, final_data);
        proof {
            let ps = per_share(generated_catchup(*config, *data), total_shares) as u64;
            assert(per_share(0, total_shares) == 0) by {
                if total_shares > 0 {
                    vstd::arithmetic::div_mod::lemma_div_basics(total_shares as int);
                }
            };
            if r is Ok {
                assert(self.index.values() =~= vals0 + sync_values(
                    *config,
                    *data,
                    now,
                    total_shares,
                ));
            }
        }
        match r {
            Ok(_) => Ok(final_data),
            Err(e) => Err(e),
        }
    }

    /// Bring the pool's emission clock up to date at `now`: dispatch to
    /// the active, already-lapsed or newly-lapsed transition, advancing
    /// the epoch counter and recording the new epochs' per-share values
    /// in the index.  On an arithmetic error the engine stays
    /// well-formed but the operation must be considered aborted.
    pub fn update_rewards_data(&mut self, now: u64, total_shares: u128) -> (r: Result<
        PoolRewardData,
        Error,
    >)
        requires
            old(self).wf(),
            old(self).data().last_time <= now,
            old(self).data().block + 2 < u64::MAX,
        ensures
            final(self).wf(),
            final(self).config() == old(self).config(),
            final(self).users() == old(self).users(),
            final(self).fan_out() == old(self).fan_out(),
            r is Ok <==> sync_ok(
                old(self).config(),
                old(self).data(),
                old(self).values(),
                old(self).fan_out(),
                now,
                total_shares,
            ),
            r is Ok ==> final(self).data() == sync_data(old(self).config(), old(self).data(), now)
                && final(self).values() == old(self).values() + sync_values(
                old(self).config(),
                old(self).data(),
                now,
                total_shares,
            ) && r == Ok::<PoolRewardData, Error>(sync_data(old(self).config(), old(self).data(), now)),
            r is Err ==> r == Err::<PoolRewardData, Error>(Error::ArithmeticOverflow),
            r is Err ==> final(self).data().block >= old(self).data().block,
            r is Err && !(!sync_is_active(old(self).config(), now) && !sync_is_lapsed(
                old(self).config(),
                old(self).data(),
                now,
            ) && catchup_first_ok(
                old(self).config(),
                old(self).data(),
                old(self).values(),
                old(self).fan_out(),
                total_shares,
            )) ==> *final(self) == *old(self),
            r is Err && (!sync_is_active(old(self).config(), now) && !sync_is_lapsed(
                old(self).config(),
                old(self).data(),
                now,
            ) && catchup_first_ok(
                old(self).config(),
                old(self).data(),
                old(self).values(),
                old(self).fan_out(),
                total_shares,
            )) ==> final(self).data() == catchup_mid_data(old(self).config(), old(self).data())
                && final(self).values() == old(self).values().push(
                per_share(
                    generated_catchup(old(self).config(), old(self).data()),
                    total_shares,
                ) as u64,
            ),
    {
        let config = self.config;
        let data = self.data;
        if now < config.expired_at {
            self.update_rewards_data_snapshot(now, &config, &data, total_shares)
        } else if data.last_time > config.expired_at {
            // the campaign already closed: append a zero-generation
            // epoch so the counter keeps advancing and later range
            // queries read zeros past expiry
            let r = self.create_new_rewards_data(
                0,
                total_shares,
                PoolRewardData {
                    block: data.block + 1,
                    accumulated: data.accumulated,
                    last_time: now,
                },
            );
            proof {
                assert(per_share(0, total_shares) == 0) by {
                    if total_shares > 0 {
                        vstd::arithmetic::div_mod::lemma_div_basics(total_shares as int);
                    }
                };
                if r is Ok {
                    assert(self.index.values() =~= old(self).values() + sync_values(
                        config,
                        data,
                        now,
                        total_shares,
                    ));
                }
            }
            r
        } else {
            self.update_rewards_data_catchup(now, &config, &data, total_shares)
        }
    }

    /// The stored checkpoint of one user, if they ever settled.
    pub fn get_user_reward_data(&self, user: u64) -> (r: Option<UserRewardData>)
        ensures
            r == user_checkpoint(self.users(), user),
    {
        match self.users.get(&user) {
            Some(ud) => Some(*ud),
            None => None,
        }
    }

    /// The reward owed for the closed epoch range `start_block..=
    /// end_block`: the range sum of per-share values times the user's
    /// shares.
    fn calculate_user_reward(&self, start_block: u64, end_block: u64, user_share: u128) -> (r:
        Result<u128, Error>)
        requires
            self.index.wf(),
            (end_block as int) < self.index.values().len(),
        ensures
            ({
                let s = sum_vals(self.index.values(), start_block as int, end_block as int + 1);
                &&& (r is Ok <==> s <= u64::MAX && s * user_share <= u128::MAX)
                &&& (r is Ok ==> r->Ok_0 as int == s * user_share)
                &&& (r is Err ==> r == Err::<u128, Error>(Error::ArithmeticOverflow))
            }),
    {
        let result = match self.index.range_sum(start_block, end_block, true) {
            Ok(v) => v,
            Err(e) => {
                return Err(e);
            }
        };
        proof {
            if start_block > end_block {
                vstd::arithmetic::mul::lemma_mul_basics(user_share as int);
            }
        }
        match (result as u128).checked_mul(user_share) {
            Some(v) => Ok(v),
            None => Err(Error::ArithmeticOverflow),
        }
    }

    /// Store a fresh checkpoint for the user at the pool's current
    /// block and accumulated total, owed `to_claim`.
    fn create_new_user_data(&mut self, user: u64, pool_data: &PoolRewardData, to_claim: u128) -> (ud:
        UserRewardData)
        requires
            old(self).wf(),
            pool_data.block == old(self).data.block,
        ensures
            ud == (UserRewardData {
                last_block: pool_data.block,
                pool_accumulated: pool_data.accumulated,
                to_claim,
            }),
            final(self).wf(),
            final(self).config == old(self).config,
            final(self).data == old(self).data,
            final(self).index == old(self).index,
            final(self).users@ == old(self).users@.insert(user, ud),
    {
        let new_data = UserRewardData {
            last_block: pool_data.block,
            pool_accumulated: pool_data.accumulated,
            to_claim,
        };
        self.users.insert(user, new_data);
        new_data
    }

    /// Reconcile one user's checkpoint against the pool state that the
    /// preceding sync returned: a first settlement starts at the
    /// current state with nothing owed; an idle pool leaves the record
    /// untouched; a zero share balance advances the checkpoint without
    /// earning; otherwise the newly owed reward is a range query over
    /// the epochs since the user's last settlement.
    pub fn update_user_reward(
        &mut self,
        pool_data: &PoolRewardData,
        user: u64,
        user_balance_shares: u128,
    ) -> (r: Result<UserRewardData, Error>)
        requires
            old(self).wf(),
            *pool_data == old(self).data(),
            pool_data.block < u64::MAX,
        ensures
            final(self).wf(),
            final(self).config() == old(self).config(),
            final(self).data() == old(self).data(),
            final(self).values() == old(self).values(),
            final(self).fan_out() == old(self).fan_out(),
            r is Ok <==> settle_ok(
                user_checkpoint(old(self).users(), user),
                *pool_data,
                old(self).values(),
                user_balance_shares,
            ),
            r is Ok ==> r == Ok::<UserRewardData, Error>(settle_result(
                user_checkpoint(old(self).users(), user),
                *pool_data,
                old(self).values(),
                user_balance_shares,
            )),
            r is Ok ==> final(self).users() == (if settle_writes(
                user_checkpoint(old(self).users(), user),
                *pool_data,
            ) {
                old(self).users().insert(
                    user,
                    settle_result(
                        user_checkpoint(old(self).users(), user),
                        *pool_data,
                        old(self).values(),
                        user_balance_shares,
                    ),
                )
            } else {
                old(self).users()
            }),
            r is Err ==> *final(self) == *old(self),
            r is Err ==> r == Err::<UserRewardData, Error>(Error::ArithmeticOverflow),
    {
        let stored = match self.users.get(&user) {
            Some(ud) => Some(*ud),
            None => None,
        };
        match stored {
            Some(user_data) => {
                if user_data.pool_accumulated == pool_data.accumulated {
                    // nothing generated pool-wide since the last
                    // settlement: no range query, no write
                    return Ok(user_data);
                }
                if user_balance_shares == 0 {
                    // no shares held over the interval: carry the owed
                    // amount, advance the checkpoint
                    return Ok(self.create_new_user_data(user, pool_data, user_data.to_claim));
                }
                let reward = match self.calculate_user_reward(
                    user_data.last_block + 1,
                    pool_data.block,
                    user_balance_shares,
                ) {
                    Ok(v) => v,
                    Err(e) => {
                        return Err(e);
                    }
                };
                match user_data.to_claim.checked_add(reward) {
                    Some(total) => Ok(self.create_new_user_data(user, pool_data, total)),
                    None => Err(Error::ArithmeticOverflow),
                }
            }
            None => Ok(self.create_new_user_data(user, pool_data, 0)),
        }
    }

    /// Run the full settlement pipeline for one user: sync the pool,
    /// then reconcile the user against the synced state.
    fn user_reward_data(
        &mut self,
        user: u64,
        now: u64,
        total_shares: u128,
        user_balance_shares: u128,
    ) -> (r: Result<UserRewardData, Error>)
        requires
            old(self).wf(),
            old(self).data().last_time <= now,
            old(self).data().block + 2 < u64::MAX,
        ensures
            final(self).wf(),
            final(self).config() == old(self).config(),
            final(self).fan_out() == old(self).fan_out(),
            ({
                let c = old(self).config();
                let d0 = old(self).data();
                let v0 = old(self).values();
                let b = old(self).fan_out();
                let d1 = sync_data(c, d0, now);
                let v1 = v0 + sync_values(c, d0, now, total_shares);
                let prev = user_checkpoint(old(self).users(), user);
                let ud = settle_result(prev, d1, v1, user_balance_shares);
                &&& (r is Ok <==> sync_ok(c, d0, v0, b, now, total_shares) && settle_ok(
                    prev,
                    d1,
                    v1,
                    user_balance_shares,
                ))
                &&& (r is Ok ==> r == Ok::<UserRewardData, Error>(ud) && final(self).data() == d1
                    && final(self).values() == v1 && final(self).users() == (if settle_writes(
                    prev,
                    d1,
                ) {
                    old(self).users().insert(user, ud)
                } else {
                    old(self).users()
                }))
                &&& (r is Err ==> r == Err::<UserRewardData, Error>(Error::ArithmeticOverflow)
                    && final(self).users() == old(self).users())
                &&& (r is Err && sync_ok(c, d0, v0, b, now, total_shares) ==> final(self).data()
                    == d1 && final(self).values() == v1)
                &&& (r is Err && !sync_ok(c, d0, v0, b, now, total_shares) && !(!sync_is_active(
                    c,
                    now,
                ) && !sync_is_lapsed(c, d0, now) && catchup_first_ok(c, d0, v0, b, total_shares))
                    ==> *final(self) == *old(self))
                &&& (r is Err && !sync_ok(c, d0, v0, b, now, total_shares) && (!sync_is_active(
                    c,
                    now,
                ) && !sync_is_lapsed(c, d0, now) && catchup_first_ok(c, d0, v0, b, total_shares))
                    ==> final(self).data() == catchup_mid_data(c, d0) && final(self).values()
                    == v0.push(per_share(generated_catchup(c, d0), total_shares) as u64))
            }),
    {
        let pool_data = match self.update_rewards_data(now, total_shares) {
            Ok(d) => d,
            Err(e) => {
                return Err(e);
            }
        };
        self.update_user_reward(&pool_data, user, user_balance_shares)
    }

    /// Settle the user and return the amount they could claim now.
    /// Read-shaped but mutating: the updated checkpoint persists.
    pub fn get_amount_to_claim(
        &mut self,
        user: u64,
        now: u64,
        total_shares: u128,
        user_balance_shares: u128,
    ) -> (r: Result<u128, Error>)
        requires
            old(self).wf(),
            old(self).data().last_time <= now,
            old(self).data().block + 2 < u64::MAX,
        ensures
            final(self).wf(),
            final(self).config() == old(self).config(),
            final(self).fan_out() == old(self).fan_out(),
            ({
                let c = old(self).config();
                let d0 = old(self).data();
                let v0 = old(self).values();
                let b = old(self).fan_out();
                let d1 = sync_data(c, d0, now);
                let v1 = v0 + sync_values(c, d0, now, total_shares);
                let prev = user_checkpoint(old(self).users(), user);
                let ud = settle_result(prev, d1, v1, user_balance_shares);
                &&& (r is Ok <==> sync_ok(c, d0, v0, b, now, total_shares) && settle_ok(
                    prev,
                    d1,
                    v1,
                    user_balance_shares,
                ))
                &&& (r is Ok ==> r == Ok::<u128, Error>(ud.to_claim) && final(self).data() == d1
                    && final(self).values() == v1 && final(self).users() == (if settle_writes(
                    prev,
                    d1,
                ) {
                    old(self).users().insert(user, ud)
                } else {
                    old(self).users()
                }))
                &&& (r is Err ==> r == Err::<u128, Error>(Error::ArithmeticOverflow) && final(self).users() == old(self).users())
                &&& (r is Err && sync_ok(c, d0, v0, b, now, total_shares) ==> final(self).data()
                    == d1 && final(self).values() == v1)
                &&& (r is Err && !sync_ok(c, d0, v0, b, now, total_shares) && !(!sync_is_active(
                    c,
                    now,
                ) && !sync_is_lapsed(c, d0, now) && catchup_first_ok(c, d0, v0, b, total_shares))
                    ==> *final(self) == *old(self))
                &&& (r is Err && !sync_ok(c, d0, v0, b, now, total_shares) && (!sync_is_active(
                    c,
                    now,
                ) && !sync_is_lapsed(c, d0, now) && catchup_first_ok(c, d0, v0, b, total_shares))
                    ==> final(self).data() == catchup_mid_data(c, d0) && final(self).values()
                    == v0.push(per_share(generated_catchup(c, d0), total_shares) as u64))
            }),
    {
        let ud = match self.user_reward_data(user, now, total_shares, user_balance_shares) {
            Ok(v) => v,
            Err(e) => {
                return Err(e);
            }
        };
        Ok(ud.to_claim)
    }

    /// Settle the user, zero their stored unclaimed balance, and
    /// return the amount to pay out.  The balance is durably zero
    /// before the caller transfers the tokens from the custody
    /// account, so a payout that re-enters the engine cannot claim
    /// twice.
    pub fn claim_reward(
        &mut self,
        user: u64,
        now: u64,
        total_shares: u128,
        user_balance_shares: u128,
    ) -> (r: Result<u128, Error>)
        requires
            old(self).wf(),
            old(self).data().last_time <= now,
            old(self).data().block + 2 < u64::MAX,
        ensures
            final(self).wf(),
            final(self).config() == old(self).config(),
            final(self).fan_out() == old(self).fan_out(),
            ({
                let c = old(self).config();
                let d0 = old(self).data();
                let v0 = old(self).values();
                let b = old(self).fan_out();
                let d1 = sync_data(c, d0, now);
                let v1 = v0 + sync_values(c, d0, now, total_shares);
                let prev = user_checkpoint(old(self).users(), user);
                let ud = settle_result(prev, d1, v1, user_balance_shares);
                &&& (r is Ok <==> sync_ok(c, d0, v0, b, now, total_shares) && settle_ok(
                    prev,
                    d1,
                    v1,
                    user_balance_shares,
                ))
                &&& (r is Ok ==> r == Ok::<u128, Error>(ud.to_claim) && final(self).data() == d1
                    && final(self).values() == v1 && final(self).users() == old(self).users().insert(
                    user,
                    UserRewardData {
                        last_block: ud.last_block,
                        pool_accumulated: ud.pool_accumulated,
                        to_claim: 0,
                    },
                ))
                &&& (r is Err ==> r == Err::<u128, Error>(Error::ArithmeticOverflow) && final(self).users() == old(self).users())
                &&& (r is Err && sync_ok(c, d0, v0, b, now, total_shares) ==> final(self).data()
                    == d1 && final(self).values() == v1)
                &&& (r is Err && !sync_ok(c, d0, v0, b, now, total_shares) && !(!sync_is_active(
                    c,
                    now,
                ) && !sync_is_lapsed(c, d0, now) && catchup_first_ok(c, d0, v0, b, total_shares))
                    ==> *final(self) == *old(self))
                &&& (r is Err && !sync_ok(c, d0, v0, b, now, total_shares) && (!sync_is_active(
                    c,
                    now,
                ) && !sync_is_lapsed(c, d0, now) && catchup_first_ok(c, d0, v0, b, total_shares))
                    ==> final(self).data() == catchup_mid_data(c, d0) && final(self).values()
                    == v0.push(per_share(generated_catchup(c, d0), total_shares) as u64))
            }),
    {
        let ud = match self.user_reward_data(user, now, total_shares, user_balance_shares) {
            Ok(v) => v,
            Err(e) => {
                return Err(e);
            }
        };
        // zero the stored balance; the caller pays `ud.to_claim` out
        // afterwards
        let zeroed = UserRewardData {
            last_block: ud.last_block,
            pool_accumulated: ud.pool_accumulated,
            to_claim: 0,
        };
        self.users.insert(user, zeroed);
        Ok(ud.to_claim)
    }
}

} // verus!
