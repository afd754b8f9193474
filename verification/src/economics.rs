//! Staking economics: node registration, reputation, slashing and
//! stake-and-reputation weighted rewards.
//!
//! Amounts are integers. Stakes, penalties and rewards are counted in the
//! smallest unit of the staked token. Reputation is counted in basis points:
//! `REPUTATION_MAX` (10 000) stands for a perfect reputation of 1.0, so a
//! recovery step of 0.01 is 100 points, an inconsistency penalty of 0.1 is
//! 1 000 points and a slashing penalty of 0.3 is 3 000 points. Fractions of a
//! stake (penalties, thresholds) are basis points of `BPS_SCALE` (10 000).
//! Stakes are signed: a penalty above the whole stake leaves a negative
//! stake, which weighs against its node in the reward split.

use vstd::prelude::*;

use crate::clock::{representable, utc_now, UtcTime};
use crate::split::{
    abs_sum, is_split, lemma_abs_sum_grows, mul_div_wide, part_sum, parts_fit, split_fits, split_pool,
    sum_weights, weight_sum,
};

verus! {

/// A perfect reputation (1.0), in basis points.
pub const REPUTATION_MAX: u64 = 10_000;

/// Reputation regained by a consistent contribution (0.01).
pub const REPUTATION_RECOVERY: u64 = 100;

/// Reputation lost by an inconsistent contribution (0.1).
pub const REPUTATION_INCONSISTENCY_PENALTY: u64 = 1_000;

/// Reputation lost when a node is slashed (0.3).
pub const REPUTATION_SLASH_PENALTY: u64 = 3_000;

/// The whole of a stake, in basis points.
pub const BPS_SCALE: u64 = 10_000;

/// Deviation that triggers investigation or slashing (10%), in basis points.
pub const DEFAULT_SLASHING_THRESHOLD: u64 = 1_000;

/// What the manager knows of one registered node.
#[derive(Debug)]
pub struct NodeStats {
    pub node_id: String,
    /// Negative after a slashing of more than the whole stake.
    pub stake: i128,
    /// Basis points, from 0 to `REPUTATION_MAX`.
    pub reputation: u64,
    pub uptime_secs: u64,
    pub successful_contributions: u64,
    pub slashes: u32,
    pub last_seen: UtcTime,
}

impl Clone for NodeStats {
    fn clone(&self) -> (res: Self)
        ensures
            res == *self,
    {
        NodeStats {
            node_id: self.node_id.clone(),
            stake: self.stake,
            reputation: self.reputation,
            uptime_secs: self.uptime_secs,
            successful_contributions: self.successful_contributions,
            slashes: self.slashes,
            last_seen: self.last_seen,
        }
    }
}

/// The record of one slashing.
#[derive(Debug)]
pub struct SlashingEvent {
    pub node_id: String,
    pub epoch: u64,
    pub reason: String,
    pub amount_slashed: i128,
}

/// Why a registration was refused.
#[derive(Debug, PartialEq, Eq, Structural)]
pub enum StakingError {
    StakeBelowMinimum { stake: u64, minimum: u64 },
}

/// The registry of staked nodes.
pub struct StakingManager {
    nodes: Vec<NodeStats>,
    min_stake: u64,
    slashing_threshold: u64,
}

/// No node id occurs twice.
pub open spec fn ids_unique(nodes: Seq<NodeStats>) -> bool {
    forall|i: int, j: int|
        0 <= i < nodes.len() && 0 <= j < nodes.len() && i != j ==> nodes[i].node_id@
            != nodes[j].node_id@
}

/// Every reputation lies between 0 and `REPUTATION_MAX`.
pub open spec fn reputations_bounded(nodes: Seq<NodeStats>) -> bool {
    forall|i: int| 0 <= i < nodes.len() ==> #[trigger] nodes[i].reputation <= REPUTATION_MAX
}

/// Whether `id` is registered among `nodes`.
pub open spec fn has_id(nodes: Seq<NodeStats>, id: Seq<char>) -> bool {
    exists|i: int| 0 <= i < nodes.len() && #[trigger] nodes[i].node_id@ == id
}

/// The position of `id` among `nodes`, if it is registered.
pub open spec fn id_index(nodes: Seq<NodeStats>, id: Seq<char>) -> Option<int> {
    if has_id(nodes, id) {
        Some(choose|i: int| 0 <= i < nodes.len() && #[trigger] nodes[i].node_id@ == id)
    } else {
        None
    }
}

/// The stats of a node just registered with `stake` at `now`.
pub open spec fn is_fresh(s: NodeStats, id: Seq<char>, stake: u64, now: UtcTime) -> bool {
    &&& s.node_id@ == id
    &&& s.stake == stake
    &&& s.reputation == REPUTATION_MAX
    &&& s.uptime_secs == 0
    &&& s.successful_contributions == 0
    &&& s.slashes == 0
    &&& s.last_seen == now
}

/// `after` is `before` with `id` registered afresh with `stake` at `now`:
/// an entry already there is replaced in place, a new one goes last.
pub open spec fn registered(
    before: Seq<NodeStats>,
    after: Seq<NodeStats>,
    id: Seq<char>,
    stake: u64,
    now: UtcTime,
) -> bool {
    match id_index(before, id) {
        Some(i) => {
            &&& after.len() == before.len()
            &&& is_fresh(after[i], id, stake, now)
            &&& forall|j: int| 0 <= j < before.len() && j != i ==> after[j] == before[j]
        },
        None => {
            &&& after.len() == before.len() + 1
            &&& is_fresh(after.last(), id, stake, now)
            &&& after.drop_last() == before
        },
    }
}

/// Reputation after a consistent contribution: up by 0.01, at most 1.0.
pub open spec fn recovered(rep: u64) -> u64 {
    if rep + REPUTATION_RECOVERY <= REPUTATION_MAX {
        (rep + REPUTATION_RECOVERY) as u64
    } else {
        REPUTATION_MAX
    }
}

/// Reputation lowered by `penalty`, at least 0.
pub open spec fn lowered(rep: u64, penalty: u64) -> u64 {
    if rep >= penalty {
        (rep - penalty) as u64
    } else {
        0
    }
}

/// The stats after one performance report at `now`.
pub open spec fn after_report(s: NodeStats, is_consistent: bool, now: UtcTime) -> NodeStats {
    if is_consistent {
        NodeStats {
            last_seen: now,
            successful_contributions: (s.successful_contributions + 1) as u64,
            reputation: recovered(s.reputation),
            ..s
        }
    } else {
        NodeStats { last_seen: now, reputation: lowered(s.reputation, REPUTATION_INCONSISTENCY_PENALTY), ..s }
    }
}

/// The registry after one performance report on `id` at `now`; a report on
/// an unknown node changes nothing. The latency of the contribution plays no
/// part.
pub open spec fn reported(nodes: Seq<NodeStats>, id: Seq<char>, is_consistent: bool, now: UtcTime) -> Seq<NodeStats> {
    match id_index(nodes, id) {
        Some(i) => nodes.update(i, after_report(nodes[i], is_consistent, now)),
        None => nodes,
    }
}

/// The part of `stake` taken by a penalty of `penalty_bps` basis points,
/// rounded toward zero to whole units. A negative stake has a negative
/// penalty, and a penalty above the whole stake (above `BPS_SCALE`) leaves a
/// negative stake.
pub open spec fn penalty_of(stake: i128, penalty_bps: u64) -> int {
    if stake >= 0 {
        (stake as int * penalty_bps as int) / BPS_SCALE as int
    } else {
        -((-stake as int * penalty_bps as int) / BPS_SCALE as int)
    }
}

/// Whether a slashing of `penalty_bps` basis points of `stake` fits the
/// 128-bit integers that hold stakes and slashed amounts.
pub open spec fn slash_fits(stake: i128, penalty_bps: u64) -> bool {
    &&& -i128::MAX <= penalty_of(stake, penalty_bps) <= i128::MAX
    &&& i128::MIN <= stake - penalty_of(stake, penalty_bps) <= i128::MAX
}

/// The stats after a slashing of `penalty_bps` basis points.
pub open spec fn after_slash(s: NodeStats, penalty_bps: u64) -> NodeStats {
    NodeStats {
        stake: (s.stake - penalty_of(s.stake, penalty_bps)) as i128,
        slashes: (s.slashes + 1) as u32,
        reputation: lowered(s.reputation, REPUTATION_SLASH_PENALTY),
        ..s
    }
}

/// A node's weight in the reward split: its stake times its reputation
/// (negative for a negative stake).
pub open spec fn weight(s: NodeStats) -> int {
    s.stake as int * s.reputation as int
}

/// The summed weight of `nodes`.
pub open spec fn total_weight(nodes: Seq<NodeStats>) -> int
    decreases nodes.len(),
{
    if nodes.len() == 0 {
        0
    } else {
        total_weight(nodes.drop_last()) + weight(nodes.last())
    }
}

/// The weights of `nodes`, in registry order.
pub open spec fn weights_of(nodes: Seq<NodeStats>) -> Seq<i128> {
    Seq::new(nodes.len(), |i: int| weight(nodes[i]) as i128)
}

/// Whether the reward split of `pool` over `nodes` fits 128-bit integers:
/// every weight and the sum of their sizes fit an `i128`, and so does every
/// share.
pub open spec fn rewards_fit_spec(nodes: Seq<NodeStats>, pool: u64) -> bool {
    &&& forall|i: int| 0 <= i < nodes.len() ==> -i128::MAX <= #[trigger] weight(nodes[i]) <= i128::MAX
    &&& abs_sum(weights_of(nodes)) <= i128::MAX
    &&& total_weight(nodes) > 0 ==> parts_fit(weights_of(nodes), pool)
}

/// The amounts of a list of rewards, in order.
pub open spec fn amounts(rewards: Seq<(String, i128)>) -> Seq<i128> {
    Seq::new(rewards.len(), |i: int| rewards[i].1)
}

/// The summed amounts of a list of rewards.
pub open spec fn reward_total(rewards: Seq<(String, i128)>) -> int
    decreases rewards.len(),
{
    if rewards.len() == 0 {
        0
    } else {
        reward_total(rewards.drop_last()) + rewards.last().1
    }
}

/// `a + b`, held at the nearest end of the `i128` range where the sum does
/// not fit.
pub open spec fn saturating_sum(a: i128, b: i128) -> i128 {
    if a + b > i128::MAX {
        i128::MAX
    } else if a + b < i128::MIN {
        i128::MIN
    } else {
        (a + b) as i128
    }
}

/// The registry after crediting `amount` to `id`, if it is registered.
pub open spec fn credit(nodes: Seq<NodeStats>, id: Seq<char>, amount: i128) -> Seq<NodeStats> {
    match id_index(nodes, id) {
        Some(i) => nodes.update(i, NodeStats { stake: saturating_sum(nodes[i].stake, amount), ..nodes[i] }),
        None => nodes,
    }
}

/// The registry after crediting each reward in turn.
pub open spec fn credit_all(nodes: Seq<NodeStats>, rewards: Seq<(String, i128)>) -> Seq<NodeStats>
    decreases rewards.len(),
{
    if rewards.len() == 0 {
        nodes
    } else {
        credit(credit_all(nodes, rewards.drop_last()), rewards.last().0@, rewards.last().1)
    }
}

/// Law: slashing moves exactly the slashed amount out of the stake: what is
/// left plus what was slashed is the stake before. A penalty of at most the
/// whole stake takes no more than a non-negative stake holds; a larger one
/// takes at least all of it.
pub proof fn lemma_slash_conserves_stake(s: NodeStats, penalty_bps: u64)
    requires
        slash_fits(s.stake, penalty_bps),
    ensures
        after_slash(s, penalty_bps).stake + penalty_of(s.stake, penalty_bps) == s.stake,
        s.stake >= 0 && penalty_bps <= BPS_SCALE ==> 0 <= penalty_of(s.stake, penalty_bps) <= s.stake,
        s.stake >= 0 && penalty_bps > BPS_SCALE ==> after_slash(s, penalty_bps).stake <= 0,
{
    let stake = s.stake as int;
    let bps = penalty_bps as int;
    if stake >= 0 {
        if bps <= BPS_SCALE {
            assert(0 <= stake * bps / 10000 <= stake) by (nonlinear_arith)
                requires
                    0 <= stake,
                    0 <= bps <= 10000,
            ;
        } else {
            assert(stake * bps / 10000 >= stake) by (nonlinear_arith)
                requires
                    0 <= stake,
                    bps > 10000,
            ;
        }
    }
}

/// Law: what a report and a slashing do to a node's numbers. A consistent
/// report adds 100 points (0.01) to the reputation, but not above 10 000
/// (1.0), and counts one more contribution; an inconsistent report takes
/// 1 000 points (0.1), but not below 0; a slashing takes 3 000 points (0.3),
/// but not below 0, and counts one more slash. A report stamps the node as
/// seen at the report's time; nothing else changes.
pub proof fn lemma_report_arithmetic(s: NodeStats, now: UtcTime, penalty_bps: u64)
    ensures
        after_report(s, true, now).reputation == if s.reputation + 100 <= 10_000 {
            s.reputation + 100
        } else {
            10_000
        },
        s.successful_contributions < u64::MAX ==> after_report(s, true, now).successful_contributions
            == s.successful_contributions + 1,
        after_report(s, false, now).reputation == if s.reputation >= 1_000 {
            s.reputation - 1_000
        } else {
            0
        },
        after_report(s, false, now).successful_contributions == s.successful_contributions,
        after_report(s, true, now).last_seen == now,
        after_report(s, false, now).last_seen == now,
        after_report(s, true, now).stake == s.stake,
        after_report(s, false, now).stake == s.stake,
        after_slash(s, penalty_bps).reputation == if s.reputation >= 3_000 {
            s.reputation - 3_000
        } else {
            0
        },
        s.slashes < u32::MAX ==> after_slash(s, penalty_bps).slashes == s.slashes + 1,
{
}

/// Law: the slashed amount is the stake times the penalty in basis points,
/// divided by 10 000 and rounded toward zero: for a stake of at least zero,
/// `amount * 10 000 <= stake * penalty_bps < (amount + 1) * 10 000`; for a
/// negative stake the same holds of the negated amount and the negated
/// stake. The slashing leaves the stake less the amount.
pub proof fn lemma_penalty_arithmetic(s: NodeStats, penalty_bps: u64)
    requires
        slash_fits(s.stake, penalty_bps),
    ensures
        ({
            let p = penalty_of(s.stake, penalty_bps);
            &&& s.stake >= 0 ==> 0 <= p && p * 10_000 <= s.stake * penalty_bps < p * 10_000 + 10_000
            &&& s.stake < 0 ==> p <= 0 && -p * 10_000 <= -s.stake * penalty_bps < -p * 10_000
                + 10_000
            &&& after_slash(s, penalty_bps).stake == s.stake - p
        }),
{
    let bps = penalty_bps as int;
    if s.stake >= 0 {
        let x = s.stake * bps;
        assert(x >= 0) by (nonlinear_arith)
            requires
                s.stake >= 0,
                bps >= 0,
                x == s.stake * bps,
        ;
        vstd::arithmetic::div_mod::lemma_fundamental_div_mod(x, 10_000);
        vstd::arithmetic::div_mod::lemma_div_pos_is_pos(x, 10_000);
    } else {
        let x = -s.stake * bps;
        assert(x >= 0) by (nonlinear_arith)
            requires
                s.stake < 0,
                bps >= 0,
                x == -s.stake * bps,
        ;
        vstd::arithmetic::div_mod::lemma_fundamental_div_mod(x, 10_000);
        vstd::arithmetic::div_mod::lemma_div_pos_is_pos(x, 10_000);
    }
}

/// Law: reputation moves in the direction of the evidence and stays within
/// 0 and 1.0: a consistent report never lowers it, an inconsistent report or
/// a slashing never raises it.
pub proof fn lemma_reputation_direction(s: NodeStats, now: UtcTime, penalty_bps: u64)
    requires
        s.reputation <= REPUTATION_MAX,
    ensures
        s.reputation <= after_report(s, true, now).reputation <= REPUTATION_MAX,
        after_report(s, false, now).reputation <= s.reputation,
        after_slash(s, penalty_bps).reputation <= s.reputation,
{
}

/// Law: a performance report keeps every reputation between 0 and 1.0,
/// moves the reported node's reputation in the direction of the report and
/// leaves every other node as it was.
pub proof fn lemma_report_keeps_reputations(
    nodes: Seq<NodeStats>,
    id: Seq<char>,
    is_consistent: bool,
    now: UtcTime,
)
    requires
        reputations_bounded(nodes),
    ensures
        reputations_bounded(reported(nodes, id, is_consistent, now)),
        reported(nodes, id, is_consistent, now).len() == nodes.len(),
        forall|i: int|
            0 <= i < nodes.len() ==> {
                let after = #[trigger] reported(nodes, id, is_consistent, now)[i];
                &&& nodes[i].node_id@ != id ==> after == nodes[i]
                &&& is_consistent ==> after.reputation >= nodes[i].reputation
                &&& !is_consistent ==> after.reputation <= nodes[i].reputation
            },
{
    if let Some(k) = id_index(nodes, id) {
        assert forall|i: int| 0 <= i < nodes.len() implies #[trigger] reported(
            nodes,
            id,
            is_consistent,
            now,
        )[i].reputation <= REPUTATION_MAX by {
            assert(nodes[i].reputation <= REPUTATION_MAX);
        }
    }
}

/// Law: crediting rewards changes nothing but stakes: the same nodes stay
/// registered in the same places with the same ids, reputations, counters
/// and times.
pub proof fn lemma_credit_keeps_registry(nodes: Seq<NodeStats>, rewards: Seq<(String, i128)>)
    ensures
        credit_all(nodes, rewards).len() == nodes.len(),
        forall|i: int|
            0 <= i < nodes.len() ==> #[trigger] credit_all(nodes, rewards)[i] == (NodeStats {
                stake: credit_all(nodes, rewards)[i].stake,
                ..nodes[i]
            }),
    decreases rewards.len(),
{
    if rewards.len() > 0 {
        lemma_credit_keeps_registry(nodes, rewards.drop_last());
        let mid = credit_all(nodes, rewards.drop_last());
        let id = rewards.last().0@;
        if let Some(k) = id_index(mid, id) {
            assert forall|i: int| 0 <= i < nodes.len() implies #[trigger] credit_all(
                nodes,
                rewards,
            )[i] == (NodeStats { stake: credit_all(nodes, rewards)[i].stake, ..nodes[i] }) by {
                assert(credit_all(nodes, rewards) == credit(mid, id, rewards.last().1));
                if i != k {
                    assert(credit_all(nodes, rewards)[i] == mid[i]);
                }
            }
        }
    }
}

/// Law: in a registry without repeated ids, crediting a reward to a
/// registered node adds exactly its amount when the sum fits.
pub proof fn lemma_credit_adds_amount(nodes: Seq<NodeStats>, id: Seq<char>, amount: i128)
    requires
        ids_unique(nodes),
        has_id(nodes, id),
    ensures
        ({
            let i = id_index(nodes, id)->0;
            &&& nodes[i].node_id@ == id
            &&& i128::MIN <= nodes[i].stake + amount <= i128::MAX ==> credit(nodes, id, amount)[i].stake
                == nodes[i].stake + amount
        }),
{
}

/// The summed stakes of `nodes`.
pub open spec fn total_stake(nodes: Seq<NodeStats>) -> int
    decreases nodes.len(),
{
    if nodes.len() == 0 {
        0
    } else {
        total_stake(nodes.drop_last()) + nodes.last().stake
    }
}

proof fn lemma_total_stake_update(nodes: Seq<NodeStats>, i: int, s: NodeStats)
    requires
        0 <= i < nodes.len(),
    ensures
        total_stake(nodes.update(i, s)) == total_stake(nodes) - nodes[i].stake + s.stake,
    decreases nodes.len(),
{
    if i < nodes.len() - 1 {
        lemma_total_stake_update(nodes.drop_last(), i, s);
        assert(nodes.update(i, s).drop_last() =~= nodes.drop_last().update(i, s));
    } else {
        assert(nodes.update(i, s).drop_last() =~= nodes.drop_last());
    }
}

/// Law: handing out rewards that are none of them negative never takes
/// stake away, and adds to the total stake at most the rewards' sum.
pub proof fn lemma_credit_total_stake(nodes: Seq<NodeStats>, rewards: Seq<(String, i128)>)
    requires
        forall|i: int| 0 <= i < rewards.len() ==> (#[trigger] rewards[i]).1 >= 0,
    ensures
        total_stake(nodes) <= total_stake(credit_all(nodes, rewards)),
        total_stake(credit_all(nodes, rewards)) <= total_stake(nodes) + reward_total(rewards),
    decreases rewards.len(),
{
    if rewards.len() > 0 {
        assert forall|i: int| 0 <= i < rewards.drop_last().len() implies (
        #[trigger] rewards.drop_last()[i]).1 >= 0 by {
            assert(rewards.drop_last()[i] == rewards[i]);
        }
        lemma_credit_total_stake(nodes, rewards.drop_last());
        let mid = credit_all(nodes, rewards.drop_last());
        let id = rewards.last().0@;
        let amount = rewards.last().1;
        assert(amount == rewards[rewards.len() - 1].1);
        if let Some(k) = id_index(mid, id) {
            lemma_total_stake_update(
                mid,
                k,
                NodeStats { stake: saturating_sum(mid[k].stake, amount), ..mid[k] },
            );
        }
    }
}

/// The weights of a registry whose weights fit an `i128` add up to its total
/// weight.
pub proof fn lemma_weights_of_sum(nodes: Seq<NodeStats>)
    requires
        forall|i: int| 0 <= i < nodes.len() ==> -i128::MAX <= #[trigger] weight(nodes[i]) <= i128::MAX,
    ensures
        weight_sum(weights_of(nodes)) == total_weight(nodes),
        forall|i: int| 0 <= i < nodes.len() ==> #[trigger] weights_of(nodes)[i] == weight(nodes[i]),
    decreases nodes.len(),
{
    if nodes.len() > 0 {
        let rest = nodes.drop_last();
        assert forall|i: int| 0 <= i < rest.len() implies -i128::MAX <= #[trigger] weight(rest[i])
            <= i128::MAX by {
            assert(rest[i] == nodes[i]);
        }
        lemma_weights_of_sum(rest);
        assert(weights_of(nodes).drop_last() =~= weights_of(rest));
        assert(weight(nodes[nodes.len() - 1]) <= i128::MAX);
    }
}

/// The amounts of a list of rewards add up to its reward total.
pub proof fn lemma_amounts_sum(rewards: Seq<(String, i128)>)
    ensures
        part_sum(amounts(rewards)) == reward_total(rewards),
    decreases rewards.len(),
{
    if rewards.len() > 0 {
        lemma_amounts_sum(rewards.drop_last());
        assert(amounts(rewards).drop_last() =~= amounts(rewards.drop_last()));
    }
}

/// Crediting the first `k` of rewards that follow the registry entry by entry.
proof fn lemma_credit_prefix(nodes: Seq<NodeStats>, rewards: Seq<(String, i128)>, k: int)
    requires
        ids_unique(nodes),
        rewards.len() == nodes.len(),
        0 <= k <= rewards.len(),
        forall|i: int| 0 <= i < nodes.len() ==> (#[trigger] rewards[i]).0@ == nodes[i].node_id@,
        forall|i: int|
            0 <= i < nodes.len() ==> i128::MIN <= nodes[i].stake + (#[trigger] rewards[i]).1
                <= i128::MAX,
    ensures
        credit_all(nodes, rewards.take(k)).len() == nodes.len(),
        forall|i: int|
            0 <= i < nodes.len() ==> #[trigger] credit_all(nodes, rewards.take(k))[i] == if i < k {
                NodeStats { stake: (nodes[i].stake + rewards[i].1) as i128, ..nodes[i] }
            } else {
                nodes[i]
            },
        total_stake(credit_all(nodes, rewards.take(k))) == total_stake(nodes) + reward_total(
            rewards.take(k),
        ),
    decreases k,
{
    if k == 0 {
        assert(rewards.take(0) =~= Seq::<(String, i128)>::empty());
    } else {
        lemma_credit_prefix(nodes, rewards, k - 1);
        let prev = rewards.take(k - 1);
        assert(rewards.take(k).drop_last() =~= prev);
        assert(rewards.take(k).last() == rewards[k - 1]);
        let mid = credit_all(nodes, prev);
        let id = rewards[k - 1].0@;
        assert(mid[k - 1] == nodes[k - 1]);
        assert(mid[k - 1].node_id@ == id);
        assert(has_id(mid, id));
        let j = choose|j: int| 0 <= j < mid.len() && #[trigger] mid[j].node_id@ == id;
        assert(mid[j].node_id@ == nodes[j].node_id@);
        assert(j == k - 1);
        let updated = NodeStats {
            stake: saturating_sum(mid[k - 1].stake, rewards[k - 1].1),
            ..mid[k - 1]
        };
        assert(credit(mid, id, rewards[k - 1].1) == mid.update(k - 1, updated));
        lemma_total_stake_update(mid, k - 1, updated);
    }
}

/// Law: paying out a split that follows the registry entry by entry (as
/// `calculate_rewards` returns it) changes each node's stake by exactly its
/// part and changes nothing else, so that the total stake grows by exactly
/// the pool. Stakes must have room for their parts in an `i128`.
pub proof fn lemma_distribute_split(nodes: Seq<NodeStats>, pool: u64, rewards: Seq<(String, i128)>)
    requires
        ids_unique(nodes),
        total_weight(nodes) > 0,
        rewards.len() == nodes.len(),
        forall|i: int| 0 <= i < nodes.len() ==> (#[trigger] rewards[i]).0@ == nodes[i].node_id@,
        is_split(weights_of(nodes), pool, amounts(rewards)),
        forall|i: int|
            0 <= i < nodes.len() ==> i128::MIN <= nodes[i].stake + (#[trigger] rewards[i]).1
                <= i128::MAX,
    ensures
        credit_all(nodes, rewards).len() == nodes.len(),
        forall|i: int|
            0 <= i < nodes.len() ==> #[trigger] credit_all(nodes, rewards)[i] == (NodeStats {
                stake: (nodes[i].stake + rewards[i].1) as i128,
                ..nodes[i]
            }),
        total_stake(credit_all(nodes, rewards)) == total_stake(nodes) + pool,
{
    lemma_credit_prefix(nodes, rewards, rewards.len() as int);
    assert(rewards.take(rewards.len() as int) =~= rewards);
    lemma_amounts_sum(rewards);
}

/// Whether slashing `penalty_bps` basis points of `stake` fits the 128-bit
/// integers that hold stakes and slashed amounts.
pub fn slash_within_range(stake: i128, penalty_bps: u64) -> (r: bool)
    ensures
        r == slash_fits(stake, penalty_bps),
{
    let size: u128 = if stake >= 0 {
        stake as u128
    } else {
        (-(stake + 1)) as u128 + 1
    };
    match mul_div_wide(size, penalty_bps, BPS_SCALE as u128) {
        Some((q, r)) => {
            proof {
                vstd::arithmetic::div_mod::lemma_fundamental_div_mod_converse(
                    size * penalty_bps,
                    BPS_SCALE as int,
                    q as int,
                    r as int,
                );
            }
            if q > i128::MAX as u128 {
                return false;
            }
            let p: i128 = if stake >= 0 {
                q as i128
            } else {
                -(q as i128)
            };
            stake.checked_sub(p).is_some()
        },
        None => false,
    }
}

/// The penalty of `penalty_bps` basis points on `stake`, rounded toward zero.
fn penalty_amount(stake: i128, penalty_bps: u64) -> (p: i128)
    requires
        slash_fits(stake, penalty_bps),
    ensures
        p == penalty_of(stake, penalty_bps),
        stake >= 0 ==> 0 <= p && p * 10_000 <= stake * penalty_bps < p * 10_000 + 10_000,
        stake < 0 ==> p <= 0 && -p * 10_000 <= -stake * penalty_bps < -p * 10_000 + 10_000,
{
    let size: u128 = if stake >= 0 {
        stake as u128
    } else {
        (-(stake + 1)) as u128 + 1
    };
    proof {
        assert(size == if stake >= 0 {
            stake as int
        } else {
            -stake as int
        });
    }
    let (q, r) = match mul_div_wide(size, penalty_bps, BPS_SCALE as u128) {
        Some(qr) => qr,
        None => {
            proof {
                assert(false);
            }
            (0, 0)
        },
    };
    proof {
        vstd::arithmetic::div_mod::lemma_fundamental_div_mod_converse(
            size * penalty_bps,
            BPS_SCALE as int,
            q as int,
            r as int,
        );
    }
    if stake >= 0 {
        q as i128
    } else {
        -(q as i128)
    }
}

impl View for StakingManager {
    type V = Seq<NodeStats>;

    closed spec fn view(&self) -> Seq<NodeStats> {
        self.nodes@
    }
}

impl StakingManager {
    /// The registry's invariant: ids are unique and reputations bounded.
    pub open spec fn wf(&self) -> bool {
        &&& ids_unique(self@)
        &&& reputations_bounded(self@)
    }

    pub closed spec fn spec_min_stake(&self) -> u64 {
        self.min_stake
    }

    pub closed spec fn spec_slashing_threshold(&self) -> u64 {
        self.slashing_threshold
    }

    /// An empty registry that accepts stakes of at least `min_stake`.
    pub fn new(min_stake: u64) -> (m: Self)
        ensures
            m.wf(),
            m@ == Seq::<NodeStats>::empty(),
            m.spec_min_stake() == min_stake,
            m.spec_slashing_threshold() == DEFAULT_SLASHING_THRESHOLD,
    {
        StakingManager { nodes: Vec::new(), min_stake, slashing_threshold: DEFAULT_SLASHING_THRESHOLD }
    }

    /// The smallest stake that registration accepts.
    pub fn min_stake(&self) -> (r: u64)
        ensures
            r == self.spec_min_stake(),
    {
        self.min_stake
    }

    /// The deviation, in basis points, that triggers investigation or slashing.
    pub fn slashing_threshold(&self) -> (r: u64)
        ensures
            r == self.spec_slashing_threshold(),
    {
        self.slashing_threshold
    }

    /// The number of registered nodes.
    pub fn len(&self) -> (r: usize)
        ensures
            r == self@.len(),
    {
        self.nodes.len()
    }

    /// The position of `id` in the registry.
    fn find(&self, id: &String) -> (r: Option<usize>)
        requires
            ids_unique(self@),
        ensures
            match r {
                Some(i) => id_index(self@, id@) == Some(i as int) && i < self@.len(),
                None => id_index(self@, id@) is None,
            },
    {
        let mut i: usize = 0;
        while i < self.nodes.len()
            invariant
                i <= self.nodes@.len(),
                ids_unique(self@),
                forall|j: int| 0 <= j < i ==> self.nodes@[j].node_id@ != id@,
            decreases self.nodes@.len() - i,
        {
            if self.nodes[i].node_id == *id {
                proof {
                    let k = choose|k: int| 0 <= k < self@.len() && #[trigger] self@[k].node_id@ == id@;
                    assert(self@[i as int].node_id@ == id@);
                    assert(k == i as int);
                }
                return Some(i);
            }
            i += 1;
        }
        None
    }

    /// The stats of `node_id`, if it is registered.
    pub fn node(&self, node_id: &str) -> (r: Option<NodeStats>)
        requires
            self.wf(),
        ensures
            match id_index(self@, node_id@) {
                Some(i) => r == Some(self@[i]),
                None => r is None,
            },
    {
        let id = node_id.to_owned();
        match self.find(&id) {
            Some(i) => Some(self.nodes[i].clone()),
            None => None,
        }
    }

    /// Registers `node_id` with `stake` as seen at `now`. A stake below the
    /// minimum is refused; a node already registered starts afresh.
    pub fn register_node_at(&mut self, node_id: &str, stake: u64, now: UtcTime) -> (r: Result<
        (),
        StakingError,
    >)
        requires
            old(self).wf(),
        ensures
            final(self).wf(),
            final(self).spec_min_stake() == old(self).spec_min_stake(),
            final(self).spec_slashing_threshold() == old(self).spec_slashing_threshold(),
            stake < old(self).spec_min_stake() ==> r == Err::<(), StakingError>(
                StakingError::StakeBelowMinimum { stake, minimum: old(self).spec_min_stake() },
            ) && final(self)@ == old(self)@,
            stake >= old(self).spec_min_stake() ==> r is Ok && registered(
                old(self)@,
                final(self)@,
                node_id@,
                stake,
                now,
            ),
    {
        if stake < self.min_stake {
            return Err(StakingError::StakeBelowMinimum { stake, minimum: self.min_stake });
        }
        let id = node_id.to_owned();
        let stats = NodeStats {
            node_id: id.clone(),
            stake: stake as i128,
            reputation: REPUTATION_MAX,
            uptime_secs: 0,
            successful_contributions: 0,
            slashes: 0,
            last_seen: now,
        };
        match self.find(&id) {
            Some(i) => {
                self.nodes.set(i, stats);
            },
            None => {
                proof {
                    assert(forall|j: int| 0 <= j < self@.len() ==> self@[j].node_id@ != id@);
                }
                self.nodes.push(stats);
                proof {
                    assert(self@.drop_last() =~= old(self)@);
                }
            },
        }
        Ok(())
    }

    /// Registers `node_id` with `stake`, as seen now.
    pub fn register_node(&mut self, node_id: &str, stake: u64) -> (r: Result<(), StakingError>)
        requires
            old(self).wf(),
        ensures
            final(self).wf(),
            final(self).spec_min_stake() == old(self).spec_min_stake(),
            final(self).spec_slashing_threshold() == old(self).spec_slashing_threshold(),
            stake < old(self).spec_min_stake() ==> r == Err::<(), StakingError>(
                StakingError::StakeBelowMinimum { stake, minimum: old(self).spec_min_stake() },
            ) && final(self)@ == old(self)@,
            stake >= old(self).spec_min_stake() ==> r is Ok && exists|now: UtcTime|
                representable(now) && #[trigger] registered(
                    old(self)@,
                    final(self)@,
                    node_id@,
                    stake,
                    now,
                ),
    {
        let now = utc_now();
        self.register_node_at(node_id, stake, now)
    }

    /// Records one contribution of `node_id` at `now`: a consistent one counts
    /// and regains 0.01 of reputation (at most 1.0), an inconsistent one loses
    /// 0.1 (at least 0). An unknown node is ignored. The latency is not used.
    pub fn update_performance_at(
        &mut self,
        node_id: &str,
        is_consistent: bool,
        latency_ms: u64,
        now: UtcTime,
    )
        requires
            old(self).wf(),
            forall|i: int|
                0 <= i < old(self)@.len() && #[trigger] old(self)@[i].node_id@ == node_id@
                    && is_consistent ==> old(self)@[i].successful_contributions < u64::MAX,
        ensures
            final(self).wf(),
            final(self).spec_min_stake() == old(self).spec_min_stake(),
            final(self).spec_slashing_threshold() == old(self).spec_slashing_threshold(),
            final(self)@ == reported(old(self)@, node_id@, is_consistent, now),
            id_index(old(self)@, node_id@) matches Some(i) ==> final(self)@[i].reputation == if is_consistent {
                if old(self)@[i].reputation + 100 <= 10_000 {
                    old(self)@[i].reputation + 100
                } else {
                    10_000
                }
            } else if old(self)@[i].reputation >= 1_000 {
                old(self)@[i].reputation - 1_000
            } else {
                0
            },
    {
        let id = node_id.to_owned();
        if let Some(i) = self.find(&id) {
            proof {
                lemma_report_arithmetic(self@[i as int], now, 0);
            }
            self.nodes[i].last_seen = now;
            if is_consistent {
                self.nodes[i].successful_contributions = self.nodes[i].successful_contributions + 1;
                let rep = self.nodes[i].reputation;
                self.nodes[i].reputation = if rep + REPUTATION_RECOVERY <= REPUTATION_MAX {
                    rep + REPUTATION_RECOVERY
                } else {
                    REPUTATION_MAX
                };
            } else {
                let rep = self.nodes[i].reputation;
                self.nodes[i].reputation = if rep >= REPUTATION_INCONSISTENCY_PENALTY {
                    rep - REPUTATION_INCONSISTENCY_PENALTY
                } else {
                    0
                };
            }
            proof {
                assert(self@ =~= old(self)@.update(
                    i as int,
                    after_report(old(self)@[i as int], is_consistent, now),
                ));
            }
        }
    }

    /// Records one contribution of `node_id`, as seen now.
    pub fn update_performance(&mut self, node_id: &str, is_consistent: bool, latency_ms: u64)
        requires
            old(self).wf(),
            forall|i: int|
                0 <= i < old(self)@.len() && #[trigger] old(self)@[i].node_id@ == node_id@
                    && is_consistent ==> old(self)@[i].successful_contributions < u64::MAX,
        ensures
            final(self).wf(),
            final(self).spec_min_stake() == old(self).spec_min_stake(),
            final(self).spec_slashing_threshold() == old(self).spec_slashing_threshold(),
            exists|now: UtcTime|
                representable(now) && final(self)@ == #[trigger] reported(
                    old(self)@,
                    node_id@,
                    is_consistent,
                    now,
                ),
            id_index(old(self)@, node_id@) matches Some(i) ==> final(self)@[i].reputation == if is_consistent {
                if old(self)@[i].reputation + 100 <= 10_000 {
                    old(self)@[i].reputation + 100
                } else {
                    10_000
                }
            } else if old(self)@[i].reputation >= 1_000 {
                old(self)@[i].reputation - 1_000
            } else {
                0
            },
    {
        let now = utc_now();
        self.update_performance_at(node_id, is_consistent, latency_ms, now);
    }

    /// Slashes `node_id` by `penalty_bps` basis points of its stake: the stake
    /// shrinks by the penalty (rounded toward zero to whole units), the slash
    /// count grows by one and the reputation loses 0.3 (at least 0). Any
    /// penalty is applied: one above the whole stake (above `BPS_SCALE`)
    /// leaves a negative stake. An unknown node gives `None`.
    pub fn slash_node(&mut self, node_id: &str, epoch: u64, reason: &str, penalty_bps: u64) -> (r:
        Option<SlashingEvent>)
        requires
            old(self).wf(),
            forall|i: int|
                0 <= i < old(self)@.len() && #[trigger] old(self)@[i].node_id@ == node_id@
                    ==> old(self)@[i].slashes < u32::MAX && slash_fits(old(self)@[i].stake, penalty_bps),
        ensures
            final(self).wf(),
            final(self).spec_min_stake() == old(self).spec_min_stake(),
            final(self).spec_slashing_threshold() == old(self).spec_slashing_threshold(),
            match id_index(old(self)@, node_id@) {
                Some(i) => {
                    &&& final(self)@ == old(self)@.update(i, after_slash(old(self)@[i], penalty_bps))
                    &&& r matches Some(ev) && ev.node_id@ == node_id@ && ev.epoch == epoch
                        && ev.reason@ == reason@ && ev.amount_slashed == penalty_of(
                        old(self)@[i].stake,
                        penalty_bps,
                    )
                    &&& r matches Some(ev) && ({
                        let st = old(self)@[i].stake;
                        let a = ev.amount_slashed;
                        &&& st >= 0 ==> 0 <= a && a * 10_000 <= st * penalty_bps < a * 10_000 + 10_000
                        &&& st < 0 ==> a <= 0 && -a * 10_000 <= -st * penalty_bps < -a * 10_000 + 10_000
                        &&& final(self)@[i].stake == st - a
                        &&& final(self)@[i].reputation == if old(self)@[i].reputation >= 3_000 {
                            old(self)@[i].reputation - 3_000
                        } else {
                            0
                        }
                        &&& final(self)@[i].slashes == old(self)@[i].slashes + 1
                    })
                },
                None => r is None && final(self)@ == old(self)@,
            },
    {
        let id = node_id.to_owned();
        match self.find(&id) {
            Some(i) => {
                let stake = self.nodes[i].stake;
                let penalty = penalty_amount(stake, penalty_bps);
                proof {
                    lemma_report_arithmetic(self@[i as int], UtcTime { secs: 0, nanos: 0 }, penalty_bps);
                }
                self.nodes[i].stake = stake - penalty;
                self.nodes[i].slashes = self.nodes[i].slashes + 1;
                let rep = self.nodes[i].reputation;
                self.nodes[i].reputation = if rep >= REPUTATION_SLASH_PENALTY {
                    rep - REPUTATION_SLASH_PENALTY
                } else {
                    0
                };
                proof {
                    assert(self@ =~= old(self)@.update(
                        i as int,
                        after_slash(old(self)@[i as int], penalty_bps),
                    ));
                }
                Some(
                    SlashingEvent {
                        node_id: id,
                        epoch,
                        reason: reason.to_owned(),
                        amount_slashed: penalty,
                    },
                )
            },
            None => None,
        }
    }

    /// Whether `calculate_rewards(reward_pool)` fits 128-bit integers for the
    /// present registry.
    pub fn rewards_fit(&self, reward_pool: u64) -> (r: bool)
        requires
            self.wf(),
        ensures
            r == rewards_fit_spec(self@, reward_pool),
    {
        let mut weights: Vec<i128> = Vec::new();
        let mut size: i128 = 0;
        let mut i: usize = 0;
        while i < self.nodes.len()
            invariant
                i <= self@.len(),
                weights@.len() == i,
                forall|k: int| 0 <= k < i ==> -i128::MAX <= #[trigger] weight(self@[k]) <= i128::MAX,
                forall|k: int| 0 <= k < i ==> #[trigger] weights@[k] == weight(self@[k]),
                size == abs_sum(weights@),
            decreases self@.len() - i,
        {
            let w = match self.nodes[i].stake.checked_mul(self.nodes[i].reputation as i128) {
                Some(w) => w,
                None => {
                    proof {
                        assert(!(-i128::MAX <= weight(self@[i as int]) <= i128::MAX));
                    }
                    return false;
                },
            };
            if w == i128::MIN {
                proof {
                    assert(!(-i128::MAX <= weight(self@[i as int]) <= i128::MAX));
                }
                return false;
            }
            let a = if w < 0 {
                -w
            } else {
                w
            };
            let ghost before = weights@;
            weights.push(w);
            proof {
                assert(weights@.drop_last() =~= before);
            }
            match size.checked_add(a) {
                Some(v) => {
                    size = v;
                },
                None => {
                    proof {
                        assert forall|k: int| 0 <= k < weights@.len() implies weights@[k]
                            == weights_of(self@)[k] by {
                            if k < i {
                                assert(-i128::MAX <= weight(self@[k]) <= i128::MAX);
                            }
                        }
                        lemma_abs_sum_grows(weights_of(self@), weights@);
                    }
                    return false;
                },
            }
            i += 1;
        }
        proof {
            assert(weights@ =~= weights_of(self@));
            lemma_weights_of_sum(self@);
        }
        let total = sum_weights(&weights);
        if total <= 0 {
            return true;
        }
        split_fits(&weights, reward_pool)
    }

    /// Splits `reward_pool` over the registered nodes in proportion to their
    /// weight (stake times reputation), in whole units and in full: each node
    /// gets its exact share rounded down, and the units left over go one each
    /// to the largest remainders, the earlier node first among equal ones. A
    /// node with a negative stake has a negative weight and a share of at most
    /// zero. The rewards follow the registry's order. Where the total weight is
    /// not above zero, nothing is handed out.
    pub fn calculate_rewards(&self, reward_pool: u64) -> (r: Vec<(String, i128)>)
        requires
            self.wf(),
            rewards_fit_spec(self@, reward_pool),
        ensures
            total_weight(self@) <= 0 ==> r@.len() == 0,
            total_weight(self@) > 0 ==> {
                &&& r@.len() == self@.len()
                &&& forall|i: int| 0 <= i < r@.len() ==> (#[trigger] r@[i]).0@ == self@[i].node_id@
                &&& is_split(weights_of(self@), reward_pool, amounts(r@))
                &&& reward_total(r@) == reward_pool
            },
    {
        let mut weights: Vec<i128> = Vec::new();
        let mut i: usize = 0;
        while i < self.nodes.len()
            invariant
                i <= self@.len(),
                rewards_fit_spec(self@, reward_pool),
                weights@.len() == i,
                forall|k: int| 0 <= k < i ==> #[trigger] weights@[k] == weight(self@[k]),
            decreases self@.len() - i,
        {
            proof {
                assert(-i128::MAX <= weight(self@[i as int]) <= i128::MAX);
            }
            let w: i128 = self.nodes[i].stake * (self.nodes[i].reputation as i128);
            weights.push(w);
            i += 1;
        }
        proof {
            lemma_weights_of_sum(self@);
            assert(weights@ =~= weights_of(self@));
        }
        let total = sum_weights(&weights);
        let mut rewards: Vec<(String, i128)> = Vec::new();
        if total <= 0 {
            return rewards;
        }
        let parts = split_pool(&weights, reward_pool);
        let mut j: usize = 0;
        while j < self.nodes.len()
            invariant
                j <= self@.len(),
                parts@.len() == self@.len(),
                rewards@.len() == j,
                forall|k: int|
                    0 <= k < j ==> (#[trigger] rewards@[k]).0@ == self@[k].node_id@ && rewards@[k].1
                        == parts@[k],
            decreases self@.len() - j,
        {
            rewards.push((self.nodes[j].node_id.clone(), parts[j]));
            j += 1;
        }
        proof {
            assert(amounts(rewards@) =~= parts@);
            lemma_amounts_sum(rewards@);
        }
        rewards
    }

    /// Credits each reward in turn to the stake of its node (held at the ends
    /// of the `i128` range where the sum would leave it); rewards for unknown
    /// nodes are ignored.
    pub fn distribute_rewards(&mut self, rewards: Vec<(String, i128)>)
        requires
            old(self).wf(),
        ensures
            final(self).wf(),
            final(self).spec_min_stake() == old(self).spec_min_stake(),
            final(self).spec_slashing_threshold() == old(self).spec_slashing_threshold(),
            final(self)@ == credit_all(old(self)@, rewards@),
    {
        let mut i: usize = 0;
        while i < rewards.len()
            invariant
                i <= rewards@.len(),
                self.wf(),
                self.min_stake == old(self).min_stake,
                self.slashing_threshold == old(self).slashing_threshold,
                self@ == credit_all(old(self)@, rewards@.take(i as int)),
            decreases rewards@.len() - i,
        {
            let ghost before = self@;
            let (id, amount) = (&rewards[i].0, rewards[i].1);
            if let Some(k) = self.find(id) {
                let stake = self.nodes[k].stake;
                self.nodes[k].stake = match stake.checked_add(amount) {
                    Some(v) => v,
                    None => if amount > 0 {
                        i128::MAX
                    } else {
                        i128::MIN
                    },
                };
                proof {
                    assert(self@ =~= credit(before, id@, amount));
                }
            }
            proof {
                assert(rewards@.take(i as int + 1).drop_last() =~= rewards@.take(i as int));
            }
            i += 1;
        }
        proof {
            assert(rewards@.take(i as int) =~= rewards@);
        }
    }
}

} // verus!
