//! Integer decisions of the `optigrid` energy-arbitrage policies: which
//! sub-policy the ensemble runs, and which time steps each policy reads
//! day-ahead prices from.
use vstd::prelude::*;

verus! {

/// Forecast length of the mean-of-window policy (`optigrid_v1`).
pub const V1_HORIZON: usize = 16;

/// Longest forecast of the round-trip policy (`optigrid_v2`).
pub const V2_MAX_HORIZON: usize = 32;

/// Shortest forecast the round-trip policy trades on.
pub const V2_MIN_HORIZON: usize = 4;

/// Forecast length of the best-of-window policy (`optigrid_v3`).
pub const V3_HORIZON: usize = 24;

/// The sub-policies of the `optigrid_v4` ensemble.
#[derive(Clone, Copy, Debug, PartialEq, Eq, Structural)]
pub enum SubPolicy {
    /// Mean-of-window lookahead, soft-saturating size (`sub_v1`).
    V1,
    /// Round-trip economics, closed-form size (`sub_v2`).
    V2,
    /// Best-of-window lookahead, soft-saturating size (`sub_v3`).
    V3,
}

/// The ensemble's dispatch: at most 10 batteries run `V3`, 11 to 40 run
/// `V2`, more run `V1`.
pub open spec fn sub_policy_for(num_batteries: int) -> SubPolicy {
    if num_batteries <= 10 {
        SubPolicy::V3
    } else if num_batteries <= 40 {
        SubPolicy::V2
    } else {
        SubPolicy::V1
    }
}

/// Every battery count goes to exactly one sub-policy: up to 10 to `V3`,
/// 11 to 40 to `V2`, above 40 to `V1`; more batteries never move the
/// choice back towards `V3`.
pub proof fn law_dispatch_thresholds(n: int, m: int)
    ensures
        n <= 10 <==> sub_policy_for(n) == SubPolicy::V3,
        (11 <= n <= 40) <==> sub_policy_for(n) == SubPolicy::V2,
        n > 40 <==> sub_policy_for(n) == SubPolicy::V1,
        n <= m && sub_policy_for(n) == SubPolicy::V1 ==> sub_policy_for(m) == SubPolicy::V1,
        n <= m && sub_policy_for(m) == SubPolicy::V3 ==> sub_policy_for(n) == SubPolicy::V3,
{
}

pub fn select_sub_policy(num_batteries: usize) -> (r: SubPolicy)
    ensures
        r == sub_policy_for(num_batteries as int),
        num_batteries <= 10 ==> r == SubPolicy::V3,
        11 <= num_batteries <= 40 ==> r == SubPolicy::V2,
        num_batteries > 40 ==> r == SubPolicy::V1,
{
    if num_batteries <= 10 {
        SubPolicy::V3
    } else if num_batteries <= 40 {
        SubPolicy::V2
    } else {
        SubPolicy::V1
    }
}

/// Time steps `start..end` of the mean-of-window policy at step `t`: the
/// steps after `t` and before both `t + V1_HORIZON` and `num_steps`
/// (empty when `end <= start`).
pub fn v1_forecast_window(t: usize, num_steps: usize) -> (r: (usize, usize))
    requires
        t + V1_HORIZON <= usize::MAX,
    ensures
        r.0 == t + 1,
        r.1 == if t + V1_HORIZON <= num_steps { t + V1_HORIZON } else { num_steps as int },
        r.1 == if t + 16 <= num_steps { t + 16 } else { num_steps as int },
{
    let last = if t + V1_HORIZON <= num_steps { t + V1_HORIZON } else { num_steps };
    (t + 1, last)
}

/// Time steps of the round-trip policy at step `t`: up to
/// `V2_MAX_HORIZON` steps after `t` within `num_steps`, or `None` when
/// fewer than `V2_MIN_HORIZON` remain (the policy then holds).
pub fn v2_forecast_window(t: usize, num_steps: usize) -> (r: Option<(usize, usize)>)
    requires
        t + 1 <= usize::MAX,
    ensures
        ({
            let remaining = if num_steps >= t + 1 { num_steps - (t + 1) } else { 0 };
            let horizon = if remaining <= V2_MAX_HORIZON { remaining } else { V2_MAX_HORIZON as int };
            if horizon < V2_MIN_HORIZON {
                r is None
            } else {
                r == Some(((t + 1) as usize, (t + 1 + horizon) as usize))
            }
        }),
        num_steps >= t + 1 + 32 ==> r == Some(((t + 1) as usize, (t + 33) as usize)),
        (t + 1 + 4 <= num_steps < t + 1 + 32) ==> r == Some(((t + 1) as usize, num_steps)),
        num_steps < t + 1 + 4 ==> r is None,
{
    let remaining = num_steps.saturating_sub(t + 1);
    let horizon = if remaining <= V2_MAX_HORIZON { remaining } else { V2_MAX_HORIZON };
    if horizon < V2_MIN_HORIZON {
        None
    } else {
        Some((t + 1, t + 1 + horizon))
    }
}

/// Time steps of the best-of-window policy at step `t`: the steps after
/// `t` and before both `t + V3_HORIZON + 1` and `num_steps`, or `None`
/// when there is none (the policy then holds).
pub fn v3_forecast_window(t: usize, num_steps: usize) -> (r: Option<(usize, usize)>)
    requires
        t + V3_HORIZON + 1 <= usize::MAX,
    ensures
        ({
            let last = if t + V3_HORIZON + 1 <= num_steps { t + V3_HORIZON + 1 } else { num_steps as int };
            if last <= t + 1 {
                r is None
            } else {
                r == Some(((t + 1) as usize, last as usize))
            }
        }),
        num_steps >= t + 25 ==> r == Some(((t + 1) as usize, (t + 25) as usize)),
        (t + 1 < num_steps < t + 25) ==> r == Some(((t + 1) as usize, num_steps)),
        num_steps <= t + 1 ==> r is None,
{
    let last = if t + V3_HORIZON + 1 <= num_steps { t + V3_HORIZON + 1 } else { num_steps };
    if last <= t + 1 {
        None
    } else {
        Some((t + 1, last))
    }
}

} // verus!
